//! The diagram's elements and the document that holds them.
//!
//! Arrows attach to other elements through two `Binding`s that name the
//! target's identifier; rectangles and ellipses list the arrows attached to
//! them as `BoundElement`s.
use vstd::prelude::*;
use crate::text::{count_lines, line_count};

verus! {

pub const ANGLE: i32 = 0;
pub const STROKE_COLOR: &'static str = "#000000";
pub const NETWORK_COLOR: &'static str = "#f2f0e6";
pub const BACKGROUND_COLOR: &'static str = "transparent";
pub const FILL_STYLE: &'static str = "hachure";
pub const STROKE_WIDTH: i32 = 1;
pub const STROKE_STYLE: &'static str = "solid";
pub const CONNECTION_STYLE: &'static str = "dashed";
pub const OPACITY: i32 = 100;
pub const STROKE_SHARPNESS: &'static str = "sharp";
pub const TEXT_ALIGN_LEFT: &'static str = "left";
pub const VERTICAL_ALIGN_TOP: &'static str = "top";
pub const NON_LOCKED: bool = false;
/// Roundness type of a rectangle or arrow with round corners.
pub const ROUND_EDGE_TYPE: i32 = 3;
/// Where along the target's outline a binding attaches, in hundredths.
pub const BINDING_FOCUS_PERCENT: i32 = 5;
pub const BINDING_GAP: u16 = 1;
pub const GRID_SIZE: i32 = 20;
pub const VIEW_BACKGROUND_COLOR: &'static str = "#ffffff";
pub const TEXT_BASELINE: i32 = 15;
/// Pixels per character and per line of the small monospaced labels.
pub const CHAR_WIDTH: i32 = 18;
pub const LINE_HEIGHT: i32 = 19;
/// The longest label that a monospaced text element can measure.
pub const MAX_LABEL_LEN: usize = 10000;

/// An arrow's attachment to the element with identifier `element_id`.
pub struct Binding {
    pub element_id: String,
    pub focus_percent: i32,
    pub gap: u16,
}

/// A back-reference from an anchor element to an arrow attached to it.
pub struct BoundElement {
    pub id: String,
    pub element_type: String,
}

impl Clone for BoundElement {
    fn clone(&self) -> (r: Self)
        ensures
            r == *self,
    {
        BoundElement { id: self.id.clone(), element_type: self.element_type.clone() }
    }
}

/// Corner rounding of a rectangle or arrow.
#[derive(PartialEq, Eq, Structural, Clone, Copy, Debug)]
pub struct Roundness {
    pub roundness_type: i32,
}

/// A binding to the element with identifier `element_id`.
pub fn binding(element_id: String) -> (r: Binding)
    ensures
        r.element_id == element_id,
        r.focus_percent == BINDING_FOCUS_PERCENT,
        r.gap == BINDING_GAP,
{
    Binding { element_id, focus_percent: BINDING_FOCUS_PERCENT, gap: BINDING_GAP }
}

/// A back-reference to the arrow with identifier `id`.
pub fn arrow_bounded_element(id: String) -> (r: BoundElement)
    ensures
        r.id == id,
        r.element_type@ == "arrow"@,
{
    BoundElement { id, element_type: String::from_str("arrow") }
}

/// Round corners for the edge style `round`, sharp ones for anything else.
pub fn roundness(edge: String) -> (r: Option<Roundness>)
    ensures
        edge@ == "round"@ ==> r == Some(Roundness { roundness_type: ROUND_EDGE_TYPE }),
        edge@ != "round"@ ==> r is None,
{
    if crate::text::str_eq(edge.as_str(), "round") {
        Some(Roundness { roundness_type: ROUND_EDGE_TYPE })
    } else {
        None
    }
}

/// One shape of the diagram.
pub enum Element {
    Text {
        x: i32,
        y: i32,
        width: i32,
        height: i32,
        group_ids: Vec<String>,
        angle: i32,
        stroke_color: String,
        background_color: String,
        fill_style: String,
        stroke_width: i32,
        stroke_style: String,
        roughness: i32,
        opacity: i32,
        stroke_sharpness: String,
        locked: bool,
        text: String,
        font_size: i32,
        font_family: i32,
        text_align: String,
        vertical_align: String,
        baseline: i32,
    },
    Arrow {
        id: String,
        x: i32,
        y: i32,
        width: i32,
        height: i32,
        angle: i32,
        stroke_color: String,
        background_color: String,
        fill_style: String,
        stroke_width: i32,
        stroke_style: String,
        roundness: Option<Roundness>,
        roughness: i32,
        opacity: i32,
        start_binding: Binding,
        end_binding: Binding,
        stroke_sharpness: String,
        locked: bool,
        points: Vec<[i32; 2]>,
    },
    Rectangle {
        id: String,
        x: i32,
        y: i32,
        width: i32,
        height: i32,
        group_ids: Vec<String>,
        bound_elements: Vec<BoundElement>,
        angle: i32,
        stroke_color: String,
        background_color: String,
        fill_style: String,
        stroke_width: i32,
        stroke_style: String,
        roughness: i32,
        roundness: Option<Roundness>,
        opacity: i32,
        stroke_sharpness: String,
        locked: bool,
    },
    Ellipse {
        id: String,
        x: i32,
        y: i32,
        width: i32,
        height: i32,
        group_ids: Vec<String>,
        bound_elements: Vec<BoundElement>,
        angle: i32,
        stroke_color: String,
        background_color: String,
        fill_style: String,
        stroke_width: i32,
        stroke_style: String,
        roughness: i32,
        opacity: i32,
        stroke_sharpness: String,
        locked: bool,
    },
}

/// The identifiers in a list of back-references.
pub open spec fn bound_ids_of(b: Seq<BoundElement>) -> Seq<Seq<char>> {
    b.map_values(|e: BoundElement| e.id@)
}

impl Element {
    /// The element's identifier; a text has none.
    pub open spec fn id_view(&self) -> Seq<char> {
        match self {
            Element::Text { .. } => Seq::empty(),
            Element::Arrow { id, .. } => id@,
            Element::Rectangle { id, .. } => id@,
            Element::Ellipse { id, .. } => id@,
        }
    }

    /// A rectangle or an ellipse: an element that arrows attach to.
    pub open spec fn is_anchor(&self) -> bool {
        self is Rectangle || self is Ellipse
    }

    /// The identifiers of the arrows that an anchor lists as attached to it.
    pub open spec fn bound_ids(&self) -> Seq<Seq<char>> {
        match self {
            Element::Rectangle { bound_elements, .. } => bound_ids_of(bound_elements@),
            Element::Ellipse { bound_elements, .. } => bound_ids_of(bound_elements@),
            _ => Seq::empty(),
        }
    }

    /// The identifier an arrow's start is bound to.
    pub open spec fn start_ref(&self) -> Seq<char> {
        match self {
            Element::Arrow { start_binding, .. } => start_binding.element_id@,
            _ => Seq::empty(),
        }
    }

    /// The identifier an arrow's end is bound to.
    pub open spec fn end_ref(&self) -> Seq<char> {
        match self {
            Element::Arrow { end_binding, .. } => end_binding.element_id@,
            _ => Seq::empty(),
        }
    }

    #[allow(clippy::too_many_arguments)]
    pub fn text(
        x: i32,
        y: i32,
        width: i32,
        height: i32,
        group_ids: Vec<String>,
        angle: i32,
        stroke_color: String,
        background_color: String,
        fill_style: String,
        stroke_width: i32,
        stroke_style: String,
        opacity: i32,
        stroke_sharpness: String,
        text: String,
        font_size: i32,
        font_family: i32,
        text_align: String,
        vertical_align: String,
    ) -> (r: Self)
        ensures
            r == (Element::Text {
                x,
                y,
                width,
                height,
                group_ids,
                angle,
                stroke_color,
                background_color,
                fill_style,
                stroke_width,
                stroke_style,
                roughness: 0,
                opacity,
                stroke_sharpness,
                locked: NON_LOCKED,
                text,
                font_size,
                font_family,
                text_align,
                vertical_align,
                baseline: TEXT_BASELINE,
            }),
    {
        Element::Text {
            x,
            y,
            width,
            height,
            group_ids,
            angle,
            stroke_color,
            background_color,
            fill_style,
            stroke_width,
            stroke_style,
            roughness: 0,
            opacity,
            stroke_sharpness,
            locked: NON_LOCKED,
            text,
            font_size,
            font_family,
            text_align,
            vertical_align,
            baseline: TEXT_BASELINE,
        }
    }

    #[allow(clippy::too_many_arguments)]
    pub fn arrow(
        id: String,
        x: i32,
        y: i32,
        width: i32,
        height: i32,
        start_binding: Binding,
        end_binding: Binding,
        angle: i32,
        stroke_color: String,
        background_color: String,
        fill_style: String,
        stroke_width: i32,
        stroke_style: String,
        roundness: Option<Roundness>,
        opacity: i32,
        stroke_sharpness: String,
        points: Vec<[i32; 2]>,
    ) -> (r: Self)
        ensures
            r == (Element::Arrow {
                id,
                x,
                y,
                width,
                height,
                angle,
                stroke_color,
                background_color,
                fill_style,
                stroke_width,
                stroke_style,
                roundness,
                roughness: 2,
                opacity,
                start_binding,
                end_binding,
                stroke_sharpness,
                locked: NON_LOCKED,
                points,
            }),
    {
        Element::Arrow {
            id,
            x,
            y,
            width,
            height,
            angle,
            stroke_color,
            background_color,
            fill_style,
            stroke_width,
            stroke_style,
            roundness,
            roughness: 2,
            opacity,
            start_binding,
            end_binding,
            stroke_sharpness,
            locked: NON_LOCKED,
            points,
        }
    }

    #[allow(clippy::too_many_arguments)]
    pub fn rectangle(
        id: String,
        x: i32,
        y: i32,
        width: i32,
        height: i32,
        group_ids: Vec<String>,
        bound_elements: Vec<BoundElement>,
        angle: i32,
        stroke_color: String,
        background_color: String,
        fill_style: String,
        stroke_width: i32,
        stroke_style: String,
        roundness: Option<Roundness>,
        opacity: i32,
        stroke_sharpness: String,
    ) -> (r: Self)
        ensures
            r == (Element::Rectangle {
                id,
                x,
                y,
                width,
                height,
                group_ids,
                bound_elements,
                angle,
                stroke_color,
                background_color,
                fill_style,
                stroke_width,
                stroke_style,
                roughness: 2,
                roundness,
                opacity,
                stroke_sharpness,
                locked: NON_LOCKED,
            }),
    {
        Element::Rectangle {
            id,
            x,
            y,
            width,
            height,
            group_ids,
            bound_elements,
            angle,
            stroke_color,
            background_color,
            fill_style,
            stroke_width,
            stroke_style,
            roughness: 2,
            roundness,
            opacity,
            stroke_sharpness,
            locked: NON_LOCKED,
        }
    }

    #[allow(clippy::too_many_arguments)]
    pub fn ellipse(
        id: String,
        x: i32,
        y: i32,
        width: i32,
        height: i32,
        group_ids: Vec<String>,
        bound_elements: Vec<BoundElement>,
        angle: i32,
        stroke_color: String,
        background_color: String,
        fill_style: String,
        stroke_width: i32,
        stroke_style: String,
        opacity: i32,
        stroke_sharpness: String,
    ) -> (r: Self)
        ensures
            r == (Element::Ellipse {
                id,
                x,
                y,
                width,
                height,
                group_ids,
                bound_elements,
                angle,
                stroke_color,
                background_color,
                fill_style,
                stroke_width,
                stroke_style,
                roughness: 1,
                opacity,
                stroke_sharpness,
                locked: NON_LOCKED,
            }),
    {
        Element::Ellipse {
            id,
            x,
            y,
            width,
            height,
            group_ids,
            bound_elements,
            angle,
            stroke_color,
            background_color,
            fill_style,
            stroke_width,
            stroke_style,
            roughness: 1,
            opacity,
            stroke_sharpness,
            locked: NON_LOCKED,
        }
    }

    /// A port indicator: an ellipse in the default stroke.
    #[allow(clippy::too_many_arguments)]
    pub fn draw_ellipse(
        id: String,
        x: i32,
        y: i32,
        width: i32,
        height: i32,
        group_ids: Vec<String>,
        bound_elements: Vec<BoundElement>,
        background_color: String,
        fill_style: String,
    ) -> (r: Self)
        ensures
            r matches Element::Ellipse {
                id: rid,
                x: rx,
                y: ry,
                width: rw,
                height: rh,
                group_ids: rg,
                bound_elements: rb,
                angle,
                stroke_color,
                background_color: rbg,
                fill_style: rf,
                stroke_width,
                stroke_style,
                roughness,
                opacity,
                stroke_sharpness,
                locked,
            } && rid == id && rx == x && ry == y && rw == width && rh == height && rg == group_ids && rb
                == bound_elements && angle == ANGLE && stroke_color@ == STROKE_COLOR@ && rbg == background_color
                && rf == fill_style && stroke_width == STROKE_WIDTH && stroke_style@ == STROKE_STYLE@
                && roughness == 1 && opacity == OPACITY && stroke_sharpness@ == STROKE_SHARPNESS@ && locked
                == NON_LOCKED,
    {
        Self::ellipse(
            id,
            x,
            y,
            width,
            height,
            group_ids,
            bound_elements,
            ANGLE,
            String::from_str(STROKE_COLOR),
            background_color,
            fill_style,
            STROKE_WIDTH,
            String::from_str(STROKE_STYLE),
            OPACITY,
            String::from_str(STROKE_SHARPNESS),
        )
    }

    /// A left-aligned label sized from its text: 18 pixels per character plus
    /// 4, and 19 pixels per line.
    pub fn draw_small_monospaced_text(
        text: String,
        x: i32,
        y: i32,
        group_ids: Vec<String>,
        font_size: i32,
        font_family: i32,
    ) -> (r: Self)
        requires
            text@.len() <= MAX_LABEL_LEN,
        ensures
            r matches Element::Text {
                x: rx,
                y: ry,
                width,
                height,
                group_ids: rg,
                angle,
                stroke_color,
                background_color,
                fill_style,
                stroke_width,
                stroke_style,
                roughness,
                opacity,
                stroke_sharpness,
                locked,
                text: rt,
                font_size: rfs,
                font_family: rff,
                text_align,
                vertical_align,
                baseline,
            } && rx == x && ry == y && width == 4 + text@.len() * CHAR_WIDTH && height == line_count(text@)
                * LINE_HEIGHT && rg == group_ids && angle == 0 && stroke_color@ == STROKE_COLOR@
                && background_color@ == BACKGROUND_COLOR@ && fill_style@ == FILL_STYLE@ && stroke_width
                == STROKE_WIDTH && stroke_style@ == STROKE_STYLE@ && roughness == 0 && opacity == OPACITY
                && stroke_sharpness@ == STROKE_SHARPNESS@ && locked == NON_LOCKED && rt == text && rfs
                == font_size && rff == font_family && text_align@ == TEXT_ALIGN_LEFT@ && vertical_align@
                == VERTICAL_ALIGN_TOP@ && baseline == TEXT_BASELINE,
    {
        let chars = text.as_str().unicode_len();
        let lines = count_lines(text.as_str());
        proof {
            assert(line_count(text@) <= text@.len()) by {
                lemma_line_count_bound(text@);
            }
        }
        let width = 4 + (chars as i32) * CHAR_WIDTH;
        let height = (lines as i32) * LINE_HEIGHT;
        Self::text(
            x,
            y,
            width,
            height,
            group_ids,
            0,
            String::from_str(STROKE_COLOR),
            String::from_str(BACKGROUND_COLOR),
            String::from_str(FILL_STYLE),
            STROKE_WIDTH,
            String::from_str(STROKE_STYLE),
            OPACITY,
            String::from_str(STROKE_SHARPNESS),
            text,
            font_size,
            font_family,
            String::from_str(TEXT_ALIGN_LEFT),
            String::from_str(VERTICAL_ALIGN_TOP),
        )
    }

    /// An arrow in the default stroke whose corners follow `edge`.
    #[allow(clippy::too_many_arguments)]
    pub fn simple_arrow(
        id: String,
        x: i32,
        y: i32,
        width: i32,
        height: i32,
        stroke_style: String,
        edge: String,
        points: Vec<[i32; 2]>,
        start_binding: Binding,
        end_binding: Binding,
    ) -> (r: Self)
        ensures
            r matches Element::Arrow {
                id: rid,
                x: rx,
                y: ry,
                width: rw,
                height: rh,
                angle,
                stroke_color,
                background_color,
                fill_style,
                stroke_width,
                stroke_style: rs,
                roundness: rr,
                roughness,
                opacity,
                start_binding: rsb,
                end_binding: reb,
                stroke_sharpness,
                locked,
                points: rp,
            } && rid == id && rx == x && ry == y && rw == width && rh == height && angle == ANGLE
                && stroke_color@ == STROKE_COLOR@ && background_color@ == BACKGROUND_COLOR@ && fill_style@
                == FILL_STYLE@ && stroke_width == STROKE_WIDTH && rs == stroke_style && (edge@ == "round"@
                ==> rr == Some(Roundness { roundness_type: ROUND_EDGE_TYPE })) && (edge@ != "round"@
                ==> rr is None) && roughness == 2 && opacity == OPACITY && rsb == start_binding && reb
                == end_binding && stroke_sharpness@ == STROKE_SHARPNESS@ && locked == NON_LOCKED && rp
                == points,
    {
        Self::arrow(
            id,
            x,
            y,
            width,
            height,
            start_binding,
            end_binding,
            ANGLE,
            String::from_str(STROKE_COLOR),
            String::from_str(BACKGROUND_COLOR),
            String::from_str(FILL_STYLE),
            STROKE_WIDTH,
            stroke_style,
            roundness(edge),
            OPACITY,
            String::from_str(STROKE_SHARPNESS),
            points,
        )
    }

    /// A container rectangle in the default stroke whose corners follow `edge`.
    #[allow(clippy::too_many_arguments)]
    pub fn simple_rectangle(
        id: String,
        x: i32,
        y: i32,
        width: i32,
        height: i32,
        group_ids: Vec<String>,
        bound_elements: Vec<BoundElement>,
        background_color: String,
        fill_style: String,
        stroke_style: String,
        edge: String,
    ) -> (r: Self)
        ensures
            r matches Element::Rectangle {
                id: rid,
                x: rx,
                y: ry,
                width: rw,
                height: rh,
                group_ids: rg,
                bound_elements: rb,
                angle,
                stroke_color,
                background_color: rbg,
                fill_style: rf,
                stroke_width,
                stroke_style: rs,
                roughness,
                roundness: rr,
                opacity,
                stroke_sharpness,
                locked,
            } && rid == id && rx == x && ry == y && rw == width && rh == height && rg == group_ids && rb
                == bound_elements && angle == ANGLE && stroke_color@ == STROKE_COLOR@ && rbg == background_color
                && rf == fill_style && stroke_width == STROKE_WIDTH && rs == stroke_style && roughness == 2
                && (edge@ == "round"@ ==> rr == Some(Roundness { roundness_type: ROUND_EDGE_TYPE })) && (
            edge@ != "round"@ ==> rr is None) && opacity == OPACITY && stroke_sharpness@ == STROKE_SHARPNESS@
                && locked == NON_LOCKED,
    {
        Self::rectangle(
            id,
            x,
            y,
            width,
            height,
            group_ids,
            bound_elements,
            ANGLE,
            String::from_str(STROKE_COLOR),
            background_color,
            fill_style,
            STROKE_WIDTH,
            stroke_style,
            roundness(edge),
            OPACITY,
            String::from_str(STROKE_SHARPNESS),
        )
    }
}

proof fn lemma_line_count_bound(s: Seq<char>)
    ensures
        line_count(s) <= s.len(),
    decreases s.len(),
{
    if s.len() > 1 {
        lemma_line_count_bound(s.drop_last());
    }
}

/// The document's display state.
pub struct AppState {
    pub grid_size: i32,
    pub view_background_color: String,
}

impl Default for AppState {
    fn default() -> (r: Self)
        ensures
            r.grid_size == GRID_SIZE,
            r.view_background_color@ == VIEW_BACKGROUND_COLOR@,
    {
        AppState { grid_size: GRID_SIZE, view_background_color: String::from_str(VIEW_BACKGROUND_COLOR) }
    }
}

/// The exported document: format tags, the elements in emission order and the
/// display state. Its auxiliary file map is always empty, so it is not held here.
pub struct ExcalidrawFile {
    pub file_type: String,
    pub version: i32,
    pub source: Option<String>,
    pub elements: Vec<Element>,
    pub app_state: AppState,
}

pub const FILE_TYPE: &'static str = "excalidraw";
pub const FILE_VERSION: i32 = 2;

impl Default for ExcalidrawFile {
    fn default() -> (r: Self)
        ensures
            r.file_type@ == FILE_TYPE@,
            r.version == FILE_VERSION,
            r.source is None,
            r.elements@.len() == 0,
            r.app_state.grid_size == GRID_SIZE,
            r.app_state.view_background_color@ == VIEW_BACKGROUND_COLOR@,
    {
        ExcalidrawFile {
            file_type: String::from_str(FILE_TYPE),
            version: FILE_VERSION,
            source: None,
            elements: Vec::new(),
            app_state: AppState::default(),
        }
    }
}

} // verus!
