//! The layout policy: pure functions from the alignment mode, the running
//! cursor and an element's index to coordinate offsets and arrow polylines.
//!
//! Three modes are known: `horizontal`, `vertical` and `stepped`; any other
//! mode text behaves as `stepped`. Only `vertical` changes the offsets of
//! ports and connectors; the margins tell all three apart.
use vstd::prelude::*;
use crate::text::str_eq;

verus! {

pub const NO_X_MARGIN: i32 = 0;
pub const NO_Y_MARGIN: i32 = 0;
pub const X_MARGIN: i32 = 60;
pub const Y_MARGIN: i32 = 60;
pub const X_ALIGNMENT_FACTOR: i32 = 1;
pub const NO_X_ALIGNMENT_FACTOR: i32 = 0;
pub const Y_ALIGNMENT_FACTOR: i32 = 1;
pub const NO_Y_ALIGNMENT_FACTOR: i32 = 0;

pub const FONT_SIZE_SMALL: i32 = 16;
pub const FONT_SIZE_MEDIUM: i32 = 20;
pub const FONT_SIZE_LARGE: i32 = 28;
pub const FONT_SIZE_EXTRA_LARGE: i32 = 36;

/// A value that an `i32` can hold.
pub open spec fn fits_i32(v: int) -> bool {
    i32::MIN <= v <= i32::MAX
}

pub open spec fn is_horizontal(mode: Seq<char>) -> bool {
    mode == "horizontal"@
}

pub open spec fn is_vertical(mode: Seq<char>) -> bool {
    mode == "vertical"@
}

/// The cursor advance of a mode: (x margin, y margin, x alignment factor,
/// y alignment factor). Horizontal advances x only, vertical y only, and
/// stepped (the fallback) both.
pub open spec fn margins_spec(mode: Seq<char>) -> (i32, i32, i32, i32) {
    if is_horizontal(mode) {
        (X_MARGIN, NO_Y_MARGIN, X_ALIGNMENT_FACTOR, NO_Y_ALIGNMENT_FACTOR)
    } else if is_vertical(mode) {
        (NO_X_MARGIN, Y_MARGIN, NO_X_ALIGNMENT_FACTOR, Y_ALIGNMENT_FACTOR)
    } else {
        (X_MARGIN, Y_MARGIN, X_ALIGNMENT_FACTOR, NO_Y_ALIGNMENT_FACTOR)
    }
}

/// The margins and alignment factors of an alignment mode.
pub fn margins(alignment_mode: &str) -> (r: (i32, i32, i32, i32))
    ensures
        r == margins_spec(alignment_mode@),
{
    if str_eq(alignment_mode, "horizontal") {
        (X_MARGIN, NO_Y_MARGIN, X_ALIGNMENT_FACTOR, NO_Y_ALIGNMENT_FACTOR)
    } else if str_eq(alignment_mode, "vertical") {
        (NO_X_MARGIN, Y_MARGIN, NO_X_ALIGNMENT_FACTOR, Y_ALIGNMENT_FACTOR)
    } else {
        (X_MARGIN, Y_MARGIN, X_ALIGNMENT_FACTOR, NO_Y_ALIGNMENT_FACTOR)
    }
}

/// How much of a container's own size is added to the cursor after it.
pub fn get_alignment_factor_xy(
    alignment_mode: &str,
    x_alignment_factor: i32,
    y_alignment_factor: i32,
    container_width: i32,
    scale: i32,
) -> (r: (i32, i32))
    requires
        fits_i32(x_alignment_factor * container_width),
        fits_i32(y_alignment_factor * 2),
        fits_i32(y_alignment_factor * 2 * scale),
        fits_i32(y_alignment_factor * scale),
    ensures
        r.0 == x_alignment_factor * container_width,
        is_vertical(alignment_mode@) ==> r.1 == y_alignment_factor * 2 * scale,
        !is_vertical(alignment_mode@) ==> r.1 == y_alignment_factor * scale,
{
    let x = x_alignment_factor * container_width;
    if str_eq(alignment_mode, "vertical") {
        (x, y_alignment_factor * 2 * scale)
    } else {
        (x, y_alignment_factor * scale)
    }
}

/// Offset of the container-side port label from the container's origin.
pub fn get_container_port_text_xy(alignment_mode: &str, height: &i32, width: &i32, i: i32) -> (r: (
    i32,
    i32,
))
    requires
        *height >= 0,
        fits_i32(*width + 20),
        fits_i32(i * 40),
        fits_i32(*height / 2 + i * 40),
        fits_i32(*height / 2 + i * 40 - 35),
        fits_i32(i * 80),
        fits_i32(20 + i * 80),
    ensures
        is_vertical(alignment_mode@) ==> r == ((*width + 20) as i32, (*height / 2 + i * 40 - 35) as i32),
        !is_vertical(alignment_mode@) ==> r == ((20 + i * 80) as i32, 80i32),
{
    if str_eq(alignment_mode, "vertical") {
        (*width + 20, *height / 2 + (i * 40) - 35)
    } else {
        (20 + i * 80, 80)
    }
}

/// Polyline of the arrow from a container to its `i`-th port.
pub fn get_host_port_arrow_points(alignment_mode: &str, i: i32) -> (r: Vec<[i32; 2]>)
    requires
        fits_i32(i + 100),
        fits_i32(i * 80),
        fits_i32(i * 80 - 35),
    ensures
        r@.len() == 2,
        r@[0]@ == seq![0i32, 0i32],
        is_vertical(alignment_mode@) ==> r@[1]@ == seq![(i + 100) as i32, (i * 80 - 35) as i32],
        !is_vertical(alignment_mode@) ==> r@[1]@ == seq![(i * 80 - 35) as i32, (i + 100) as i32],
{
    if str_eq(alignment_mode, "vertical") {
        vec![[0, 0], [i + 100, i * 80 - 35]]
    } else {
        vec![[0, 0], [i * 80 - 35, i + 100]]
    }
}

/// Offset of a port arrow's start from the container's origin.
pub fn get_host_port_arrow_xy(alignment_mode: &str, height: &i32, width: &i32, container_width: &i32) -> (r: (
    i32,
    i32,
))
    requires
        *height >= 0,
        *width >= 0,
    ensures
        is_vertical(alignment_mode@) ==> r == (*container_width, (*height / 2) as i32),
        !is_vertical(alignment_mode@) ==> r == ((*width / 2) as i32, *height),
{
    if str_eq(alignment_mode, "vertical") {
        (*container_width, *height / 2)
    } else {
        (*width / 2, *height)
    }
}

/// Offset of the `i`-th port of a container from the container's origin.
pub fn get_container_xy(alignment_mode: &str, width: &i32, scale: &i32, i: i32) -> (r: (i32, i32))
    requires
        fits_i32(*width + *scale * 5),
        fits_i32(*scale * 5),
        fits_i32(i * 80),
        fits_i32(i * 80 - 35),
        fits_i32(*scale * 8),
    ensures
        is_vertical(alignment_mode@) ==> r == ((*width + *scale * 5) as i32, (i * 80 - 35) as i32),
        !is_vertical(alignment_mode@) ==> r == ((i * 80) as i32, (*scale * 8) as i32),
{
    if str_eq(alignment_mode, "vertical") {
        (*width + *scale * 5, i * 80 - 35)
    } else {
        (i * 80, *scale * 8)
    }
}

/// Offset of a dependency connector's start from the child's origin.
pub fn get_connecting_arrow_xy(alignment_mode: &str, interation_margin: i32) -> (r: (i32, i32))
    requires
        interation_margin >= 0,
    ensures
        is_vertical(alignment_mode@) ==> r == (0i32, (interation_margin / 2) as i32),
        !is_vertical(alignment_mode@) ==> r == (interation_margin, 0i32),
{
    if str_eq(alignment_mode, "vertical") {
        (0, interation_margin / 2)
    } else {
        (interation_margin, 0)
    }
}

/// The x of the vertical segment of a non-vertical connector, relative to the child.
pub open spec fn connector_lane_x(x: int, x_parent: int, width: int, margin: int) -> int {
    -x + x_parent + width - margin * 2
}

/// The four points of the connector from a child at (`x`, `y`) to its `i`-th
/// parent (in fan-out order) at (`x_parent`, `y_parent`).
pub open spec fn connecting_arrow_points_spec(
    mode: Seq<char>,
    x: int,
    y: int,
    x_parent: int,
    y_parent: int,
    height: int,
    width: int,
    margin: int,
    scale: int,
    level_height: int,
    i: int,
) -> Seq<(int, int)> {
    if is_vertical(mode) {
        seq![
            (0, 0),
            (-2 * (i + 1) * scale, 0),
            (-2 * (i + 1) * scale, level_height + scale),
            (-1, level_height + scale),
        ]
    } else {
        seq![
            (0, 0),
            (0, level_height - height),
            (connector_lane_x(x, x_parent, width, margin), level_height - height),
            (connector_lane_x(x, x_parent, width, margin), y_parent - y),
        ]
    }
}

/// A polyline as integer pairs.
pub open spec fn points_view(p: Seq<[i32; 2]>) -> Seq<(int, int)> {
    p.map_values(|q: [i32; 2]| (q@[0] as int, q@[1] as int))
}

/// Every coordinate of a connector polyline fits in an `i32`.
pub open spec fn connector_fits(s: Seq<(int, int)>) -> bool {
    forall|k: int| 0 <= k < s.len() ==> fits_i32(#[trigger] s[k].0) && fits_i32(s[k].1)
}

/// The polyline of a dependency connector.
#[allow(clippy::too_many_arguments)]
pub fn get_connecting_arrow_points(
    alignment_mode: &str,
    x: &i32,
    y: &i32,
    x_parent: &i32,
    y_parent: &i32,
    height: &i32,
    width: &i32,
    interation_x_margin: &i32,
    scale: &i32,
    level_height: i32,
    i: i32,
) -> (r: Vec<[i32; 2]>)
    requires
        fits_i32(-(*x as int)),
        fits_i32(-(*x as int) + *x_parent),
        fits_i32(-(*x as int) + *x_parent + *width),
        fits_i32(*interation_x_margin * 2),
        fits_i32(2 * (i + 1)),
        fits_i32(-2 * (i + 1)),
        fits_i32(i + 1),
        fits_i32(-2 * (i + 1) * *scale),
        fits_i32(*y_parent - *y),
        fits_i32(level_height - *height),
        fits_i32(level_height + *scale),
        fits_i32(connector_lane_x(*x as int, *x_parent as int, *width as int, *interation_x_margin as int)),
    ensures
        points_view(r@) == connecting_arrow_points_spec(
            alignment_mode@,
            *x as int,
            *y as int,
            *x_parent as int,
            *y_parent as int,
            *height as int,
            *width as int,
            *interation_x_margin as int,
            *scale as int,
            level_height as int,
            i as int,
        ),
{
    let r = if str_eq(alignment_mode, "vertical") {
        let lane: i32 = -2 * (i + 1) * *scale;
        let bottom: i32 = level_height + *scale;
        let back: i32 = -1;
        vec![[0, 0], [lane, 0], [lane, bottom], [back, bottom]]
    } else {
        let lane: i32 = -*x + *x_parent + *width - *interation_x_margin * 2;
        let level: i32 = level_height - *height;
        let rise: i32 = *y_parent - *y;
        vec![[0, 0], [0, level], [lane, level], [lane, rise]]
    };
    assert(points_view(r@) =~= connecting_arrow_points_spec(
        alignment_mode@,
        *x as int,
        *y as int,
        *x_parent as int,
        *y_parent as int,
        *height as int,
        *width as int,
        *interation_x_margin as int,
        *scale as int,
        level_height as int,
        i as int,
    ));
    r
}

/// The (longest name that fits, characters per grid cell) of a font size tier.
pub open spec fn width_tier(font_size: int) -> (int, int) {
    if font_size == FONT_SIZE_SMALL {
        (14, 3)
    } else if font_size == FONT_SIZE_MEDIUM {
        (9, 2)
    } else if font_size == FONT_SIZE_LARGE {
        (5, 1)
    } else if font_size == FONT_SIZE_EXTRA_LARGE {
        (2, 1)
    } else {
        (1, 1)
    }
}

/// Grid cells a name of `len` characters needs beyond the default container width.
pub open spec fn extra_cells(len: int, font_size: int) -> int {
    let (max_len, per_cell) = width_tier(font_size);
    if len > max_len {
        len / per_cell - 5 + 3
    } else {
        0
    }
}

/// Extra container width for a name of `len` characters.
pub open spec fn additional_width_spec(len: int, scale: int, font_size: int) -> int {
    scale * extra_cells(len, font_size)
}

/// Extra width a container needs so that its name fits, in pixels: zero for a
/// name no longer than the font tier allows, else `scale` times the grid
/// cells the name needs beyond the default.
pub fn find_additional_width(container_name: &str, scale: &i32, font_size: &i32) -> (r: i32)
    requires
        fits_i32(additional_width_spec(container_name@.len() as int, *scale as int, *font_size as int)),
    ensures
        r == additional_width_spec(container_name@.len() as int, *scale as int, *font_size as int),
{
    let len = container_name.unicode_len();
    let (max_len, per_cell): (usize, usize) = if *font_size == FONT_SIZE_SMALL {
        (14, 3)
    } else if *font_size == FONT_SIZE_MEDIUM {
        (9, 2)
    } else if *font_size == FONT_SIZE_LARGE {
        (5, 1)
    } else if *font_size == FONT_SIZE_EXTRA_LARGE {
        (2, 1)
    } else {
        (1, 1)
    };
    if len > max_len {
        let cells = len / per_cell;
        // the threshold keeps `cells` at 2 or more, so the subtraction cannot go below zero
        assert(cells >= 2);
        let extra: u64 = (cells - 2) as u64;
        proof {
            let e = extra_cells(len as int, *font_size as int);
            assert(e == extra as int);
            assert(fits_i32(*scale * e));
        }
        if *scale == 0 || extra == 0 {
            assert(*scale * extra == 0) by (nonlinear_arith)
                requires *scale == 0 || extra == 0;
            return 0;
        }
        proof {
            assert(extra <= 0x8000_0000) by (nonlinear_arith)
                requires fits_i32(*scale * extra), *scale != 0, extra >= 1;
        }
        let product: i64 = (*scale as i64) * (extra as i64);
        product as i32
    } else {
        0
    }
}

/// Law: a name no longer than its tier allows adds no width, and one character
/// more adds a positive multiple of the grid scale. Stated for the four font
/// tiers; the fallback tier allows one character, and at two it adds nothing.
pub proof fn lemma_width_threshold(font_size: int, scale: int)
    requires
        font_size == FONT_SIZE_SMALL || font_size == FONT_SIZE_MEDIUM || font_size == FONT_SIZE_LARGE
            || font_size == FONT_SIZE_EXTRA_LARGE,
        scale > 0,
    ensures
        forall|len: int| 0 <= len <= width_tier(font_size).0 ==> additional_width_spec(len, scale, font_size) == 0,
        additional_width_spec(width_tier(font_size).0 + 1, scale, font_size) > 0,
        additional_width_spec(width_tier(font_size).0 + 1, scale, font_size) % scale == 0,
{
    let len = width_tier(font_size).0 + 1;
    let cells = extra_cells(len, font_size);
    assert(cells > 0);
    assert(scale * cells > 0) by (nonlinear_arith)
        requires scale > 0, cells > 0;
    assert((scale * cells) % scale == 0) by (nonlinear_arith)
        requires scale > 0;
}

} // verus!
