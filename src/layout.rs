//! The element graph builder: places the services in dependency order, emits
//! each service's ports with the arrows that tie them to the container, draws
//! one connector per dependency, and finally emits each container rectangle
//! with every arrow that attaches to it.
use vstd::prelude::*;
use vstd::seq_lib::{to_multiset_build, to_multiset_insert, to_multiset_contains};
use crate::elements::{
    Element, BoundElement, ExcalidrawFile, bound_ids_of, binding, arrow_bounded_element, MAX_LABEL_LEN,
    STROKE_STYLE, CONNECTION_STYLE, GRID_SIZE,
};
use crate::config::ExcalidrawConfig;
use crate::geometry::{
    is_vertical, margins, margins_spec, get_alignment_factor_xy, get_container_port_text_xy,
    get_host_port_arrow_points, get_host_port_arrow_xy, get_container_xy, get_connecting_arrow_xy,
    get_connecting_arrow_points, find_additional_width, additional_width_spec, extra_cells, points_view,
    connecting_arrow_points_spec,
};
use crate::ports::{extract_host_container_ports, port_labels};
use crate::text::{concat, decimal, str_eq};

verus! {

/// Default size of a container rectangle and of a port indicator.
pub const CONTAINER_WIDTH: i32 = 140;
pub const CONTAINER_HEIGHT: i32 = 60;
pub const PORT_DIAMETER: i32 = 60;
/// Extent of a port arrow's bounding box.
pub const PORT_ARROW_WIDTH: i32 = 200;
pub const PORT_ARROW_HEIGHT: i32 = 100;
/// Offset of a host port label inside its port indicator.
pub const PORT_TEXT_DX: i32 = 15;
pub const PORT_TEXT_DY: i32 = 20;

/// Sizes up to which every coordinate of a layout fits in an `i32`.
pub const MAX_SERVICES: usize = 1000;
pub const MAX_NAME_LEN: usize = 1000;
pub const MAX_PORTS: usize = 1000;
pub const MAX_DEPENDENCIES: usize = 1000;

/// A service as the layout reads it: its identifier, its name, its port
/// mappings and the names of the services it depends on.
pub struct ServiceNode {
    pub id: String,
    pub name: String,
    pub ports: Vec<String>,
    pub depends_on: Vec<String>,
}

/// A container rectangle between its placement and its emission. The arrows
/// bound to it are collected beside it, since connectors to it are only met
/// while later services are processed.
pub struct RectangleStruct {
    pub id: String,
    pub container_name: String,
    pub x: i32,
    pub y: i32,
    pub width: i32,
    pub height: i32,
    pub group_ids: Vec<String>,
    pub text_group_ids: Vec<String>,
}

/// Whether the port mapping's two labels differ, so that both are drawn.
pub open spec fn labels_differ(p: Seq<char>) -> bool {
    port_labels(p).0 != port_labels(p).1
}

/// Elements drawn for a list of ports: an indicator, a host label and an arrow
/// each, and a container label where the two labels differ.
pub open spec fn port_element_count(ports: Seq<String>) -> nat
    decreases ports.len(),
{
    if ports.len() == 0 {
        0
    } else {
        port_element_count(ports.drop_last()) + if labels_differ(ports.last()@) {
            4nat
        } else {
            3nat
        }
    }
}

/// Port elements of the first `k` services in `order`.
pub open spec fn placed_element_count(s: Seq<ServiceNode>, order: Seq<usize>, k: int) -> nat
    decreases k,
{
    if k <= 0 {
        0
    } else {
        placed_element_count(s, order, k - 1) + port_element_count(s[order[k - 1] as int].ports@)
    }
}

/// Dependencies declared by the first `u` services.
pub open spec fn dependency_count(s: Seq<ServiceNode>, u: int) -> nat
    decreases u,
{
    if u <= 0 {
        0
    } else {
        dependency_count(s, u - 1) + s[u - 1].depends_on@.len()
    }
}

/// Identifiers drawn while placing the first `k` services in `order`: one
/// group per service and two per port.
pub open spec fn placement_id_count(s: Seq<ServiceNode>, order: Seq<usize>, k: int) -> nat
    decreases k,
{
    if k <= 0 {
        0
    } else {
        placement_id_count(s, order, k - 1) + 1 + 2 * s[order[k - 1] as int].ports@.len()
    }
}

/// The number of elements of a diagram: the port elements, one connector per
/// dependency when connectors are shown, and a rectangle and a label per service.
pub open spec fn element_count(s: Seq<ServiceNode>, order: Seq<usize>, shown: bool) -> nat {
    placed_element_count(s, order, s.len() as int) + (if shown {
        dependency_count(s, s.len() as int)
    } else {
        0
    }) + 2 * s.len()
}

/// The number of random identifiers a diagram draws.
pub open spec fn id_count(s: Seq<ServiceNode>, order: Seq<usize>, shown: bool) -> nat {
    placement_id_count(s, order, s.len() as int) + if shown {
        dependency_count(s, s.len() as int)
    } else {
        0
    }
}

/// Width of the container of a service called `name`.
pub open spec fn container_width(name: Seq<char>, font_size: int) -> int {
    CONTAINER_WIDTH + additional_width_spec(name.len() as int, GRID_SIZE as int, font_size)
}

/// How far the cursor moves past a container of width `w`.
pub open spec fn cursor_step(mode: Seq<char>, w: int) -> (int, int) {
    let m = margins_spec(mode);
    (m.0 + m.2 * w, m.1 + if is_vertical(mode) {
        m.3 * 2 * GRID_SIZE
    } else {
        m.3 * GRID_SIZE
    })
}

/// The position of the `k`-th placed service.
pub open spec fn cursor(s: Seq<ServiceNode>, order: Seq<usize>, mode: Seq<char>, font_size: int, k: int) -> (int, int)
    decreases k,
{
    if k <= 0 {
        (0, 0)
    } else {
        let prev = cursor(s, order, mode, font_size, k - 1);
        let step = cursor_step(mode, container_width(s[order[k - 1] as int].name@, font_size));
        (prev.0 + step.0, prev.1 + step.1)
    }
}

/// A service list that the layout can draw: names are distinct, every
/// dependency names a service, and sizes stay within the coordinate range.
pub open spec fn model_wf(s: Seq<ServiceNode>) -> bool {
    &&& s.len() <= MAX_SERVICES
    &&& forall|u: int, v: int| 0 <= u < s.len() && 0 <= v < s.len() && u != v ==> s[u].name@ != s[v].name@
    &&& forall|u: int|
        0 <= u < s.len() ==> {
            &&& (#[trigger] s[u]).name@.len() <= MAX_NAME_LEN
            &&& s[u].ports@.len() <= MAX_PORTS
            &&& s[u].depends_on@.len() <= MAX_DEPENDENCIES
            &&& forall|k: int| 0 <= k < s[u].ports@.len() ==> (#[trigger] s[u].ports@[k])@.len() <= MAX_LABEL_LEN
            &&& forall|k: int|
                0 <= k < s[u].depends_on@.len() ==> exists|p: int|
                    0 <= p < s.len() && s[p].name@ == (#[trigger] s[u].depends_on@[k])@
        }
}

/// `order` lists each service position exactly once.
pub open spec fn is_permutation(order: Seq<usize>, n: int) -> bool {
    &&& order.len() == n
    &&& order.no_duplicates()
    &&& forall|i: int| 0 <= i < order.len() ==> #[trigger] order[i] < n
    &&& forall|v: int| 0 <= v < n ==> #[trigger] order.contains(v as usize)
}

/// Some anchor in `e` has identifier `target` and lists `arrow`.
pub open spec fn listed_by(e: Seq<Element>, target: Seq<char>, arrow: Seq<char>) -> bool {
    exists|j: int|
        0 <= j < e.len() && (#[trigger] e[j]).is_anchor() && e[j].id_view() == target && e[j].bound_ids().contains(
            arrow,
        )
}

/// Some arrow in `e` has identifier `id`.
pub open spec fn has_arrow(e: Seq<Element>, id: Seq<char>) -> bool {
    exists|i: int| 0 <= i < e.len() && (#[trigger] e[i]) is Arrow && e[i].id_view() == id
}

/// Arrows and anchors agree: both ends of every arrow are bound to an anchor
/// that lists the arrow, and every arrow an anchor lists is present.
pub open spec fn bindings_consistent(e: Seq<Element>) -> bool {
    &&& forall|i: int|
        0 <= i < e.len() && (#[trigger] e[i]) is Arrow ==> listed_by(e, e[i].start_ref(), e[i].id_view())
            && listed_by(e, e[i].end_ref(), e[i].id_view())
    &&& forall|j: int, m: int|
        0 <= j < e.len() && 0 <= m < e[j].bound_ids().len() ==> has_arrow(e, #[trigger] e[j].bound_ids()[m])
}

/// A pending rectangle with identifier `target` lists `arrow`.
pub open spec fn pending_lists(ids: Seq<Seq<char>>, bounds: Seq<Seq<Seq<char>>>, target: Seq<char>, arrow: Seq<char>) -> bool {
    exists|k: int| 0 <= k < ids.len() && k < bounds.len() && ids[k] == target && (#[trigger] bounds[k]).contains(arrow)
}

/// The consistency of `bindings_consistent`, while some rectangles are still
/// pending with identifiers `ids` and bound lists `bounds`.
pub open spec fn pending_consistent(e: Seq<Element>, ids: Seq<Seq<char>>, bounds: Seq<Seq<Seq<char>>>) -> bool {
    &&& ids.len() == bounds.len()
    &&& forall|i: int|
        0 <= i < e.len() && (#[trigger] e[i]) is Arrow ==> (listed_by(e, e[i].start_ref(), e[i].id_view())
            || pending_lists(ids, bounds, e[i].start_ref(), e[i].id_view())) && (listed_by(
            e,
            e[i].end_ref(),
            e[i].id_view(),
        ) || pending_lists(ids, bounds, e[i].end_ref(), e[i].id_view()))
    &&& forall|j: int, m: int|
        0 <= j < e.len() && 0 <= m < e[j].bound_ids().len() ==> has_arrow(e, #[trigger] e[j].bound_ids()[m])
    &&& forall|k: int, m: int|
        0 <= k < bounds.len() && 0 <= m < bounds[k].len() ==> has_arrow(e, #[trigger] bounds[k][m])
}

pub open spec fn rect_ids(r: Seq<RectangleStruct>) -> Seq<Seq<char>> {
    r.map_values(|x: RectangleStruct| x.id@)
}

pub open spec fn bound_views(b: Seq<Vec<BoundElement>>) -> Seq<Seq<Seq<char>>> {
    b.map_values(|v: Vec<BoundElement>| bound_ids_of(v@))
}

/// The parent entries sorted by descending x.
pub fn sort_parents(points: Vec<(i32, usize)>) -> (r: Vec<(i32, usize)>)
    ensures
        r@.len() == points@.len(),
        r@.to_multiset() == points@.to_multiset(),
        forall|a: int, b: int| 0 <= a < b < r@.len() ==> r@[a].0 >= r@[b].0,
{
    let mut r: Vec<(i32, usize)> = Vec::new();
    let n = points.len();
    assert(points@.subrange(0, 0) =~= Seq::<(i32, usize)>::empty());
    assert(r@ =~= Seq::<(i32, usize)>::empty());
    let mut i: usize = 0;
    while i < n
        invariant
            n == points@.len(),
            i <= n,
            r@.len() == i,
            r@.to_multiset() == points@.subrange(0, i as int).to_multiset(),
            forall|a: int, b: int| 0 <= a < b < r@.len() ==> r@[a].0 >= r@[b].0,
        decreases n - i,
    {
        let e = points[i];
        let mut j: usize = 0;
        while j < r.len() && r[j].0 >= e.0
            invariant
                j <= r@.len(),
                forall|a: int| 0 <= a < j ==> r@[a].0 >= e.0,
            decreases r@.len() - j,
        {
            j = j + 1;
        }
        let ghost before = r@;
        r.insert(j, e);
        proof {
            assert(points@.subrange(0, i as int + 1) =~= points@.subrange(0, i as int).push(e));
            to_multiset_build(points@.subrange(0, i as int), e);
            to_multiset_insert(before, j as int, e);
            assert(r@ =~= before.insert(j as int, e));
            assert forall|a: int, b: int| 0 <= a < b < r@.len() implies r@[a].0 >= r@[b].0 by {
                if b < j {
                } else if b == j {
                    assert(r@[a] == before[a]);
                } else if a == j {
                    assert(r@[b] == before[b - 1]);
                    assert(before[j as int].0 < e.0);
                    if b - 1 > j {
                        assert(before[j as int].0 >= before[b - 1].0);
                    }
                } else if a < j {
                    assert(r@[a] == before[a] && r@[b] == before[b - 1]);
                } else {
                    assert(r@[a] == before[a - 1] && r@[b] == before[b - 1]);
                }
            }
        }
        i = i + 1;
    }
    assert(points@.subrange(0, n as int) =~= points@);
    r
}

/// Appending elements and growing pending bound lists keeps the bindings
/// consistent, when the new arrows are bound to listing anchors, the new
/// anchors list present arrows, and the new bound entries name present arrows.
proof fn lemma_pending_extend(
    e: Seq<Element>,
    x: Seq<Element>,
    ids: Seq<Seq<char>>,
    b: Seq<Seq<Seq<char>>>,
    b2: Seq<Seq<Seq<char>>>,
)
    requires
        pending_consistent(e, ids, b),
        b2.len() == b.len(),
        forall|k: int, m: int| 0 <= k < b.len() && 0 <= m < b[k].len() ==> b2[k].contains(#[trigger] b[k][m]),
        forall|i: int|
            0 <= i < x.len() && (#[trigger] x[i]) is Arrow ==> (listed_by(e + x, x[i].start_ref(), x[i].id_view())
                || pending_lists(ids, b2, x[i].start_ref(), x[i].id_view())) && (listed_by(
                e + x,
                x[i].end_ref(),
                x[i].id_view(),
            ) || pending_lists(ids, b2, x[i].end_ref(), x[i].id_view())),
        forall|j: int, m: int|
            0 <= j < x.len() && 0 <= m < x[j].bound_ids().len() ==> has_arrow(e + x, #[trigger] x[j].bound_ids()[m]),
        forall|k: int, m: int|
            0 <= k < b2.len() && 0 <= m < b2[k].len() ==> b[k].contains(#[trigger] b2[k][m]) || has_arrow(
                e + x,
                b2[k][m],
            ),
    ensures
        pending_consistent(e + x, ids, b2),
{
    let ex = e + x;
    assert forall|t: Seq<char>, a: Seq<char>| listed_by(e, t, a) implies listed_by(ex, t, a) by {
        let j = choose|j: int|
            0 <= j < e.len() && (#[trigger] e[j]).is_anchor() && e[j].id_view() == t && e[j].bound_ids().contains(a);
        assert(ex[j] == e[j]);
    }
    assert forall|t: Seq<char>, a: Seq<char>| pending_lists(ids, b, t, a) implies pending_lists(ids, b2, t, a) by {
        let k = choose|k: int| 0 <= k < ids.len() && k < b.len() && ids[k] == t && (#[trigger] b[k]).contains(a);
        let m = choose|m: int| 0 <= m < b[k].len() && b[k][m] == a;
        assert(b2[k].contains(b[k][m]));
    }
    assert forall|a: Seq<char>| has_arrow(e, a) implies has_arrow(ex, a) by {
        let i = choose|i: int| 0 <= i < e.len() && (#[trigger] e[i]) is Arrow && e[i].id_view() == a;
        assert(ex[i] == e[i]);
    }
    assert forall|i: int| 0 <= i < ex.len() && (#[trigger] ex[i]) is Arrow implies (listed_by(
        ex,
        ex[i].start_ref(),
        ex[i].id_view(),
    ) || pending_lists(ids, b2, ex[i].start_ref(), ex[i].id_view())) && (listed_by(
        ex,
        ex[i].end_ref(),
        ex[i].id_view(),
    ) || pending_lists(ids, b2, ex[i].end_ref(), ex[i].id_view())) by {
        if i < e.len() {
            assert(ex[i] == e[i]);
        } else {
            assert(ex[i] == x[i - e.len()]);
        }
    }
    assert forall|j: int, m: int| 0 <= j < ex.len() && 0 <= m < ex[j].bound_ids().len() implies has_arrow(
        ex,
        #[trigger] ex[j].bound_ids()[m],
    ) by {
        if j < e.len() {
            assert(ex[j] == e[j]);
        } else {
            assert(ex[j] == x[j - e.len()]);
        }
    }
    assert forall|k: int, m: int| 0 <= k < b2.len() && 0 <= m < b2[k].len() implies has_arrow(ex, #[trigger] b2[k][m]) by {
        if b[k].contains(b2[k][m]) {
            let mm = choose|mm: int| 0 <= mm < b[k].len() && b[k][mm] == b2[k][m];
            assert(has_arrow(e, b[k][mm]));
        }
    }
}

/// The extra cells of a name are at most its length.
proof fn lemma_extra_cells_bound(len: int, font_size: int)
    requires
        0 <= len,
    ensures
        0 <= extra_cells(len, font_size) <= len,
{
}

/// Every cursor coordinate stays between zero and a bound that fits an `i32`.
proof fn lemma_cursor_bounds(s: Seq<ServiceNode>, order: Seq<usize>, mode: Seq<char>, font_size: int, k: int)
    requires
        model_wf(s),
        is_permutation(order, s.len() as int),
        0 <= k <= s.len(),
    ensures
        0 <= cursor(s, order, mode, font_size, k).0 <= 20200 * k,
        0 <= cursor(s, order, mode, font_size, k).1 <= 100 * k,
    decreases k,
{
    if k > 0 {
        lemma_cursor_bounds(s, order, mode, font_size, k - 1);
        let name = s[order[k - 1] as int].name@;
        assert(s[order[k - 1] as int].name@.len() <= MAX_NAME_LEN);
        lemma_extra_cells_bound(name.len() as int, font_size);
        let w = container_width(name, font_size);
        assert(140 <= w <= 20140);
        let m = margins_spec(mode);
        assert(0 <= m.0 <= 60 && 0 <= m.1 <= 60 && 0 <= m.2 <= 1 && 0 <= m.3 <= 1);
        assert(0 <= m.2 * w <= w) by (nonlinear_arith)
            requires 0 <= m.2 <= 1, 0 <= w;
        let step = cursor_step(mode, w);
        assert(0 <= step.0 <= 20200);
        assert(0 <= step.1 <= 100);
    }
}

/// The text `group_<name>_hostport_<i>_text` of a port's group.
pub open spec fn port_group_text(name: Seq<char>, i: nat) -> Seq<char> {
    "group_"@ + name + "_hostport_"@ + crate::text::decimal_view(i) + "_text"@
}

/// Where the indicator of the `i`-th port of a container at (`x`, `y`) of
/// width `cw` stands: to the right in a column when vertical, else below in a row.
pub open spec fn port_origin(mode: Seq<char>, x: int, y: int, cw: int, i: int) -> (int, int) {
    if is_vertical(mode) {
        (x + cw + 5 * GRID_SIZE, y + i * 80 - 35)
    } else {
        (x + i * 80, y + 8 * GRID_SIZE)
    }
}

/// Where a port arrow of a container at (`x`, `y`) of width `cw` starts.
pub open spec fn port_arrow_origin(mode: Seq<char>, x: int, y: int, cw: int) -> (int, int) {
    if is_vertical(mode) {
        (x + cw, y + CONTAINER_HEIGHT / 2)
    } else {
        (x + CONTAINER_WIDTH / 2, y + CONTAINER_HEIGHT)
    }
}

/// Where the container-side label of the `i`-th port of a container at (`x`, `y`) stands.
pub open spec fn container_label_origin(mode: Seq<char>, x: int, y: int, i: int) -> (int, int) {
    if is_vertical(mode) {
        (x + CONTAINER_WIDTH + 20, y + CONTAINER_HEIGHT / 2 + i * 40 - 35)
    } else {
        (x + 20 + i * 80, y + 80)
    }
}

/// The elements of the `i`-th port of a service placed at (`x`, `y`): the
/// container-side label when the labels differ, the port indicator, the
/// host-side label, and the arrow from the container to the indicator,
/// followed by the arrow's identifier.
#[allow(clippy::too_many_arguments)]
pub fn port_elements(
    svc_name: &String,
    port: &String,
    i: usize,
    rect_id: &String,
    x: i32,
    y: i32,
    container_width: i32,
    container_group: &Vec<String>,
    config: &ExcalidrawConfig,
    ellipse_key: &String,
    arrow_key: &String,
) -> (r: (Option<Element>, Element, Element, Element, String))
    requires
        0 <= x <= 20_200_000,
        0 <= y <= 100_000,
        140 <= container_width <= 20140,
        i < MAX_PORTS,
        port@.len() <= MAX_LABEL_LEN,
    ensures
        r.0 is Some <==> labels_differ(port@),
        r.0 matches Some(t) ==> t is Text,
        r.1 is Ellipse,
        r.1.bound_ids() == seq![r.4@],
        r.1.id_view() == r.3.end_ref(),
        r.2 is Text,
        r.3 is Arrow,
        r.3.id_view() == r.4@,
        r.3.start_ref() == rect_id@,
        r.1.id_view() == "ellipse_"@ + ellipse_key@,
        r.4@ == "port_arrow_"@ + arrow_key@,
        port_drawn(
            port_group(r),
            0,
            config.alignment.mode@,
            x as int,
            y as int,
            container_width as int,
            rect_id@,
            port@,
            i as int,
        ),
{
    let scale: i32 = GRID_SIZE;
    let height: i32 = CONTAINER_HEIGHT;
    let width: i32 = CONTAINER_WIDTH;
    let mode = config.alignment.mode.as_str();
    let idx: i32 = i as i32;
    let (cax, cay) = get_container_xy(mode, &container_width, &scale, idx);
    let cx = x + cax;
    let cy = y + cay;
    let (host_port, container_port) = extract_host_container_ports(port.as_str());
    let group_text = concat(
        concat(concat(concat("group_", svc_name.as_str()).as_str(), "_hostport_").as_str(), decimal(i as u64).as_str()).as_str(),
        "_text",
    );
    let mut ellipse_port_group: Vec<String> = Vec::new();
    ellipse_port_group.push(group_text);
    let ellipse_id = concat("ellipse_", ellipse_key.as_str());
    let arrow_id = concat("port_arrow_", arrow_key.as_str());
    let mut ellipse_bound: Vec<BoundElement> = Vec::new();
    ellipse_bound.push(arrow_bounded_element(arrow_id.clone()));
    proof {
        assert(bound_ids_of(ellipse_bound@) =~= seq![arrow_id@]);
    }
    let host_port_ellipse = Element::draw_ellipse(
        ellipse_id.clone(),
        cx,
        cy,
        PORT_DIAMETER,
        PORT_DIAMETER,
        ellipse_port_group.clone(),
        ellipse_bound,
        config.ports.background_color.clone(),
        config.ports.fill.clone(),
    );
    let host_port_text = Element::draw_small_monospaced_text(
        host_port.clone(),
        cx + PORT_TEXT_DX,
        cy + PORT_TEXT_DY,
        ellipse_port_group,
        config.font.size,
        config.font.family,
    );
    let (ax, ay) = get_host_port_arrow_xy(mode, &height, &width, &container_width);
    let host_port_arrow = Element::simple_arrow(
        arrow_id.clone(),
        x + ax,
        y + ay,
        PORT_ARROW_WIDTH,
        PORT_ARROW_HEIGHT,
        String::from_str(STROKE_STYLE),
        String::from_str("sharp"),
        get_host_port_arrow_points(mode, idx),
        binding(rect_id.clone()),
        binding(ellipse_id),
    );
    let container_port_text = if !str_eq(host_port.as_str(), container_port.as_str()) {
        let (tx, ty) = get_container_port_text_xy(mode, &height, &width, idx);
        Some(
            Element::draw_small_monospaced_text(
                container_port,
                x + tx,
                y + ty,
                container_group.clone(),
                config.font.size,
                config.font.family,
            ),
        )
    } else {
        None
    };
    let r = (container_port_text, host_port_ellipse, host_port_text, host_port_arrow, arrow_id);
    proof {
        reveal(port_drawn);
        let g = port_group(r);
        let off: int = if r.0 is Some {
            1
        } else {
            0
        };
        assert(g[off] == r.1 && g[off + 1] == r.2 && g[off + 2] == r.3);
    }
    r
}

/// Appending one port's elements, and its arrow to the pending bound list of
/// the last rectangle, keeps the bindings consistent.
proof fn lemma_port_step(
    e0: Seq<Element>,
    added: Seq<Element>,
    rids: Seq<Seq<char>>,
    bs: Seq<Seq<Seq<char>>>,
    old_bound: Seq<Seq<char>>,
    aid: Seq<char>,
)
    requires
        pending_consistent(e0, rids, bs.push(old_bound)),
        rids.len() == bs.len() + 1,
        added.len() >= 3,
        forall|j: int| 0 <= j < added.len() - 3 ==> (#[trigger] added[j]) is Text,
        added[added.len() - 3] is Ellipse,
        added[added.len() - 3].bound_ids() == seq![aid],
        added[added.len() - 3].id_view() == added[added.len() - 1].end_ref(),
        added[added.len() - 2] is Text,
        added[added.len() - 1] is Arrow,
        added[added.len() - 1].id_view() == aid,
        added[added.len() - 1].start_ref() == rids.last(),
    ensures
        pending_consistent(e0 + added, rids, bs.push(old_bound.push(aid))),
{
    let ex = e0 + added;
    let b_old = bs.push(old_bound);
    let b_new = bs.push(old_bound.push(aid));
    let ai = ex.len() - 1;
    let ei = ex.len() - 3;
    assert(ex[ai] == added[added.len() - 1]);
    assert(ex[ei] == added[added.len() - 3]);
    assert(ex[ei].bound_ids()[0] == aid);
    assert(listed_by(ex, ex[ai].end_ref(), ex[ai].id_view()));
    assert(has_arrow(ex, aid));
    let last = bs.len() as int;
    assert(b_new[last][b_new[last].len() - 1] == aid);
    assert(pending_lists(rids, b_new, ex[ai].start_ref(), ex[ai].id_view()));
    assert forall|j: int| 0 <= j < added.len() && (#[trigger] added[j]) is Arrow implies j == added.len() - 1 by {}
    assert forall|j: int, m: int|
        0 <= j < added.len() && 0 <= m < added[j].bound_ids().len() implies has_arrow(
        e0 + added,
        #[trigger] added[j].bound_ids()[m],
    ) by {
        if j != added.len() - 3 {
            assert(added[j].bound_ids().len() == 0);
        }
    }
    assert forall|k: int, m: int| 0 <= k < b_old.len() && 0 <= m < b_old[k].len() implies b_new[k].contains(
        #[trigger] b_old[k][m],
    ) by {
        if k == last {
            assert(b_new[k][m] == b_old[k][m]);
        } else {
            assert(b_new[k] == b_old[k]);
        }
    }
    assert forall|k: int, m: int| 0 <= k < b_new.len() && 0 <= m < b_new[k].len() implies b_old[k].contains(
        #[trigger] b_new[k][m],
    ) || has_arrow(e0 + added, b_new[k][m]) by {
        if k == last && m == b_new[k].len() - 1 {
        } else if k == last {
            assert(b_old[k][m] == b_new[k][m]);
        } else {
            assert(b_old[k] == b_new[k]);
            assert(b_old[k][m] == b_new[k][m]);
        }
    }
    lemma_pending_extend(e0, added, rids, b_old, b_new);
}

/// How many elements a port takes: four when its labels differ, else three.
pub open spec fn port_span(port: Seq<char>) -> int {
    if labels_differ(port) {
        4
    } else {
        3
    }
}

/// From `start` on, `e` holds the elements of the `i`-th port of the service
/// `svc_id` placed at (`x`, `y`) with width `cw`: the container-side label
/// when the labels differ, the indicator, the host-side label, and the arrow
/// from the container to the indicator, which the indicator lists.
#[verifier::opaque]
pub open spec fn port_drawn(
    e: Seq<Element>,
    start: int,
    mode: Seq<char>,
    x: int,
    y: int,
    cw: int,
    svc_id: Seq<char>,
    port: Seq<char>,
    i: int,
) -> bool {
    let off: int = if labels_differ(port) {
        1
    } else {
        0
    };
    let c = port_origin(mode, x, y, cw, i);
    let a = port_arrow_origin(mode, x, y, cw);
    let l = container_label_origin(mode, x, y, i);
    &&& 0 <= start
    &&& start + port_span(port) <= e.len()
    &&& labels_differ(port) ==> (e[start] matches Element::Text { x: tx, y: ty, text, .. } && tx == l.0 && ty == l.1
        && text@ == port_labels(port).1)
    &&& e[start + off] matches Element::Ellipse { x: ex, y: ey, width: ew, height: eh, .. } && ex == c.0 && ey == c.1
        && ew == PORT_DIAMETER && eh == PORT_DIAMETER
    &&& e[start + off + 1] matches Element::Text { x: tx, y: ty, text, .. } && tx == c.0 + PORT_TEXT_DX && ty == c.1
        + PORT_TEXT_DY && text@ == port_labels(port).0
    &&& e[start + off + 2] matches Element::Arrow { x: ax, y: ay, width: aw, height: ah, .. } && ax == a.0 && ay == a.1
        && aw == PORT_ARROW_WIDTH && ah == PORT_ARROW_HEIGHT
    &&& e[start + off + 2].start_ref() == svc_id
    &&& e[start + off + 2].end_ref() == e[start + off].id_view()
    &&& e[start + off].bound_ids() == seq![e[start + off + 2].id_view()]
}

/// Where the elements of port `j` start, relative to the service's first port element.
#[verifier::opaque]
pub open spec fn ports_before(ports: Seq<String>, j: int) -> nat {
    port_element_count(ports.subrange(0, j))
}

proof fn lemma_ports_before(ports: Seq<String>, j: int)
    ensures
        ports_before(ports, j) == port_element_count(ports.subrange(0, j)),
{
    reveal(ports_before);
}

/// The elements of a port in the order they are drawn.
pub open spec fn port_group(r: (Option<Element>, Element, Element, Element, String)) -> Seq<Element> {
    match r.0 {
        Some(t) => seq![t, r.1, r.2, r.3],
        None => seq![r.1, r.2, r.3],
    }
}

/// Elements drawn for a port stay drawn after other elements are put before them.
proof fn lemma_port_drawn_shift(
    e0: Seq<Element>,
    added: Seq<Element>,
    mode: Seq<char>,
    x: int,
    y: int,
    cw: int,
    svc_id: Seq<char>,
    port: Seq<char>,
    i: int,
)
    requires
        port_drawn(added, 0, mode, x, y, cw, svc_id, port, i),
    ensures
        port_drawn(e0 + added, e0.len() as int, mode, x, y, cw, svc_id, port, i),
{
    reveal(port_drawn);
    let ex = e0 + added;
    let s = e0.len() as int;
    assert forall|j: int| 0 <= j < added.len() implies ex[s + j] == added[j] by {}
    assert(ex[s] == added[0]);
    assert(ex[s + 1] == added[1]);
    assert(ex[s + 2] == added[2]);
    if added.len() > 3 {
        assert(ex[s + 3] == added[3]);
    }
}

/// Elements drawn for a port stay drawn when later elements are appended.
proof fn lemma_port_drawn_stable(
    e: Seq<Element>,
    e2: Seq<Element>,
    start: int,
    mode: Seq<char>,
    x: int,
    y: int,
    cw: int,
    svc_id: Seq<char>,
    port: Seq<char>,
    i: int,
)
    requires
        port_drawn(e, start, mode, x, y, cw, svc_id, port, i),
        e.len() <= e2.len(),
        e2.subrange(0, e.len() as int) == e,
    ensures
        port_drawn(e2, start, mode, x, y, cw, svc_id, port, i),
{
    reveal(port_drawn);
    let off: int = if labels_differ(port) {
        1
    } else {
        0
    };
    assert forall|j: int| 0 <= j < e.len() implies e2[j] == e[j] by {
        assert(e2.subrange(0, e.len() as int)[j] == e2[j]);
    }
    assert(e2[start + off] == e[start + off]);
    assert(e2[start + off + 1] == e[start + off + 1]);
    assert(e2[start + off + 2] == e[start + off + 2]);
    assert(e2[start] == e[start]);
}

/// The ports drawn so far stay drawn, and with the next one all ports up to
/// it are drawn.
proof fn lemma_ports_drawn_extend(
    e0: Seq<Element>,
    ex: Seq<Element>,
    base: int,
    ports: Seq<String>,
    i: int,
    mode: Seq<char>,
    x: int,
    y: int,
    cw: int,
    svc_id: Seq<char>,
)
    requires
        0 <= i < ports.len(),
        e0.len() <= ex.len(),
        ex.subrange(0, e0.len() as int) == e0,
        forall|j: int|
            0 <= j < i ==> port_drawn(
                e0,
                base + ports_before(ports, j),
                mode,
                x,
                y,
                cw,
                svc_id,
                (#[trigger] ports[j])@,
                j,
            ),
        port_drawn(ex, base + ports_before(ports, i), mode, x, y, cw, svc_id, ports[i]@, i),
    ensures
        forall|j: int|
            0 <= j < i + 1 ==> port_drawn(
                ex,
                base + ports_before(ports, j),
                mode,
                x,
                y,
                cw,
                svc_id,
                (#[trigger] ports[j])@,
                j,
            ),
{
    assert forall|j: int| 0 <= j < i + 1 implies port_drawn(
        ex,
        base + ports_before(ports, j),
        mode,
        x,
        y,
        cw,
        svc_id,
        (#[trigger] ports[j])@,
        j,
    ) by {
        if j < i {
            lemma_port_drawn_stable(
                e0,
                ex,
                base + ports_before(ports, j),
                mode,
                x,
                y,
                cw,
                svc_id,
                ports[j]@,
                j,
            );
        }
    }
}

/// Port elements of the first ports grow by each port's span.
proof fn lemma_port_count_step(ports: Seq<String>, i: int)
    requires
        0 <= i < ports.len(),
    ensures
        port_element_count(ports.subrange(0, i + 1)) == port_element_count(ports.subrange(0, i)) + port_span(ports[i]@),
{
    assert(ports.subrange(0, i + 1).drop_last() =~= ports.subrange(0, i));
}

proof fn lemma_port_count_monotone(ports: Seq<String>, a: int, b: int)
    requires
        0 <= a <= b <= ports.len(),
    ensures
        port_element_count(ports.subrange(0, a)) <= port_element_count(ports.subrange(0, b)),
    decreases b - a,
{
    if a < b {
        lemma_port_count_monotone(ports, a, b - 1);
        lemma_port_count_step(ports, b - 1);
    }
}

/// Emits the elements of each port of one service placed at (`x`, `y`), and
/// returns the bound list of the service's rectangle: one port arrow per port.
#[verifier::rlimit(80)]
#[allow(clippy::too_many_arguments)]
fn emit_ports(
    svc: &ServiceNode,
    rect_id: &String,
    x: i32,
    y: i32,
    container_width: i32,
    container_group: &Vec<String>,
    config: &ExcalidrawConfig,
    ids: &Vec<String>,
    next: usize,
    elements: &mut Vec<Element>,
    Ghost(rids): Ghost<Seq<Seq<char>>>,
    Ghost(bs): Ghost<Seq<Seq<Seq<char>>>>,
) -> (bound: Vec<BoundElement>)
    requires
        0 <= x <= 20_200_000,
        0 <= y <= 100_000,
        140 <= container_width <= 20140,
        svc.ports@.len() <= MAX_PORTS,
        forall|k: int| 0 <= k < svc.ports@.len() ==> (#[trigger] svc.ports@[k])@.len() <= MAX_LABEL_LEN,
        next + 2 * svc.ports@.len() <= ids@.len(),
        rids.len() == bs.len() + 1,
        rids.last() == rect_id@,
        pending_consistent(old(elements)@, rids, bs.push(Seq::empty())),
    ensures
        final(elements)@.len() == old(elements)@.len() + port_element_count(svc.ports@),
        final(elements)@.subrange(0, old(elements)@.len() as int) == old(elements)@,
        bound@.len() == svc.ports@.len(),
        pending_consistent(final(elements)@, rids, bs.push(bound_ids_of(bound@))),
        forall|i: int|
            0 <= i < svc.ports@.len() ==> port_drawn(
                final(elements)@,
                old(elements)@.len() as int + ports_before(svc.ports@, i),
                config.alignment.mode@,
                x as int,
                y as int,
                container_width as int,
                rect_id@,
                (#[trigger] svc.ports@[i])@,
                i,
            ),
{
    let total_ids = ids.len();
    let mut bound: Vec<BoundElement> = Vec::new();
    let n = svc.ports.len();
    let mut i: usize = 0;
    assert(svc.ports@.subrange(0, 0) =~= Seq::<String>::empty());
    assert(bound_ids_of(bound@) =~= Seq::<Seq<char>>::empty());
    while i < n
        invariant
            n == svc.ports@.len(),
            n <= MAX_PORTS,
            i <= n,
            0 <= x <= 20_200_000,
            0 <= y <= 100_000,
            140 <= container_width <= 20140,
            forall|k: int| 0 <= k < svc.ports@.len() ==> (#[trigger] svc.ports@[k])@.len() <= MAX_LABEL_LEN,
            total_ids == ids@.len(),
            next + 2 * n <= total_ids,
            rids.len() == bs.len() + 1,
            rids.last() == rect_id@,
            bound@.len() == i,
            elements@.len() == old(elements)@.len() + port_element_count(svc.ports@.subrange(0, i as int)),
            elements@.subrange(0, old(elements)@.len() as int) == old(elements)@,
            pending_consistent(elements@, rids, bs.push(bound_ids_of(bound@))),
            forall|j: int|
                0 <= j < i ==> port_drawn(
                    elements@,
                    old(elements)@.len() as int + ports_before(svc.ports@, j),
                    config.alignment.mode@,
                    x as int,
                    y as int,
                    container_width as int,
                    rect_id@,
                    (#[trigger] svc.ports@[j])@,
                    j,
                ),
        decreases n - i,
    {
        proof {
            assert(svc.ports@[i as int]@.len() <= MAX_LABEL_LEN);
        }
        let group = port_elements(
            &svc.name,
            &svc.ports[i],
            i,
            rect_id,
            x,
            y,
            container_width,
            container_group,
            config,
            &ids[next + 2 * i],
            &ids[next + 2 * i + 1],
        );
        let ghost g = group;
        let (container_text, ellipse, host_text, arrow, arrow_id) = group;
        let ghost old_bound = bound@;
        let ghost e0 = elements@;
        let ghost differ = container_text is Some;
        bound.push(arrow_bounded_element(arrow_id));
        match container_text {
            Some(t) => elements.push(t),
            None => {},
        }
        elements.push(ellipse);
        elements.push(host_text);
        elements.push(arrow);
        proof {
            let ex = elements@;
            let added = ex.subrange(e0.len() as int, ex.len() as int);
            assert(ex =~= e0 + added);
            assert(bound_ids_of(bound@) =~= bound_ids_of(old_bound).push(ex[ex.len() - 1].id_view()));
            lemma_port_step(e0, added, rids, bs, bound_ids_of(old_bound), ex[ex.len() - 1].id_view());
            let pre = svc.ports@.subrange(0, i as int + 1);
            assert(pre.drop_last() =~= svc.ports@.subrange(0, i as int));
            assert(pre.last() == svc.ports@[i as int]);
            assert(ex.subrange(0, e0.len() as int) =~= e0);
            assert(ex.subrange(0, old(elements)@.len() as int) =~= old(elements)@) by {
                assert(e0.subrange(0, old(elements)@.len() as int) == old(elements)@);
            }
            assert(added =~= port_group(g));
            lemma_port_count_step(svc.ports@, i as int);
            lemma_ports_before(svc.ports@, i as int);
            lemma_port_drawn_shift(
                e0,
                added,
                config.alignment.mode@,
                x as int,
                y as int,
                container_width as int,
                rect_id@,
                svc.ports@[i as int]@,
                i as int,
            );
            lemma_ports_drawn_extend(
                e0,
                ex,
                old(elements)@.len() as int,
                svc.ports@,
                i as int,
                config.alignment.mode@,
                x as int,
                y as int,
                container_width as int,
                rect_id@,
            );
        }
        i = i + 1;
    }
    assert(svc.ports@.subrange(0, n as int) =~= svc.ports@);
    bound
}

/// Every port of the `k`-th service in `order` is drawn where its elements start.
#[verifier::opaque]
pub open spec fn service_ports_drawn(
    e: Seq<Element>,
    s: Seq<ServiceNode>,
    order: Seq<usize>,
    mode: Seq<char>,
    font_size: int,
    k: int,
) -> bool {
    let svc = s[order[k] as int];
    let c = cursor(s, order, mode, font_size, k);
    forall|i: int|
        0 <= i < svc.ports@.len() ==> port_drawn(
            e,
            placed_element_count(s, order, k) as int + ports_before(svc.ports@, i),
            mode,
            c.0,
            c.1,
            container_width(svc.name@, font_size),
            svc.id@,
            (#[trigger] svc.ports@[i])@,
            i,
        )
}

proof fn lemma_service_ports_new(
    e: Seq<Element>,
    s: Seq<ServiceNode>,
    order: Seq<usize>,
    mode: Seq<char>,
    font_size: int,
    k: int,
    base: int,
)
    requires
        base == placed_element_count(s, order, k),
        forall|i: int|
            0 <= i < s[order[k] as int].ports@.len() ==> port_drawn(
                e,
                base + ports_before(s[order[k] as int].ports@, i),
                mode,
                cursor(s, order, mode, font_size, k).0,
                cursor(s, order, mode, font_size, k).1,
                container_width(s[order[k] as int].name@, font_size),
                s[order[k] as int].id@,
                (#[trigger] s[order[k] as int].ports@[i])@,
                i,
            ),
    ensures
        service_ports_drawn(e, s, order, mode, font_size, k),
{
    reveal(service_ports_drawn);
}

/// The ports drawn for the first `count` services stay drawn when elements
/// are appended.
proof fn lemma_service_ports_stable(
    e: Seq<Element>,
    e2: Seq<Element>,
    s: Seq<ServiceNode>,
    order: Seq<usize>,
    mode: Seq<char>,
    font_size: int,
    count: int,
)
    requires
        e.len() <= e2.len(),
        e2.subrange(0, e.len() as int) == e,
        forall|k: int| 0 <= k < count ==> #[trigger] service_ports_drawn(e, s, order, mode, font_size, k),
    ensures
        forall|k: int| 0 <= k < count ==> #[trigger] service_ports_drawn(e2, s, order, mode, font_size, k),
{
    reveal(service_ports_drawn);
    assert forall|k: int| 0 <= k < count implies #[trigger] service_ports_drawn(e2, s, order, mode, font_size, k) by {
        assert(service_ports_drawn(e, s, order, mode, font_size, k));
        let svc = s[order[k] as int];
        let c = cursor(s, order, mode, font_size, k);
        assert forall|i: int| 0 <= i < svc.ports@.len() implies port_drawn(
            e2,
            placed_element_count(s, order, k) as int + ports_before(svc.ports@, i),
            mode,
            c.0,
            c.1,
            container_width(svc.name@, font_size),
            svc.id@,
            (#[trigger] svc.ports@[i])@,
            i,
        ) by {
            lemma_port_drawn_stable(
                e,
                e2,
                placed_element_count(s, order, k) as int + ports_before(svc.ports@, i),
                mode,
                c.0,
                c.1,
                container_width(svc.name@, font_size),
                svc.id@,
                svc.ports@[i]@,
                i,
            );
        }
    }
}

/// A new pending rectangle with an empty bound list keeps the bindings consistent.
proof fn lemma_pending_new_rect(e: Seq<Element>, ids: Seq<Seq<char>>, b: Seq<Seq<Seq<char>>>, id: Seq<char>)
    requires
        pending_consistent(e, ids, b),
    ensures
        pending_consistent(e, ids.push(id), b.push(Seq::empty())),
{
    let ids2 = ids.push(id);
    let b2 = b.push(Seq::<Seq<char>>::empty());
    assert forall|t: Seq<char>, a: Seq<char>| pending_lists(ids, b, t, a) implies pending_lists(ids2, b2, t, a) by {
        let k = choose|k: int| 0 <= k < ids.len() && k < b.len() && ids[k] == t && (#[trigger] b[k]).contains(a);
        assert(ids2[k] == ids[k] && b2[k] == b[k]);
    }
    assert forall|k: int, m: int| 0 <= k < b2.len() && 0 <= m < b2[k].len() implies has_arrow(e, #[trigger] b2[k][m]) by {
        assert(b2[k] == b[k]);
    }
}

/// Identifiers drawn for a prefix of the order never exceed those of a longer one.
proof fn lemma_placement_ids_monotone(s: Seq<ServiceNode>, order: Seq<usize>, a: int, b: int)
    requires
        0 <= a <= b,
    ensures
        placement_id_count(s, order, a) <= placement_id_count(s, order, b),
    decreases b - a,
{
    if a < b {
        lemma_placement_ids_monotone(s, order, a, b - 1);
    }
}

/// The services placed in `order`: their port elements, and their pending
/// rectangles (in placement order) with the bound list of each.
pub struct Placement {
    pub elements: Vec<Element>,
    pub rects: Vec<RectangleStruct>,
    pub bounds: Vec<Vec<BoundElement>>,
    pub used_ids: usize,
}

/// The position and shape that the `k`-th pending rectangle must have.
pub open spec fn rect_placed(s: Seq<ServiceNode>, order: Seq<usize>, mode: Seq<char>, font_size: int, r: RectangleStruct, k: int) -> bool {
    let svc = s[order[k] as int];
    &&& r.id@ == svc.id@
    &&& r.container_name@ == svc.name@
    &&& r.x == cursor(s, order, mode, font_size, k).0
    &&& r.y == cursor(s, order, mode, font_size, k).1
    &&& r.width == container_width(svc.name@, font_size)
    &&& r.height == CONTAINER_HEIGHT
}

/// Places the services one after another in `order`, advancing the cursor by
/// the alignment mode's margins, and emits the elements of their ports.
fn place_services(s: &Vec<ServiceNode>, order: &Vec<usize>, config: &ExcalidrawConfig, ids: &Vec<String>) -> (r: Placement)
    requires
        model_wf(s@),
        is_permutation(order@, s@.len() as int),
        ids@.len() >= placement_id_count(s@, order@, s@.len() as int),
    ensures
        r.elements@.len() == placed_element_count(s@, order@, s@.len() as int),
        r.rects@.len() == s@.len(),
        r.bounds@.len() == s@.len(),
        forall|k: int|
            0 <= k < s@.len() ==> rect_placed(
                s@,
                order@,
                config.alignment.mode@,
                config.font.size as int,
                #[trigger] r.rects@[k],
                k,
            ),
        forall|k: int| 0 <= k < s@.len() ==> (#[trigger] r.bounds@[k])@.len() == s@[order@[k] as int].ports@.len(),
        pending_consistent(r.elements@, rect_ids(r.rects@), bound_views(r.bounds@)),
        r.used_ids == placement_id_count(s@, order@, s@.len() as int),
        forall|k: int|
            0 <= k < s@.len() ==> #[trigger] service_ports_drawn(
                r.elements@,
                s@,
                order@,
                config.alignment.mode@,
                config.font.size as int,
                k,
            ),
{
    let n = s.len();
    let total_ids = ids.len();
    let scale: i32 = GRID_SIZE;
    let mode = config.alignment.mode.as_str();
    let (x_margin, y_margin, x_alignment_factor, y_alignment_factor) = margins(mode);
    let mut x: i32 = 0;
    let mut y: i32 = 0;
    let mut next: usize = 0;
    let mut elements: Vec<Element> = Vec::new();
    let mut rects: Vec<RectangleStruct> = Vec::new();
    let mut bounds: Vec<Vec<BoundElement>> = Vec::new();
    proof {
        assert(rect_ids(rects@) =~= Seq::<Seq<char>>::empty());
        assert(bound_views(bounds@) =~= Seq::<Seq<Seq<char>>>::empty());
    }
    let mut k: usize = 0;
    while k < n
        invariant
            n == s@.len(),
            model_wf(s@),
            is_permutation(order@, n as int),
            total_ids == ids@.len(),
            total_ids >= placement_id_count(s@, order@, n as int),
            k <= n,
            scale == GRID_SIZE,
            mode@ == config.alignment.mode@,
            (x_margin, y_margin, x_alignment_factor, y_alignment_factor) == margins_spec(mode@),
            x == cursor(s@, order@, mode@, config.font.size as int, k as int).0,
            y == cursor(s@, order@, mode@, config.font.size as int, k as int).1,
            next == placement_id_count(s@, order@, k as int),
            elements@.len() == placed_element_count(s@, order@, k as int),
            rects@.len() == k,
            bounds@.len() == k,
            forall|j: int|
                0 <= j < k ==> rect_placed(s@, order@, mode@, config.font.size as int, #[trigger] rects@[j], j),
            forall|j: int| 0 <= j < k ==> (#[trigger] bounds@[j])@.len() == s@[order@[j] as int].ports@.len(),
            pending_consistent(elements@, rect_ids(rects@), bound_views(bounds@)),
            forall|j: int|
                0 <= j < k ==> #[trigger] service_ports_drawn(elements@, s@, order@, mode@, config.font.size as int, j),
        decreases n - k,
    {
        let u = order[k];
        let svc = &s[u];
        proof {
            lemma_cursor_bounds(s@, order@, mode@, config.font.size as int, k as int);
            lemma_extra_cells_bound(svc.name@.len() as int, config.font.size as int);
            lemma_placement_ids_monotone(s@, order@, k as int + 1, n as int);
            assert(s@[u as int] == *svc);
        }
        let container_width = CONTAINER_WIDTH + find_additional_width(svc.name.as_str(), &scale, &config.font.size);
        let mut container_group: Vec<String> = Vec::new();
        container_group.push(concat("container_group_", ids[next].as_str()));
        let rect = RectangleStruct {
            id: svc.id.clone(),
            container_name: svc.name.clone(),
            x,
            y,
            width: container_width,
            height: CONTAINER_HEIGHT,
            group_ids: container_group.clone(),
            text_group_ids: container_group.clone(),
        };
        let ghost old_rects = rects@;
        let ghost old_bounds = bounds@;
        rects.push(rect);
        proof {
            lemma_pending_new_rect(elements@, rect_ids(old_rects), bound_views(old_bounds), svc.id@);
            assert(rect_ids(rects@) =~= rect_ids(old_rects).push(svc.id@));
        }
        let ghost e_before = elements@;
        let bound = emit_ports(
            svc,
            &svc.id,
            x,
            y,
            container_width,
            &container_group,
            config,
            ids,
            next + 1,
            &mut elements,
            Ghost(rect_ids(rects@)),
            Ghost(bound_views(old_bounds)),
        );
        bounds.push(bound);
        proof {
            lemma_service_ports_stable(e_before, elements@, s@, order@, mode@, config.font.size as int, k as int);
            lemma_service_ports_new(
                elements@,
                s@,
                order@,
                mode@,
                config.font.size as int,
                k as int,
                e_before.len() as int,
            );
            assert(bound_views(bounds@) =~= bound_views(old_bounds).push(bound_ids_of(bound@)));
            assert forall|j: int| 0 <= j < k + 1 implies rect_placed(
                s@,
                order@,
                mode@,
                config.font.size as int,
                #[trigger] rects@[j],
                j,
            ) by {
                if j < k {
                    assert(rects@[j] == old_rects[j]);
                }
            }
            assert forall|j: int| 0 <= j < k + 1 implies (#[trigger] bounds@[j])@.len() == s@[order@[j] as int].ports@.len() by {
                if j < k {
                    assert(bounds@[j] == old_bounds[j]);
                }
            }
        }
        next = next + 1 + 2 * svc.ports.len();
        let (x_alignment, y_alignment) = get_alignment_factor_xy(
            mode,
            x_alignment_factor,
            y_alignment_factor,
            container_width,
            scale,
        );
        x = x + x_margin + x_alignment;
        y = y + y_margin + y_alignment;
        k = k + 1;
    }
    Placement { elements, rects, bounds, used_ids: next }
}

/// Service `u` lists service `p` among its dependencies.
pub open spec fn service_depends(s: Seq<ServiceNode>, u: int, p: int) -> bool {
    &&& 0 <= u < s.len()
    &&& 0 <= p < s.len()
    &&& exists|k: int| 0 <= k < s[u].depends_on@.len() && #[trigger] s[u].depends_on@[k]@ == s[p].name@
}

/// `e` is a connector from service `u` to its dependency `p`: its start is
/// bound to `u`'s identifier and its end to `p`'s.
pub open spec fn connects(s: Seq<ServiceNode>, e: Element, u: int, p: int) -> bool {
    &&& e is Arrow
    &&& service_depends(s, u, p)
    &&& e.start_ref() == s[u].id@
    &&& e.end_ref() == s[p].id@
}

/// `slot[u]` is the position of service `u` in `order`.
pub open spec fn is_inverse(order: Seq<usize>, slot: Seq<usize>) -> bool {
    &&& slot.len() == order.len()
    &&& forall|u: int| 0 <= u < slot.len() ==> #[trigger] slot[u] < order.len() && order[slot[u] as int] == u
}

/// The position of each service in `order`.
fn inverse(order: &Vec<usize>) -> (slot: Vec<usize>)
    requires
        is_permutation(order@, order@.len() as int),
    ensures
        is_inverse(order@, slot@),
{
    let n = order.len();
    let mut slot: Vec<usize> = Vec::new();
    let mut i: usize = 0;
    while i < n
        invariant
            i <= n,
            slot@.len() == i,
        decreases n - i,
    {
        slot.push(0);
        i = i + 1;
    }
    let mut k: usize = 0;
    while k < n
        invariant
            n == order@.len(),
            is_permutation(order@, n as int),
            slot@.len() == n,
            k <= n,
            forall|j: int| 0 <= j < k ==> slot@[order@[j] as int] == j,
        decreases n - k,
    {
        let ghost before = slot@;
        slot.set(order[k], k);
        proof {
            assert forall|j: int| 0 <= j < k + 1 implies slot@[order@[j] as int] == j by {
                if j < k {
                    assert(order@[j] != order@[k as int]);
                    assert(slot@[order@[j] as int] == before[order@[j] as int]);
                }
            }
        }
        k = k + 1;
    }
    proof {
        assert forall|u: int| 0 <= u < slot@.len() implies #[trigger] slot@[u] < order@.len() && order@[slot@[u] as int] == u by {
            assert(order@.contains(u as usize));
            let j = choose|j: int| 0 <= j < order@.len() && order@[j] == u as usize;
            assert(slot@[order@[j] as int] == j);
        }
    }
    slot
}

/// The position of the service called `name`.
fn service_index(s: &Vec<ServiceNode>, name: &String) -> (r: Option<usize>)
    ensures
        r matches Some(i) ==> i < s@.len() && s@[i as int].name@ == name@,
        r is None ==> forall|i: int| 0 <= i < s@.len() ==> s@[i].name@ != name@,
{
    let n = s.len();
    let mut i: usize = 0;
    while i < n
        invariant
            n == s@.len(),
            i <= n,
            forall|j: int| 0 <= j < i ==> s@[j].name@ != name@,
        decreases n - i,
    {
        if str_eq(s[i].name.as_str(), name.as_str()) {
            return Some(i);
        }
        i = i + 1;
    }
    None
}

/// Adds the arrow `b` to the `k`-th pending bound list.
fn push_bound(bounds: &mut Vec<Vec<BoundElement>>, k: usize, b: BoundElement)
    requires
        k < old(bounds)@.len(),
    ensures
        final(bounds)@.len() == old(bounds)@.len(),
        bound_views(final(bounds)@) == bound_views(old(bounds)@).update(
            k as int,
            bound_views(old(bounds)@)[k as int].push(b.id@),
        ),
{
    let mut v = bounds.remove(k);
    let ghost mid = bounds@;
    v.push(b);
    bounds.insert(k, v);
    proof {
        assert(bound_ids_of(v@) =~= bound_ids_of(old(bounds)@[k as int]@).push(b.id@));
        assert(bound_views(bounds@) =~= bound_views(old(bounds)@).update(
            k as int,
            bound_views(old(bounds)@)[k as int].push(b.id@),
        )) by {
            assert forall|j: int| 0 <= j < bounds@.len() implies #[trigger] bounds@[j] == if j == k {
                v
            } else {
                old(bounds)@[j]
            } by {
                if j < k {
                    assert(bounds@[j] == mid[j]);
                } else if j > k {
                    assert(bounds@[j] == mid[j - 1]);
                }
            }
        }
    }
}

/// The bound lists after adding `a` to lists `kp` and then `ku`.
pub open spec fn with_connector(b: Seq<Seq<Seq<char>>>, kp: int, ku: int, a: Seq<char>) -> Seq<Seq<Seq<char>>> {
    let b1 = b.update(kp, b[kp].push(a));
    b1.update(ku, b1[ku].push(a))
}

proof fn lemma_connector_step(
    e: Seq<Element>,
    arrow: Element,
    ids: Seq<Seq<char>>,
    b: Seq<Seq<Seq<char>>>,
    kp: int,
    ku: int,
)
    requires
        pending_consistent(e, ids, b),
        0 <= kp < b.len(),
        0 <= ku < b.len(),
        arrow is Arrow,
        arrow.start_ref() == ids[ku],
        arrow.end_ref() == ids[kp],
    ensures
        pending_consistent(e.push(arrow), ids, with_connector(b, kp, ku, arrow.id_view())),
        with_connector(b, kp, ku, arrow.id_view())[kp].contains(arrow.id_view()),
        with_connector(b, kp, ku, arrow.id_view())[ku].contains(arrow.id_view()),
        forall|k: int, a: Seq<char>|
            0 <= k < b.len() && #[trigger] b[k].contains(a) ==> with_connector(b, kp, ku, arrow.id_view())[k].contains(a),
{
    let a = arrow.id_view();
    let b1 = b.update(kp, b[kp].push(a));
    let b2 = with_connector(b, kp, ku, a);
    let x = seq![arrow];
    assert(e.push(arrow) =~= e + x);
    assert forall|k: int, m: int| 0 <= k < b.len() && 0 <= m < b[k].len() implies b2[k].contains(#[trigger] b[k][m]) by {
        assert(b1[k].contains(b[k][m])) by {
            if k == kp {
                assert(b1[k][m] == b[k][m]);
            }
        }
        let mm = choose|mm: int| 0 <= mm < b1[k].len() && b1[k][mm] == b[k][m];
        if k == ku {
            assert(b2[k][mm] == b1[k][mm]);
        }
    }
    assert forall|k: int, ar: Seq<char>| 0 <= k < b.len() && #[trigger] b[k].contains(ar) implies b2[k].contains(ar) by {
        let m = choose|m: int| 0 <= m < b[k].len() && b[k][m] == ar;
        assert(b2[k].contains(b[k][m]));
    }
    assert(b2[ku][b2[ku].len() - 1] == a);
    assert(b2[kp].contains(a)) by {
        if kp == ku {
        } else {
            assert(b1[kp][b1[kp].len() - 1] == a);
            assert(b2[kp] == b1[kp]);
        }
    }
    assert(has_arrow(e + x, a)) by {
        assert((e + x)[e.len() as int] == arrow);
    }
    assert forall|k: int, m: int| 0 <= k < b2.len() && 0 <= m < b2[k].len() implies b[k].contains(#[trigger] b2[k][m])
        || has_arrow(e + x, b2[k][m]) by {
        if b2[k][m] != a {
            if k == ku {
                if m < b1[k].len() {
                    assert(b2[k][m] == b1[k][m]);
                }
                if k == kp {
                    if m < b[k].len() {
                        assert(b1[k][m] == b[k][m]);
                    }
                } else {
                    assert(b1[k] == b[k]);
                }
            } else if k == kp {
                assert(b2[k] == b1[k]);
                if m < b[k].len() {
                    assert(b1[k][m] == b[k][m]);
                }
            } else {
                assert(b2[k] == b[k]);
            }
        }
    }
    assert(pending_lists(ids, b2, arrow.start_ref(), a));
    assert(pending_lists(ids, b2, arrow.end_ref(), a));
    assert forall|i: int| 0 <= i < x.len() && (#[trigger] x[i]) is Arrow implies (listed_by(
        e + x,
        x[i].start_ref(),
        x[i].id_view(),
    ) || pending_lists(ids, b2, x[i].start_ref(), x[i].id_view())) && (listed_by(
        e + x,
        x[i].end_ref(),
        x[i].id_view(),
    ) || pending_lists(ids, b2, x[i].end_ref(), x[i].id_view())) by {
        assert(x[i] == arrow);
    }
    assert forall|j: int, m: int| 0 <= j < x.len() && 0 <= m < x[j].bound_ids().len() implies has_arrow(
        e + x,
        #[trigger] x[j].bound_ids()[m],
    ) by {
        assert(x[j] == arrow);
    }
    lemma_pending_extend(e, x, ids, b, b2);
}

/// `el` connects a service to one of its dependencies, and the pending
/// rectangles of both list it.
pub open spec fn connector_listed(s: Seq<ServiceNode>, slot: Seq<usize>, b: Seq<Seq<Seq<char>>>, el: Element) -> bool {
    exists|u: int, p: int|
        #[trigger] connects(s, el, u, p) && b[slot[u] as int].contains(el.id_view()) && b[slot[p] as int].contains(
            el.id_view(),
        )
}

/// Every element of `e` from `from` on is a listed connector.
pub open spec fn connectors_listed(
    s: Seq<ServiceNode>,
    slot: Seq<usize>,
    e: Seq<Element>,
    from: int,
    b: Seq<Seq<Seq<char>>>,
) -> bool {
    forall|j: int| from <= j < e.len() ==> connector_listed(s, slot, b, #[trigger] e[j])
}

/// `e` is the connector in fan-out lane `i` from a child placed at `cu` to a
/// parent placed at `cp`: where it starts, its polyline and its dashed style.
pub open spec fn connector_shape(e: Element, mode: Seq<char>, cu: (int, int), cp: (int, int), i: int) -> bool {
    let c = connector_origin(mode, cu.0, cu.1, i);
    e matches Element::Arrow { x: ax, y: ay, width, height, stroke_style, points, .. } && ax == c.0 && ay == c.1
        && width == 0 && height == margins_spec(mode).1 && stroke_style@ == CONNECTION_STYLE@ && points_view(points@)
        == connecting_arrow_points_spec(
        mode,
        cu.0,
        cu.1,
        cp.0,
        cp.1,
        CONTAINER_HEIGHT as int,
        CONTAINER_WIDTH as int,
        (i + 1) * GRID_SIZE,
        GRID_SIZE as int,
        cp.1 - cu.1,
        i,
    )
}

/// `el` is drawn as a connector, in one of the child's fan-out lanes, from the
/// service at position `ku` of `order` to its dependency at position `kp`.
pub open spec fn connector_placed(
    s: Seq<ServiceNode>,
    order: Seq<usize>,
    mode: Seq<char>,
    font_size: int,
    el: Element,
) -> bool {
    exists|ku: int, kp: int|
        0 <= ku < order.len() && 0 <= kp < order.len() && #[trigger] connects(s, el, order[ku] as int, order[kp] as int)
            && exists|i: int|
            0 <= i < s[order[ku] as int].depends_on@.len() && #[trigger] connector_shape(
                el,
                mode,
                cursor(s, order, mode, font_size, ku),
                cursor(s, order, mode, font_size, kp),
                i,
            )
}

/// Every element of `e` from `from` on is a placed connector.
pub open spec fn connectors_placed(
    s: Seq<ServiceNode>,
    order: Seq<usize>,
    mode: Seq<char>,
    font_size: int,
    e: Seq<Element>,
    from: int,
) -> bool {
    forall|j: int| from <= j < e.len() ==> connector_placed(s, order, mode, font_size, #[trigger] e[j])
}

proof fn lemma_connectors_placed_step(
    s: Seq<ServiceNode>,
    order: Seq<usize>,
    mode: Seq<char>,
    font_size: int,
    e0: Seq<Element>,
    connector: Element,
    from: int,
)
    requires
        0 <= from,
        connectors_placed(s, order, mode, font_size, e0, from),
        connector_placed(s, order, mode, font_size, connector),
    ensures
        connectors_placed(s, order, mode, font_size, e0.push(connector), from),
{
    let e = e0.push(connector);
    assert forall|j: int| from <= j < e.len() implies connector_placed(s, order, mode, font_size, #[trigger] e[j]) by {
        if j < e0.len() {
            assert(e[j] == e0[j]);
        }
    }
}

/// Draws one connector from each service to each of its dependencies, fanned
/// out by descending parent position, and records it in the pending bound
/// lists of both rectangles.
#[verifier::rlimit(60)]
fn connect_services(
    s: &Vec<ServiceNode>,
    order: &Vec<usize>,
    slot: &Vec<usize>,
    rects: &Vec<RectangleStruct>,
    bounds: &mut Vec<Vec<BoundElement>>,
    elements: &mut Vec<Element>,
    config: &ExcalidrawConfig,
    ids: &Vec<String>,
    next: usize,
)
    requires
        model_wf(s@),
        is_permutation(order@, s@.len() as int),
        is_inverse(order@, slot@),
        rects@.len() == s@.len(),
        old(bounds)@.len() == s@.len(),
        forall|k: int|
            0 <= k < s@.len() ==> rect_placed(
                s@,
                order@,
                config.alignment.mode@,
                config.font.size as int,
                #[trigger] rects@[k],
                k,
            ),
        pending_consistent(old(elements)@, rect_ids(rects@), bound_views(old(bounds)@)),
        next + dependency_count(s@, s@.len() as int) <= ids@.len(),
    ensures
        final(elements)@.len() == old(elements)@.len() + dependency_count(s@, s@.len() as int),
        final(elements)@.subrange(0, old(elements)@.len() as int) == old(elements)@,
        final(bounds)@.len() == s@.len(),
        pending_consistent(final(elements)@, rect_ids(rects@), bound_views(final(bounds)@)),
        connectors_listed(s@, slot@, final(elements)@, old(elements)@.len() as int, bound_views(final(bounds)@)),
        connectors_placed(
            s@,
            order@,
            config.alignment.mode@,
            config.font.size as int,
            final(elements)@,
            old(elements)@.len() as int,
        ),
{
    let n = s.len();
    let total_ids = ids.len();
    let scale: i32 = GRID_SIZE;
    let height: i32 = CONTAINER_HEIGHT;
    let width: i32 = CONTAINER_WIDTH;
    let mode = config.alignment.mode.as_str();
    let (_x_margin, y_margin, _x_factor, _y_factor) = margins(mode);
    let ghost base = elements@.len() as int;
    let ghost font = config.font.size as int;
    let mut used: usize = next;
    let mut u: usize = 0;
    while u < n
        invariant
            n == s@.len(),
            model_wf(s@),
            is_permutation(order@, n as int),
            is_inverse(order@, slot@),
            rects@.len() == n,
            bounds@.len() == n,
            mode@ == config.alignment.mode@,
            font == config.font.size as int,
            scale == GRID_SIZE,
            height == CONTAINER_HEIGHT,
            width == CONTAINER_WIDTH,
            0 <= y_margin <= 60,
            forall|k: int| 0 <= k < n ==> rect_placed(s@, order@, mode@, font, #[trigger] rects@[k], k),
            total_ids == ids@.len(),
            next + dependency_count(s@, n as int) <= total_ids,
            u <= n,
            used == next + dependency_count(s@, u as int),
            base == old(elements)@.len(),
            elements@.len() == base + dependency_count(s@, u as int),
            elements@.subrange(0, base) == old(elements)@,
            pending_consistent(elements@, rect_ids(rects@), bound_views(bounds@)),
            connectors_listed(s@, slot@, elements@, base, bound_views(bounds@)),
            connectors_placed(s@, order@, mode@, font, elements@, base),
            y_margin == margins_spec(mode@).1,
        decreases n - u,
    {
        let ku = slot[u];
        proof {
            assert(slot@[u as int] < n);
            lemma_cursor_bounds(s@, order@, mode@, font, ku as int);
            assert(rect_placed(s@, order@, mode@, font, rects@[ku as int], ku as int));
        }
        let x = rects[ku].x;
        let y = rects[ku].y;
        let deps = &s[u].depends_on;
        let m = deps.len();
        proof {
            assert(s@[u as int].depends_on@.len() <= MAX_DEPENDENCIES);
        }
        let mut points: Vec<(i32, usize)> = Vec::new();
        let mut k: usize = 0;
        while k < m
            invariant
                n == s@.len(),
                model_wf(s@),
                is_inverse(order@, slot@),
                is_permutation(order@, n as int),
                u < n,
                deps@ == s@[u as int].depends_on@,
                m == deps@.len(),
                rects@.len() == n,
                k <= m,
                points@.len() == k,
                forall|j: int|
                    0 <= j < k ==> (#[trigger] points@[j]).1 < n && service_depends(s@, u as int, order@[points@[j].1 as int] as int)
                        && points@[j].0 == rects@[points@[j].1 as int].x,
            decreases m - k,
        {
            let found = service_index(s, &deps[k]);
            match found {
                Some(p) => {
                    let kp = slot[p];
                    proof {
                        assert(s@[u as int].depends_on@[k as int]@ == s@[p as int].name@);
                        assert(order@[slot@[p as int] as int] == p);
                    }
                    points.push((rects[kp].x, kp));
                },
                None => {
                    proof {
                        let w = choose|w: int| 0 <= w < s@.len() && s@[w].name@ == (#[trigger] s@[u as int].depends_on@[k as int])@;
                        assert(s@[w].name@ != deps@[k as int]@);
                    }
                },
            }
            k = k + 1;
        }
        let sorted = sort_parents(points);
        proof {
            assert forall|i: int| 0 <= i < sorted@.len() implies (#[trigger] sorted@[i]).1 < n && service_depends(
                s@,
                u as int,
                order@[sorted@[i].1 as int] as int,
            ) && sorted@[i].0 == rects@[sorted@[i].1 as int].x by {
                to_multiset_contains(sorted@, sorted@[i]);
                to_multiset_contains(points@, sorted@[i]);
                assert(sorted@.contains(sorted@[i]));
                let j = choose|j: int| 0 <= j < points@.len() && points@[j] == sorted@[i];
                assert(points@[j] == sorted@[i]);
            }
        }
        let cnt = sorted.len();
        let mut i: usize = 0;
        while i < cnt
            invariant
                n == s@.len(),
                model_wf(s@),
                is_permutation(order@, n as int),
                is_inverse(order@, slot@),
                rects@.len() == n,
                bounds@.len() == n,
                mode@ == config.alignment.mode@,
                font == config.font.size as int,
                scale == GRID_SIZE,
                height == CONTAINER_HEIGHT,
                width == CONTAINER_WIDTH,
                0 <= y_margin <= 60,
                forall|kk: int| 0 <= kk < n ==> rect_placed(s@, order@, mode@, font, #[trigger] rects@[kk], kk),
                u < n,
                ku == slot@[u as int],
                ku < n,
                x == rects@[ku as int].x,
                y == rects@[ku as int].y,
                0 <= x <= 20_200_000,
                0 <= y <= 100_000,
                cnt == sorted@.len(),
                cnt == s@[u as int].depends_on@.len(),
                cnt <= MAX_DEPENDENCIES,
                forall|ii: int|
                    0 <= ii < sorted@.len() ==> (#[trigger] sorted@[ii]).1 < n && service_depends(
                        s@,
                        u as int,
                        order@[sorted@[ii].1 as int] as int,
                    ) && sorted@[ii].0 == rects@[sorted@[ii].1 as int].x,
                total_ids == ids@.len(),
                next + dependency_count(s@, n as int) <= total_ids,
                i <= cnt,
                used == next + dependency_count(s@, u as int) + i,
                used + (cnt - i) <= next + dependency_count(s@, u as int + 1),
                base == old(elements)@.len(),
                elements@.len() == base + dependency_count(s@, u as int) + i,
                elements@.subrange(0, base) == old(elements)@,
                pending_consistent(elements@, rect_ids(rects@), bound_views(bounds@)),
                connectors_listed(s@, slot@, elements@, base, bound_views(bounds@)),
                connectors_placed(s@, order@, mode@, font, elements@, base),
                y_margin == margins_spec(mode@).1,
            decreases cnt - i,
        {
            let (x_parent, kp) = sorted[i];
            proof {
                lemma_cursor_bounds(s@, order@, mode@, font, kp as int);
                assert(rect_placed(s@, order@, mode@, font, rects@[kp as int], kp as int));
                lemma_dependency_count_monotone(s@, u as int + 1, n as int);
            }
            let connector = connector_arrow(
                mode,
                x,
                y,
                x_parent,
                rects[kp].y,
                i,
                &s[u].id,
                &rects[kp].id,
                &ids[used],
                config,
                y_margin,
            );
            let arrow_id = concat("connecting_arrow_", ids[used].as_str());
            let ghost e0 = elements@;
            let ghost b0 = bound_views(bounds@);
            push_bound(bounds, kp, arrow_bounded_element(arrow_id.clone()));
            push_bound(bounds, ku, arrow_bounded_element(arrow_id));
            elements.push(connector);
            proof {
                let p = order@[kp as int] as int;
                assert(rect_ids(rects@)[ku as int] == s@[u as int].id@);
                assert(rect_ids(rects@)[kp as int] == s@[p].id@);
                assert(slot@[p] == kp) by {
                    assert(order@[slot@[p] as int] == p);
                    assert(order@.no_duplicates());
                }
                lemma_connector_step(e0, connector, rect_ids(rects@), b0, kp as int, ku as int);
                let b2 = bound_views(bounds@);
                assert(b2 == with_connector(b0, kp as int, ku as int, connector.id_view()));
                assert(connects(s@, connector, u as int, p));
                assert(elements@ == e0.push(connector));
                lemma_connectors_listed_step(s@, slot@, e0, connector, b0, b2, base, u as int, p);
                assert(connectors_listed(s@, slot@, elements@, base, b2));
                assert(rect_placed(s@, order@, mode@, font, rects@[ku as int], ku as int));
                assert(rect_placed(s@, order@, mode@, font, rects@[kp as int], kp as int));
                assert(order@[ku as int] == u);
                assert(connector_shape(
                    connector,
                    mode@,
                    cursor(s@, order@, mode@, font, ku as int),
                    cursor(s@, order@, mode@, font, kp as int),
                    i as int,
                ));
                assert(connects(s@, connector, order@[ku as int] as int, order@[kp as int] as int));
                assert(connector_placed(s@, order@, mode@, font, connector));
                lemma_connectors_placed_step(s@, order@, mode@, font, e0, connector, base);
            }
            used = used + 1;
            i = i + 1;
        }
        u = u + 1;
    }
}

proof fn lemma_dependency_count_monotone(s: Seq<ServiceNode>, a: int, b: int)
    requires
        0 <= a <= b,
    ensures
        dependency_count(s, a) <= dependency_count(s, b),
    decreases b - a,
{
    if a < b {
        lemma_dependency_count_monotone(s, a, b - 1);
    }
}

proof fn lemma_connectors_listed_step(
    s: Seq<ServiceNode>,
    slot: Seq<usize>,
    e0: Seq<Element>,
    connector: Element,
    b0: Seq<Seq<Seq<char>>>,
    b2: Seq<Seq<Seq<char>>>,
    base: int,
    u: int,
    p: int,
)
    requires
        connectors_listed(s, slot, e0, base, b0),
        connects(s, connector, u, p),
        slot.len() == s.len(),
        forall|v: int| 0 <= v < slot.len() ==> #[trigger] slot[v] < b0.len(),
        b2.len() == b0.len(),
        forall|k: int, a: Seq<char>| 0 <= k < b0.len() && #[trigger] b0[k].contains(a) ==> b2[k].contains(a),
        b2[slot[u] as int].contains(connector.id_view()),
        b2[slot[p] as int].contains(connector.id_view()),
        0 <= base <= e0.len(),
    ensures
        connectors_listed(s, slot, e0.push(connector), base, b2),
{
    let e = e0.push(connector);
    assert forall|j: int| base <= j < e.len() implies connector_listed(s, slot, b2, #[trigger] e[j]) by {
        if j < e0.len() {
            assert(e[j] == e0[j]);
            assert(connector_listed(s, slot, b0, e0[j]));
            let (uu, pp) = choose|uu: int, pp: int|
                #[trigger] connects(s, e0[j], uu, pp) && b0[slot[uu] as int].contains(e0[j].id_view()) && b0[slot[pp] as int].contains(
                    e0[j].id_view(),
                );
            assert(b2[slot[uu] as int].contains(e[j].id_view()));
            assert(b2[slot[pp] as int].contains(e[j].id_view()));
            assert(connects(s, e[j], uu, pp));
        } else {
            assert(e[j] == connector);
            assert(connects(s, e[j], u, p));
        }
    }
}

/// `e` is the rectangle of the pending rectangle `r` with bound list `b`.
pub open spec fn rect_emitted(e: Element, r: RectangleStruct, b: Seq<Seq<char>>) -> bool {
    &&& e matches Element::Rectangle { x, y, width, height, .. } && x == r.x && y == r.y && width == r.width && height
        == r.height
    &&& e.id_view() == r.id@
    &&& e.bound_ids() == b
}

/// `e` is the name label of the pending rectangle `r`.
pub open spec fn label_emitted(e: Element, r: RectangleStruct) -> bool {
    e matches Element::Text { x, y, text, .. } && x == r.x + GRID_SIZE && y == r.y + GRID_SIZE && text@
        == r.container_name@
}

/// From position `base` on, `e` holds each pending rectangle followed by its label.
pub open spec fn rects_emitted(e: Seq<Element>, base: int, rects: Seq<RectangleStruct>, b: Seq<Seq<Seq<char>>>) -> bool {
    forall|k: int|
        0 <= k < rects.len() ==> rect_emitted(#[trigger] e[base + 2 * k], rects[k], b[k]) && label_emitted(
            e[base + 2 * k + 1],
            rects[k],
        )
}

/// Once every pending rectangle stands in `e` as an anchor with its bound
/// list, the bindings of `e` are consistent.
proof fn lemma_finalize(e: Seq<Element>, base: int, ids: Seq<Seq<char>>, b: Seq<Seq<Seq<char>>>)
    requires
        pending_consistent(e, ids, b),
        0 <= base,
        base + 2 * ids.len() <= e.len(),
        forall|k: int|
            0 <= k < ids.len() ==> (#[trigger] e[base + 2 * k]).is_anchor() && e[base + 2 * k].id_view() == ids[k]
                && e[base + 2 * k].bound_ids() == b[k],
    ensures
        bindings_consistent(e),
{
    assert forall|t: Seq<char>, a: Seq<char>| pending_lists(ids, b, t, a) implies listed_by(e, t, a) by {
        let k = choose|k: int| 0 <= k < ids.len() && k < b.len() && ids[k] == t && (#[trigger] b[k]).contains(a);
        assert(e[base + 2 * k].is_anchor());
    }
}

/// Emits each pending rectangle, with its complete bound list, followed by its
/// name label.
fn emit_rectangles(
    rects: Vec<RectangleStruct>,
    bounds: Vec<Vec<BoundElement>>,
    config: &ExcalidrawConfig,
    elements: &mut Vec<Element>,
)
    requires
        rects@.len() == bounds@.len(),
        forall|k: int|
            0 <= k < rects@.len() ==> (#[trigger] rects@[k]).container_name@.len() <= MAX_NAME_LEN && 0 <= rects@[k].x
                <= 20_200_000 && 0 <= rects@[k].y <= 100_000,
        pending_consistent(old(elements)@, rect_ids(rects@), bound_views(bounds@)),
    ensures
        final(elements)@.len() == old(elements)@.len() + 2 * rects@.len(),
        final(elements)@.subrange(0, old(elements)@.len() as int) == old(elements)@,
        bindings_consistent(final(elements)@),
        rects_emitted(final(elements)@, old(elements)@.len() as int, rects@, bound_views(bounds@)),
{
    let ghost all_rects = rects@;
    let ghost all_bounds = bound_views(bounds@);
    let ghost ids = rect_ids(rects@);
    let ghost base = elements@.len() as int;
    let n = rects.len();
    let mut rest_rects = rects;
    let mut rest_bounds = bounds;
    let mut k: usize = 0;
    while k < n
        invariant
            n == all_rects.len(),
            all_bounds.len() == n,
            ids == rect_ids(all_rects),
            k <= n,
            rest_rects@ == all_rects.subrange(k as int, n as int),
            bound_views(rest_bounds@) == all_bounds.subrange(k as int, n as int),
            rest_bounds@.len() == n - k,
            forall|j: int|
                0 <= j < all_rects.len() ==> (#[trigger] all_rects[j]).container_name@.len() <= MAX_NAME_LEN && 0
                    <= all_rects[j].x <= 20_200_000 && 0 <= all_rects[j].y <= 100_000,
            base == old(elements)@.len(),
            elements@.len() == base + 2 * k,
            elements@.subrange(0, base) == old(elements)@,
            pending_consistent(elements@, ids, all_bounds),
            forall|j: int|
                0 <= j < k ==> rect_emitted(#[trigger] elements@[base + 2 * j], all_rects[j], all_bounds[j])
                    && label_emitted(elements@[base + 2 * j + 1], all_rects[j]),
        decreases n - k,
    {
        let ghost before_bounds = rest_bounds@;
        let rect = rest_rects.remove(0);
        let bound = rest_bounds.remove(0);
        proof {
            assert(rect == all_rects[k as int]);
            assert(bound_views(before_bounds)[0] == all_bounds[k as int]);
            assert(bound_ids_of(bound@) == all_bounds[k as int]);
            assert(rest_rects@ =~= all_rects.subrange(k as int + 1, n as int));
            assert(bound_views(rest_bounds@) =~= all_bounds.subrange(k as int + 1, n as int)) by {
                assert forall|j: int| 0 <= j < rest_bounds@.len() implies #[trigger] bound_views(rest_bounds@)[j]
                    == all_bounds.subrange(k as int + 1, n as int)[j] by {
                    assert(rest_bounds@[j] == before_bounds[j + 1]);
                    assert(bound_views(before_bounds)[j + 1] == all_bounds[k + 1 + j]);
                }
            }
        }
        let rectangle = Element::simple_rectangle(
            rect.id,
            rect.x,
            rect.y,
            rect.width,
            rect.height,
            rect.group_ids,
            bound,
            config.services.background_color.clone(),
            config.services.fill.clone(),
            String::from_str(STROKE_STYLE),
            config.services.edge.clone(),
        );
        let label = Element::draw_small_monospaced_text(
            rect.container_name,
            rect.x + GRID_SIZE,
            rect.y + GRID_SIZE,
            rect.text_group_ids,
            config.font.size,
            config.font.family,
        );
        let ghost e0 = elements@;
        elements.push(rectangle);
        elements.push(label);
        proof {
            let x = seq![rectangle, label];
            assert(elements@ =~= e0 + x);
            assert forall|j: int, m: int| 0 <= j < x.len() && 0 <= m < x[j].bound_ids().len() implies has_arrow(
                e0 + x,
                #[trigger] x[j].bound_ids()[m],
            ) by {
                if j == 0 {
                    assert(x[j].bound_ids() == all_bounds[k as int]);
                    assert(has_arrow(e0, all_bounds[k as int][m]));
                    let i = choose|i: int| 0 <= i < e0.len() && (#[trigger] e0[i]) is Arrow && e0[i].id_view() == all_bounds[k as int][m];
                    assert((e0 + x)[i] == e0[i]);
                }
            }
            assert forall|kk: int, m: int| 0 <= kk < all_bounds.len() && 0 <= m < all_bounds[kk].len() implies all_bounds[kk].contains(
                #[trigger] all_bounds[kk][m],
            ) || has_arrow(e0 + x, all_bounds[kk][m]) by {}
            assert forall|kk: int, m: int| 0 <= kk < all_bounds.len() && 0 <= m < all_bounds[kk].len() implies all_bounds[kk].contains(
                #[trigger] all_bounds[kk][m],
            ) by {}
            lemma_pending_extend(e0, x, ids, all_bounds, all_bounds);
            assert forall|j: int| 0 <= j < k + 1 implies rect_emitted(
                #[trigger] elements@[base + 2 * j],
                all_rects[j],
                all_bounds[j],
            ) && label_emitted(elements@[base + 2 * j + 1], all_rects[j]) by {
                if j < k {
                    assert(elements@[base + 2 * j] == e0[base + 2 * j]);
                    assert(elements@[base + 2 * j + 1] == e0[base + 2 * j + 1]);
                }
            }
            assert(elements@.subrange(0, base) =~= e0.subrange(0, base));
        }
        k = k + 1;
    }
    proof {
        assert forall|kk: int| 0 <= kk < ids.len() implies (#[trigger] elements@[base + 2 * kk]).is_anchor()
            && elements@[base + 2 * kk].id_view() == ids[kk] && elements@[base + 2 * kk].bound_ids() == all_bounds[kk] by {
            assert(rect_emitted(elements@[base + 2 * kk], all_rects[kk], all_bounds[kk]));
        }
        lemma_finalize(elements@, base, ids, all_bounds);
        assert forall|kk: int| 0 <= kk < all_rects.len() implies rect_emitted(
            #[trigger] elements@[base + 2 * kk],
            all_rects[kk],
            all_bounds[kk],
        ) && label_emitted(elements@[base + 2 * kk + 1], all_rects[kk]) by {}
        assert(rects_emitted(elements@, base, all_rects, all_bounds));
    }
}

/// Whether dependency connectors are drawn: neither skipped on request nor
/// switched off in the configuration.
pub open spec fn connections_shown(config: ExcalidrawConfig, skip_dependencies: bool) -> bool {
    !skip_dependencies && config.connections.visible
}

/// Where the rectangles start in a diagram's element list.
pub open spec fn rect_base(s: Seq<ServiceNode>, order: Seq<usize>, shown: bool) -> int {
    placed_element_count(s, order, s.len() as int) + if shown {
        dependency_count(s, s.len() as int) as int
    } else {
        0
    }
}

/// The `k`-th service in `order` is drawn at position `base + 2k` as its
/// rectangle, at the cursor with the width its name needs, followed by its
/// name label.
pub open spec fn service_drawn(
    e: Seq<Element>,
    base: int,
    s: Seq<ServiceNode>,
    order: Seq<usize>,
    mode: Seq<char>,
    font_size: int,
    k: int,
) -> bool {
    let svc = s[order[k] as int];
    let c = cursor(s, order, mode, font_size, k);
    &&& e[base + 2 * k] matches Element::Rectangle { x, y, width, height, .. } && x == c.0 && y == c.1 && width
        == container_width(svc.name@, font_size) && height == CONTAINER_HEIGHT
    &&& e[base + 2 * k].id_view() == svc.id@
    &&& e[base + 2 * k + 1] matches Element::Text { x, y, text, .. } && x == c.0 + GRID_SIZE && y == c.1 + GRID_SIZE
        && text@ == svc.name@
}

/// The rectangle of service `u` lists the arrow `a`.
pub open spec fn rect_lists(e: Seq<Element>, base: int, order: Seq<usize>, u: int, a: Seq<char>) -> bool {
    exists|k: int| 0 <= k < order.len() && order[k] == u && (#[trigger] e[base + 2 * k]).bound_ids().contains(a)
}

/// The element at `j` connects a service to one of its dependencies, and the
/// rectangles of both list it.
pub open spec fn connector_drawn(e: Seq<Element>, base: int, s: Seq<ServiceNode>, order: Seq<usize>, j: int) -> bool {
    exists|u: int, p: int|
        #[trigger] connects(s, e[j], u, p) && rect_lists(e, base, order, u, e[j].id_view()) && rect_lists(
            e,
            base,
            order,
            p,
            e[j].id_view(),
        )
}

/// Lays out the services in `order`, drawing each arrow's identifier from `ids`.
///
/// The elements are the port elements of each service in turn, then the
/// dependency connectors when shown, then each service's rectangle and label.
/// Every arrow is bound at both ends to elements that list it. Without
/// connectors, each rectangle lists exactly its port arrows.
pub fn layout_diagram(
    services: &Vec<ServiceNode>,
    order: &Vec<usize>,
    config: &ExcalidrawConfig,
    skip_dependencies: bool,
    ids: &Vec<String>,
) -> (r: ExcalidrawFile)
    requires
        model_wf(services@),
        is_permutation(order@, services@.len() as int),
        ids@.len() >= id_count(services@, order@, connections_shown(*config, skip_dependencies)),
    ensures
        r.elements@.len() == element_count(services@, order@, connections_shown(*config, skip_dependencies)),
        bindings_consistent(r.elements@),
        forall|k: int|
            0 <= k < services@.len() ==> service_drawn(
                r.elements@,
                rect_base(services@, order@, connections_shown(*config, skip_dependencies)),
                services@,
                order@,
                config.alignment.mode@,
                config.font.size as int,
                k,
            ),
        connections_shown(*config, skip_dependencies) ==> forall|j: int|
            placed_element_count(services@, order@, services@.len() as int) <= j < rect_base(
                services@,
                order@,
                true,
            ) ==> connector_drawn(r.elements@, rect_base(services@, order@, true), services@, order@, j)
                && connector_placed(
                services@,
                order@,
                config.alignment.mode@,
                config.font.size as int,
                r.elements@[j],
            ),
        !connections_shown(*config, skip_dependencies) ==> forall|k: int|
            0 <= k < services@.len() ==> (#[trigger] r.elements@[rect_base(services@, order@, false) + 2 * k]).bound_ids().len()
                == services@[order@[k] as int].ports@.len(),
        forall|k: int|
            0 <= k < services@.len() ==> #[trigger] service_ports_drawn(
                r.elements@,
                services@,
                order@,
                config.alignment.mode@,
                config.font.size as int,
                k,
            ),
        r.file_type@ == crate::elements::FILE_TYPE@,
        r.version == crate::elements::FILE_VERSION,
        r.app_state.grid_size == GRID_SIZE,
{
    let ghost s = services@;
    let ghost shown = connections_shown(*config, skip_dependencies);
    let show = !skip_dependencies && config.connections.visible;
    let placement = place_services(services, order, config, ids);
    let Placement { elements, rects, bounds, used_ids } = placement;
    let mut elements = elements;
    let mut bounds = bounds;
    let ghost placed_len = elements@.len() as int;
    let ghost placed_elements = elements@;
    let ghost placed_bounds = bound_views(bounds@);
    let ghost slot_view: Seq<usize> = Seq::empty();
    if show {
        let slot = inverse(order);
        proof {
            slot_view = slot@;
        }
        connect_services(services, order, &slot, &rects, &mut bounds, &mut elements, config, ids, used_ids);
    }
    let ghost before_rects = elements@;
    let ghost final_bounds = bound_views(bounds@);
    proof {
        assert forall|k: int| 0 <= k < rects@.len() implies (#[trigger] rects@[k]).container_name@.len() <= MAX_NAME_LEN
            && 0 <= rects@[k].x <= 20_200_000 && 0 <= rects@[k].y <= 100_000 by {
            assert(rect_placed(s, order@, config.alignment.mode@, config.font.size as int, rects@[k], k));
            lemma_cursor_bounds(s, order@, config.alignment.mode@, config.font.size as int, k);
            assert(s[order@[k] as int].name@.len() <= MAX_NAME_LEN);
        }
    }
    let ghost all_rects = rects@;
    emit_rectangles(rects, bounds, config, &mut elements);
    proof {
        let e = elements@;
        let base = before_rects.len() as int;
        assert(base == rect_base(s, order@, shown));
        assert(before_rects.subrange(0, placed_len) == placed_elements);
        assert(e.subrange(0, base) == before_rects);
        assert(e.subrange(0, placed_len) =~= placed_elements) by {
            assert forall|j: int| 0 <= j < placed_len implies e[j] == placed_elements[j] by {
                assert(e.subrange(0, base)[j] == e[j]);
                assert(before_rects.subrange(0, placed_len)[j] == before_rects[j]);
            }
        }
        lemma_service_ports_stable(
            placed_elements,
            e,
            s,
            order@,
            config.alignment.mode@,
            config.font.size as int,
            s.len() as int,
        );
        assert forall|k: int| 0 <= k < s.len() implies service_drawn(
            e,
            base,
            s,
            order@,
            config.alignment.mode@,
            config.font.size as int,
            k,
        ) by {
            assert(rect_emitted(e[base + 2 * k], all_rects[k], final_bounds[k]));
            assert(rect_placed(s, order@, config.alignment.mode@, config.font.size as int, all_rects[k], k));
        }
        if shown {
            assert forall|j: int| placed_len <= j < base implies connector_drawn(e, base, s, order@, j) && connector_placed(
                s,
                order@,
                config.alignment.mode@,
                config.font.size as int,
                e[j],
            ) by {
                assert(e.subrange(0, base)[j] == before_rects[j]);
                assert(e[j] == before_rects[j]);
                assert(connector_listed(s, slot_view, final_bounds, before_rects[j]));
                let (u, p) = choose|u: int, p: int|
                    #[trigger] connects(s, before_rects[j], u, p) && final_bounds[slot_view[u] as int].contains(
                        before_rects[j].id_view(),
                    ) && final_bounds[slot_view[p] as int].contains(before_rects[j].id_view());
                let ku = slot_view[u] as int;
                let kp = slot_view[p] as int;
                assert(rect_emitted(e[base + 2 * ku], all_rects[ku], final_bounds[ku]));
                assert(rect_emitted(e[base + 2 * kp], all_rects[kp], final_bounds[kp]));
                assert(rect_lists(e, base, order@, u, e[j].id_view()));
                assert(rect_lists(e, base, order@, p, e[j].id_view()));
                assert(connects(s, e[j], u, p));
                assert(connector_placed(s, order@, config.alignment.mode@, config.font.size as int, before_rects[j]));
            }
        } else {
            assert forall|k: int| 0 <= k < s.len() implies (#[trigger] e[rect_base(s, order@, false) + 2 * k]).bound_ids().len()
                == s[order@[k] as int].ports@.len() by {
                assert(rect_emitted(e[base + 2 * k], all_rects[k], final_bounds[k]));
                assert(final_bounds[k] == placed_bounds[k]);
            }
        }
    }
    let mut file = ExcalidrawFile::default();
    file.elements = elements;
    file
}

/// Ports whose two labels are equal, so that only the host label is drawn.
pub open spec fn equal_label_count(ports: Seq<String>) -> nat
    decreases ports.len(),
{
    if ports.len() == 0 {
        0
    } else {
        equal_label_count(ports.drop_last()) + if labels_differ(ports.last()@) {
            0nat
        } else {
            1nat
        }
    }
}

/// Ports of the first `u` services.
pub open spec fn port_count(s: Seq<ServiceNode>, u: int) -> nat
    decreases u,
{
    if u <= 0 {
        0
    } else {
        port_count(s, u - 1) + s[u - 1].ports@.len()
    }
}

/// Ports with equal labels among the first `u` services.
pub open spec fn equal_port_count(s: Seq<ServiceNode>, u: int) -> nat
    decreases u,
{
    if u <= 0 {
        0
    } else {
        equal_port_count(s, u - 1) + equal_label_count(s[u - 1].ports@)
    }
}

/// `f` summed over the entries of `q`.
pub open spec fn sum_over(f: spec_fn(int) -> int, q: Seq<usize>) -> int
    decreases q.len(),
{
    if q.len() == 0 {
        0
    } else {
        sum_over(f, q.drop_last()) + f(q.last() as int)
    }
}

/// `f` summed over `0..n`.
pub open spec fn sum_range(f: spec_fn(int) -> int, n: int) -> int
    decreases n,
{
    if n <= 0 {
        0
    } else {
        sum_range(f, n - 1) + f(n - 1)
    }
}

proof fn lemma_port_elements(ports: Seq<String>)
    ensures
        port_element_count(ports) + equal_label_count(ports) == 4 * ports.len(),
    decreases ports.len(),
{
    if ports.len() > 0 {
        lemma_port_elements(ports.drop_last());
    }
}

proof fn lemma_sum_remove(f: spec_fn(int) -> int, q: Seq<usize>, j: int)
    requires
        0 <= j < q.len(),
    ensures
        sum_over(f, q) == sum_over(f, q.remove(j)) + f(q[j] as int),
    decreases q.len(),
{
    if j < q.len() - 1 {
        lemma_sum_remove(f, q.drop_last(), j);
        assert(q.remove(j).drop_last() =~= q.drop_last().remove(j));
        assert(q.remove(j).last() == q.last());
    } else {
        assert(q.remove(j) =~= q.drop_last());
    }
}

/// A sum over a permutation of `0..n` is the sum over `0..n`.
proof fn lemma_sum_permutation(f: spec_fn(int) -> int, q: Seq<usize>, n: int)
    requires
        0 <= n <= usize::MAX,
        is_permutation(q, n),
    ensures
        sum_over(f, q) == sum_range(f, n),
    decreases n,
{
    if n > 0 {
        let top = (n - 1) as usize;
        assert(q.contains(top));
        let j = choose|j: int| 0 <= j < q.len() && q[j] == top;
        let r = q.remove(j);
        lemma_sum_remove(f, q, j);
        assert forall|i: int| 0 <= i < r.len() implies #[trigger] r[i] < n - 1 by {
            let k = if i < j { i } else { i + 1 };
            assert(r[i] == q[k]);
            assert(k != j);
            assert(q[k] != q[j]);
        }
        assert(r.no_duplicates()) by {
            assert forall|a: int, b: int| 0 <= a < r.len() && 0 <= b < r.len() && a != b implies r[a] != r[b] by {
                let ka = if a < j { a } else { a + 1 };
                let kb = if b < j { b } else { b + 1 };
                assert(r[a] == q[ka] && r[b] == q[kb]);
            }
        }
        assert forall|v: int| 0 <= v < n - 1 implies #[trigger] r.contains(v as usize) by {
            assert(q.contains(v as usize));
            let k = choose|k: int| 0 <= k < q.len() && q[k] == v as usize;
            assert(k != j);
            let i = if k < j { k } else { k - 1 };
            assert(r[i] == q[k]);
        }
        lemma_sum_permutation(f, r, n - 1);
    }
}

/// The number of port elements of one service.
pub open spec fn service_port_elements(s: Seq<ServiceNode>) -> spec_fn(int) -> int {
    |v: int| port_element_count(s[v].ports@) as int
}

proof fn lemma_placed_is_sum(s: Seq<ServiceNode>, order: Seq<usize>, k: int)
    requires
        0 <= k <= order.len(),
    ensures
        placed_element_count(s, order, k) == sum_over(service_port_elements(s), order.subrange(0, k)),
    decreases k,
{
    if k > 0 {
        lemma_placed_is_sum(s, order, k - 1);
        assert(order.subrange(0, k).drop_last() =~= order.subrange(0, k - 1));
    }
}

proof fn lemma_range_is_ports(s: Seq<ServiceNode>, u: int)
    requires
        0 <= u <= s.len(),
    ensures
        sum_range(service_port_elements(s), u) + equal_port_count(s, u) == 4 * port_count(s, u),
    decreases u,
{
    if u > 0 {
        lemma_range_is_ports(s, u - 1);
        lemma_port_elements(s[u - 1].ports@);
    }
}

/// Law: a diagram has two elements per service (its rectangle and its name),
/// four per port less one for each port whose two labels are equal (an
/// indicator, a host label, an arrow and a container label), and, when
/// connectors are shown, one connector per declared dependency, whatever the
/// order in which the services are placed.
pub proof fn lemma_element_count_formula(s: Seq<ServiceNode>, order: Seq<usize>, shown: bool)
    requires
        s.len() <= usize::MAX,
        is_permutation(order, s.len() as int),
    ensures
        element_count(s, order, shown) + equal_port_count(s, s.len() as int) == 2 * s.len() + 4 * port_count(
            s,
            s.len() as int,
        ) + if shown {
            dependency_count(s, s.len() as int)
        } else {
            0
        },
{
    let n = s.len() as int;
    lemma_placed_is_sum(s, order, n);
    assert(order.subrange(0, n) =~= order);
    lemma_sum_permutation(service_port_elements(s), order, n);
    lemma_range_is_ports(s, n);
}

/// Law: hiding the connectors removes exactly one element per declared
/// dependency, all of them from between the port elements and the
/// rectangles, so every service keeps its place in the list and on the page.
pub proof fn lemma_hidden_connectors(s: Seq<ServiceNode>, order: Seq<usize>)
    ensures
        element_count(s, order, true) == element_count(s, order, false) + dependency_count(s, s.len() as int),
        rect_base(s, order, true) == rect_base(s, order, false) + dependency_count(s, s.len() as int),
        rect_base(s, order, false) == placed_element_count(s, order, s.len() as int),
        id_count(s, order, true) == id_count(s, order, false) + dependency_count(s, s.len() as int),
{
}

/// Where the connector that fans out `i`-th from a child at (`x`, `y`) starts.
pub open spec fn connector_origin(mode: Seq<char>, x: int, y: int, i: int) -> (int, int) {
    let margin = (i + 1) * GRID_SIZE;
    if is_vertical(mode) {
        (x, y + margin / 2)
    } else {
        (x + margin, y)
    }
}

/// The dashed connector from a child placed at (`x`, `y`) to its `i`-th
/// parent in fan-out order, placed at (`x_parent`, `y_parent`): bound at its
/// start to the child and at its end to the parent.
#[allow(clippy::too_many_arguments)]
pub fn connector_arrow(
    mode: &str,
    x: i32,
    y: i32,
    x_parent: i32,
    y_parent: i32,
    i: usize,
    child_id: &String,
    parent_id: &String,
    key: &String,
    config: &ExcalidrawConfig,
    y_margin: i32,
) -> (r: Element)
    requires
        0 <= x <= 20_200_000,
        0 <= y <= 100_000,
        0 <= x_parent <= 20_200_000,
        0 <= y_parent <= 100_000,
        i < MAX_DEPENDENCIES,
    ensures
        r is Arrow,
        r.id_view() == "connecting_arrow_"@ + key@,
        r.start_ref() == child_id@,
        r.end_ref() == parent_id@,
        ({
            let c = connector_origin(mode@, x as int, y as int, i as int);
            r matches Element::Arrow { x: ax, y: ay, width, height, stroke_style, points, .. } && ax == c.0 && ay
                == c.1 && width == 0 && height == y_margin && stroke_style@ == CONNECTION_STYLE@ && points_view(
                points@,
            ) == connecting_arrow_points_spec(
                mode@,
                x as int,
                y as int,
                x_parent as int,
                y_parent as int,
                CONTAINER_HEIGHT as int,
                CONTAINER_WIDTH as int,
                (i + 1) * GRID_SIZE,
                GRID_SIZE as int,
                y_parent - y,
                i as int,
            )
        }),
{
    let scale: i32 = GRID_SIZE;
    let height: i32 = CONTAINER_HEIGHT;
    let width: i32 = CONTAINER_WIDTH;
    let level_height = y_parent - y;
    let idx: i32 = i as i32;
    let margin = (idx + 1) * scale;
    let points = get_connecting_arrow_points(
        mode,
        &x,
        &y,
        &x_parent,
        &y_parent,
        &height,
        &width,
        &margin,
        &scale,
        level_height,
        idx,
    );
    let arrow_id = concat("connecting_arrow_", key.as_str());
    let (cx, cy) = get_connecting_arrow_xy(mode, margin);
    Element::simple_arrow(
        arrow_id,
        x + cx,
        y + cy,
        0,
        y_margin,
        String::from_str(CONNECTION_STYLE),
        config.connections.edge.clone(),
        points,
        binding(child_id.clone()),
        binding(parent_id.clone()),
    )
}

} // verus!
