//! From a list of services to a finished diagram: the model is checked, the
//! services are ordered by their dependencies, identifiers are drawn, and the
//! layout is built.
use vstd::prelude::*;
use crate::config::ExcalidrawConfig;
use crate::elements::{ExcalidrawFile, MAX_LABEL_LEN};
use crate::error::LayoutError;
use crate::ids::generate_ids;
use crate::layout::{
    ServiceNode, model_wf, is_permutation, layout_diagram, id_count, element_count, bindings_consistent,
    service_drawn, service_ports_drawn, connector_drawn, connector_placed, connections_shown, rect_base,
    placed_element_count, placement_id_count,
    dependency_count, service_depends, equal_port_count, port_count, lemma_element_count_formula, MAX_SERVICES,
    MAX_NAME_LEN, MAX_PORTS, MAX_DEPENDENCIES,
};
use crate::order::{
    DependencyComponent, dependency_order, depends, dependency_edge, names_distinct, is_topological, has_cycle,
};
use crate::text::str_eq;

verus! {

/// The dependency relation between services.
pub open spec fn service_edge(s: Seq<ServiceNode>) -> spec_fn(int, int) -> bool {
    |u: int, p: int| service_depends(s, u, p)
}

/// What `layout_diagram` promises of `file`, for the services in `order`.
pub open spec fn diagram_of(
    file: ExcalidrawFile,
    s: Seq<ServiceNode>,
    order: Seq<usize>,
    config: ExcalidrawConfig,
    skip_dependencies: bool,
) -> bool {
    let shown = connections_shown(config, skip_dependencies);
    let e = file.elements@;
    &&& e.len() == element_count(s, order, shown)
    &&& bindings_consistent(e)
    &&& forall|k: int|
        0 <= k < s.len() ==> service_drawn(
            e,
            rect_base(s, order, shown),
            s,
            order,
            config.alignment.mode@,
            config.font.size as int,
            k,
        )
    &&& shown ==> forall|j: int|
        placed_element_count(s, order, s.len() as int) <= j < rect_base(s, order, true) ==> connector_drawn(
            e,
            rect_base(s, order, true),
            s,
            order,
            j,
        ) && connector_placed(s, order, config.alignment.mode@, config.font.size as int, e[j])
    &&& !shown ==> forall|k: int|
        0 <= k < s.len() ==> (#[trigger] e[rect_base(s, order, false) + 2 * k]).bound_ids().len()
            == s[order[k] as int].ports@.len()
    &&& forall|k: int|
        0 <= k < s.len() ==> #[trigger] service_ports_drawn(
            e,
            s,
            order,
            config.alignment.mode@,
            config.font.size as int,
            k,
        )
}

/// The services' dependency components: same names and identifiers, with
/// one parent entry per dependency name.
pub fn dependency_components(s: &Vec<ServiceNode>) -> (c: Vec<DependencyComponent>)
    ensures
        c@.len() == s@.len(),
        forall|u: int| 0 <= u < s@.len() ==> (#[trigger] c@[u]).name@ == s@[u].name@ && c@[u].id@ == s@[u].id@,
        forall|u: int, p: int| 0 <= u < s@.len() && 0 <= p < s@.len() ==> (depends(c@, u, p) <==> service_depends(s@, u, p)),
{
    let n = s.len();
    let mut c: Vec<DependencyComponent> = Vec::new();
    let mut u: usize = 0;
    while u < n
        invariant
            n == s@.len(),
            u <= n,
            c@.len() == u,
            forall|v: int| 0 <= v < u ==> (#[trigger] c@[v]).name@ == s@[v].name@ && c@[v].id@ == s@[v].id@,
            forall|v: int| 0 <= v < u ==> (#[trigger] c@[v]).parent@.len() == s@[v].depends_on@.len(),
            forall|v: int, k: int|
                0 <= v < u && 0 <= k < c@[v].parent@.len() ==> (#[trigger] c@[v].parent@[k]).name@ == s@[v].depends_on@[k]@,
        decreases n - u,
    {
        let mut comp = DependencyComponent::new(s[u].id.clone(), s[u].name.clone());
        let deps = &s[u].depends_on;
        let m = deps.len();
        let mut k: usize = 0;
        while k < m
            invariant
                u < n,
                n == s@.len(),
                deps@ == s@[u as int].depends_on@,
                m == deps@.len(),
                k <= m,
                comp.name@ == s@[u as int].name@,
                comp.id@ == s@[u as int].id@,
                comp.parent@.len() == k,
                forall|j: int| 0 <= j < k ==> (#[trigger] comp.parent@[j]).name@ == deps@[j]@,
            decreases m - k,
        {
            comp.parent.push(DependencyComponent::new(String::new(), deps[k].clone()));
            k = k + 1;
        }
        c.push(comp);
        u = u + 1;
    }
    proof {
        assert forall|u: int, p: int| 0 <= u < s@.len() && 0 <= p < s@.len() implies (depends(c@, u, p)
            <==> service_depends(s@, u, p)) by {
            if depends(c@, u, p) {
                let k = choose|k: int| 0 <= k < c@[u].parent@.len() && #[trigger] c@[u].parent@[k].name@ == c@[p].name@;
                assert(s@[u].depends_on@[k]@ == s@[p].name@);
            }
            if service_depends(s@, u, p) {
                let k = choose|k: int| 0 <= k < s@[u].depends_on@.len() && #[trigger] s@[u].depends_on@[k]@ == s@[p].name@;
                assert(c@[u].parent@[k].name@ == c@[p].name@);
            }
        }
    }
    c
}

/// Checks that the services can be drawn: at most `MAX_SERVICES` of them,
/// bounded names, ports and dependencies, distinct names, and every dependency
/// naming a service.
pub fn check_model(s: &Vec<ServiceNode>) -> (r: Result<(), LayoutError>)
    ensures
        r is Ok <==> model_wf(s@),
        r matches Err(LayoutError::TooManyServices) ==> s@.len() > MAX_SERVICES,
        r matches Err(LayoutError::DuplicateService { name }) ==> exists|u: int, v: int|
            0 <= u < v < s@.len() && s@[u].name@ == name@ && s@[v].name@ == name@,
        r matches Err(LayoutError::UnknownDependency { service, dependency }) ==> exists|u: int, k: int|
            0 <= u < s@.len() && 0 <= k < s@[u].depends_on@.len() && s@[u].name@ == service@ && (#[trigger] s@[u].depends_on@[k])@
                == dependency@ && forall|p: int| 0 <= p < s@.len() ==> s@[p].name@ != dependency@,
        r matches Err(LayoutError::TooLarge { service }) ==> exists|u: int|
            0 <= u < s@.len() && (#[trigger] s@[u]).name@ == service@ && (s@[u].name@.len() > MAX_NAME_LEN
                || s@[u].ports@.len() > MAX_PORTS || s@[u].depends_on@.len() > MAX_DEPENDENCIES || exists|k: int|
                0 <= k < s@[u].ports@.len() && (#[trigger] s@[u].ports@[k])@.len() > MAX_LABEL_LEN),
        r is Err ==> !model_wf(s@),
        r matches Err(e) ==> !(e is DependencyCycle),
{
    let n = s.len();
    if n > MAX_SERVICES {
        return Err(LayoutError::TooManyServices);
    }
    let mut u: usize = 0;
    while u < n
        invariant
            n == s@.len(),
            n <= MAX_SERVICES,
            u <= n,
            forall|v: int|
                0 <= v < u ==> (#[trigger] s@[v]).name@.len() <= MAX_NAME_LEN && s@[v].ports@.len() <= MAX_PORTS
                    && s@[v].depends_on@.len() <= MAX_DEPENDENCIES && forall|k: int|
                    0 <= k < s@[v].ports@.len() ==> (#[trigger] s@[v].ports@[k])@.len() <= MAX_LABEL_LEN,
            forall|v: int, w: int| 0 <= v < u && 0 <= w < n && v != w ==> s@[v].name@ != s@[w].name@,
            forall|v: int, k: int|
                0 <= v < u && 0 <= k < s@[v].depends_on@.len() ==> exists|p: int|
                    0 <= p < s@.len() && s@[p].name@ == (#[trigger] s@[v].depends_on@[k])@,
        decreases n - u,
    {
        let svc = &s[u];
        if svc.name.as_str().unicode_len() > MAX_NAME_LEN || svc.ports.len() > MAX_PORTS || svc.depends_on.len()
            > MAX_DEPENDENCIES {
            let service = svc.name.clone();
            proof {
                assert(s@[u as int].name@ == service@);
            }
            return Err(LayoutError::TooLarge { service });
        }
        let mut k: usize = 0;
        while k < svc.ports.len()
            invariant
                u < n,
                n == s@.len(),
                *svc == s@[u as int],
                k <= svc.ports@.len(),
                forall|j: int| 0 <= j < k ==> (#[trigger] svc.ports@[j])@.len() <= MAX_LABEL_LEN,
            decreases svc.ports@.len() - k,
        {
            if svc.ports[k].as_str().unicode_len() > MAX_LABEL_LEN {
                let service = svc.name.clone();
                proof {
                    assert(s@[u as int].name@ == service@);
                    assert(s@[u as int].ports@[k as int]@.len() > MAX_LABEL_LEN);
                }
                return Err(LayoutError::TooLarge { service });
            }
            k = k + 1;
        }
        let mut w: usize = 0;
        while w < n
            invariant
                u < n,
                n == s@.len(),
                *svc == s@[u as int],
                w <= n,
                forall|x: int| 0 <= x < w && x != u ==> s@[u as int].name@ != s@[x].name@,
            decreases n - w,
        {
            if w != u && str_eq(svc.name.as_str(), s[w].name.as_str()) {
                let name = svc.name.clone();
                proof {
                    if u < w {
                        assert(0 <= u < w < s@.len() && s@[u as int].name@ == name@ && s@[w as int].name@ == name@);
                    } else {
                        assert(0 <= w < u < s@.len() && s@[w as int].name@ == name@ && s@[u as int].name@ == name@);
                    }
                }
                return Err(LayoutError::DuplicateService { name });
            }
            w = w + 1;
        }
        let deps = &svc.depends_on;
        let mut k: usize = 0;
        while k < deps.len()
            invariant
                u < n,
                n == s@.len(),
                *svc == s@[u as int],
                deps@ == svc.depends_on@,
                k <= deps@.len(),
                forall|j: int|
                    0 <= j < k ==> exists|p: int| 0 <= p < s@.len() && s@[p].name@ == (#[trigger] deps@[j])@,
            decreases deps@.len() - k,
        {
            let mut found = false;
            let mut p: usize = 0;
            while p < n
                invariant
                    n == s@.len(),
                    k < deps@.len(),
                    p <= n,
                    found ==> exists|q: int| 0 <= q < s@.len() && s@[q].name@ == deps@[k as int]@,
                    !found ==> forall|q: int| 0 <= q < p ==> s@[q].name@ != deps@[k as int]@,
                decreases n - p,
            {
                if str_eq(s[p].name.as_str(), deps[k].as_str()) {
                    found = true;
                }
                p = p + 1;
            }
            if !found {
                let service = svc.name.clone();
                let dependency = deps[k].clone();
                return Err(LayoutError::UnknownDependency { service, dependency });
            }
            k = k + 1;
        }
        u = u + 1;
    }
    Ok(())
}

proof fn lemma_id_count_bound(s: Seq<ServiceNode>, order: Seq<usize>, k: int)
    requires
        model_wf(s),
        is_permutation(order, s.len() as int),
        0 <= k <= s.len(),
    ensures
        placement_id_count(s, order, k) <= 2001 * k,
        dependency_count(s, k) <= 1000 * k,
    decreases k,
{
    if k > 0 {
        lemma_id_count_bound(s, order, k - 1);
        assert(s[order[k - 1] as int].ports@.len() <= MAX_PORTS);
        assert(s[k - 1].depends_on@.len() <= MAX_DEPENDENCIES);
    }
}

/// The number of identifiers that the layout of `s` in `order` draws.
pub fn count_ids(s: &Vec<ServiceNode>, order: &Vec<usize>, shown: bool) -> (r: usize)
    requires
        model_wf(s@),
        is_permutation(order@, s@.len() as int),
    ensures
        r == id_count(s@, order@, shown),
{
    let n = s.len();
    let mut total: usize = 0;
    let mut k: usize = 0;
    while k < n
        invariant
            n == s@.len(),
            model_wf(s@),
            is_permutation(order@, n as int),
            k <= n,
            total == placement_id_count(s@, order@, k as int),
        decreases n - k,
    {
        proof {
            lemma_id_count_bound(s@, order@, k as int + 1);
        }
        total = total + 1 + 2 * s[order[k]].ports.len();
        k = k + 1;
    }
    if shown {
        let mut u: usize = 0;
        while u < n
            invariant
                n == s@.len(),
                model_wf(s@),
                is_permutation(order@, n as int),
                u <= n,
                total == placement_id_count(s@, order@, n as int) + dependency_count(s@, u as int),
            decreases n - u,
        {
            proof {
                lemma_id_count_bound(s@, order@, n as int);
                lemma_id_count_bound(s@, order@, u as int + 1);
            }
            total = total + s[u].depends_on.len();
            u = u + 1;
        }
    }
    total
}

/// Draws the services: checks the model, orders the services so that each
/// comes after its dependencies, and lays them out with fresh identifiers.
///
/// Fails exactly when the model cannot be drawn (`check_model`) or the
/// dependencies form a cycle; otherwise the diagram is the layout of some
/// dependency order.
pub fn render_diagram(s: &Vec<ServiceNode>, config: &ExcalidrawConfig, skip_dependencies: bool) -> (r: Result<
    ExcalidrawFile,
    LayoutError,
>)
    ensures
        r is Ok <==> model_wf(s@) && !has_cycle(service_edge(s@), s@.len() as int),
        r matches Err(LayoutError::DependencyCycle { service }) ==> model_wf(s@) && has_cycle(
            service_edge(s@),
            s@.len() as int,
        ) && exists|u: int| 0 <= u < s@.len() && s@[u].name@ == service@,
        r matches Ok(file) ==> exists|order: Seq<usize>|
            is_topological(service_edge(s@), s@.len() as int, order) && diagram_of(
                file,
                s@,
                order,
                *config,
                skip_dependencies,
            ),
        r matches Ok(file) ==> file.elements@.len() + equal_port_count(s@, s@.len() as int) == 2 * s@.len() + 4
            * port_count(s@, s@.len() as int) + if connections_shown(*config, skip_dependencies) {
            dependency_count(s@, s@.len() as int)
        } else {
            0
        },
{
    match check_model(s) {
        Err(e) => {
            return Err(e);
        },
        Ok(()) => {},
    }
    let components = dependency_components(s);
    proof {
        assert(names_distinct(components@));
        assert forall|u: int, p: int| 0 <= u < s@.len() && 0 <= p < s@.len() implies #[trigger] dependency_edge(components@)(
            u,
            p,
        ) == #[trigger] service_edge(s@)(u, p) by {}
        crate::order::lemma_same_cycles(dependency_edge(components@), service_edge(s@), s@.len() as int);
    }
    match dependency_order(&components) {
        Err(u) => {
            proof {
                assert(components@[u as int].name@ == s@[u as int].name@);
            }
            Err(LayoutError::DependencyCycle { service: components[u].name.clone() })
        },
        Ok(order) => {
            proof {
                assert forall|i: int, p: int|
                    0 <= i < order@.len() && #[trigger] service_edge(s@)(order@[i] as int, p) implies exists|j: int|
                    0 <= j < i && order@[j] == p by {
                    assert(dependency_edge(components@)(order@[i] as int, p));
                }
                assert(is_topological(service_edge(s@), s@.len() as int, order@));
            }
            let show = !skip_dependencies && config.connections.visible;
            let count = count_ids(s, &order, show);
            let ids = generate_ids(count);
            let file = layout_diagram(s, &order, config, skip_dependencies, &ids);
            proof {
                assert(diagram_of(file, s@, order@, *config, skip_dependencies));
                lemma_element_count_formula(s@, order@, connections_shown(*config, skip_dependencies));
            }
            Ok(file)
        },
    }
}

} // verus!
