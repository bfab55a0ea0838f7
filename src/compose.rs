//! The compose manifest as the library reads it: a YAML tree of strings,
//! sequences and mappings, walked into one `DockerContainer` per service.
use vstd::prelude::*;
use crate::error::ExcalidockerError;
use crate::layout::ServiceNode;
use crate::text::{concat, decimal, decimal_view, str_eq};

verus! {

/// A YAML value: a string, a sequence, a mapping (entries in document order),
/// or any other scalar, which the manifest walk does not read.
pub enum YamlNode {
    Str(String),
    Sequence(Vec<YamlNode>),
    Mapping(Vec<(YamlNode, YamlNode)>),
    Scalar,
}

/// A service entry of the manifest.
pub struct DockerContainer {
    pub id: String,
    pub image: String,
    pub command: Option<String>,
    pub environment: Option<Vec<(String, String)>>,
    pub depends_on: Option<Vec<String>>,
    pub ports: Option<Vec<String>>,
    pub volumes: Option<Vec<String>>,
    pub networks: Option<Vec<String>>,
}

pub open spec fn strings_view(v: Seq<String>) -> Seq<Seq<char>> {
    v.map_values(|s: String| s@)
}

/// The string items of a sequence, in order; other items are skipped.
pub open spec fn string_items(items: Seq<YamlNode>) -> Seq<Seq<char>>
    decreases items.len(),
{
    if items.len() == 0 {
        Seq::empty()
    } else {
        let rest = string_items(items.drop_last());
        match items.last() {
            YamlNode::Str(s) => rest.push(s@),
            _ => rest,
        }
    }
}

/// The string keys of a mapping, in order; other keys are skipped.
pub open spec fn string_keys(entries: Seq<(YamlNode, YamlNode)>) -> Seq<Seq<char>>
    decreases entries.len(),
{
    if entries.len() == 0 {
        Seq::empty()
    } else {
        let rest = string_keys(entries.drop_last());
        match entries.last().0 {
            YamlNode::Str(s) => rest.push(s@),
            _ => rest,
        }
    }
}

/// The entries of a mapping whose key and value are both strings.
pub open spec fn string_pairs(entries: Seq<(YamlNode, YamlNode)>) -> Seq<(Seq<char>, Seq<char>)>
    decreases entries.len(),
{
    if entries.len() == 0 {
        Seq::empty()
    } else {
        let rest = string_pairs(entries.drop_last());
        match entries.last() {
            (YamlNode::Str(k), YamlNode::Str(v)) => rest.push((k@, v@)),
            _ => rest,
        }
    }
}

/// The value of the last entry whose key is the string `key`.
pub open spec fn lookup(entries: Seq<(YamlNode, YamlNode)>, key: Seq<char>) -> Option<YamlNode>
    decreases entries.len(),
{
    if entries.len() == 0 {
        None
    } else if entries.last().0 matches YamlNode::Str(k) && k@ == key {
        Some(entries.last().1)
    } else {
        lookup(entries.drop_last(), key)
    }
}

/// The names a `depends_on` or `networks` value lists: the strings of a
/// sequence, or the string keys of a mapping.
pub open spec fn listed_names(v: YamlNode) -> Option<Seq<Seq<char>>> {
    match v {
        YamlNode::Sequence(items) => Some(string_items(items@)),
        YamlNode::Mapping(entries) => Some(string_keys(entries@)),
        _ => None,
    }
}

/// The strings of `items`.
pub fn collect_strings(items: &Vec<YamlNode>) -> (r: Vec<String>)
    ensures
        strings_view(r@) == string_items(items@),
{
    let mut r: Vec<String> = Vec::new();
    let mut i: usize = 0;
    while i < items.len()
        invariant
            i <= items@.len(),
            strings_view(r@) == string_items(items@.subrange(0, i as int)),
        decreases items@.len() - i,
    {
        let ghost before = r@;
        match &items[i] {
            YamlNode::Str(s) => r.push(s.clone()),
            _ => {},
        }
        proof {
            let pre = items@.subrange(0, i as int + 1);
            assert(pre.drop_last() =~= items@.subrange(0, i as int));
            assert(pre.last() == items@[i as int]);
            assert(strings_view(r@) =~= string_items(pre));
        }
        i = i + 1;
    }
    assert(items@.subrange(0, items@.len() as int) =~= items@);
    r
}

/// The string keys of `entries`.
pub fn collect_keys(entries: &Vec<(YamlNode, YamlNode)>) -> (r: Vec<String>)
    ensures
        strings_view(r@) == string_keys(entries@),
{
    let mut r: Vec<String> = Vec::new();
    let mut i: usize = 0;
    while i < entries.len()
        invariant
            i <= entries@.len(),
            strings_view(r@) == string_keys(entries@.subrange(0, i as int)),
        decreases entries@.len() - i,
    {
        match &entries[i].0 {
            YamlNode::Str(s) => r.push(s.clone()),
            _ => {},
        }
        proof {
            let pre = entries@.subrange(0, i as int + 1);
            assert(pre.drop_last() =~= entries@.subrange(0, i as int));
            assert(pre.last() == entries@[i as int]);
            assert(strings_view(r@) =~= string_keys(pre));
        }
        i = i + 1;
    }
    assert(entries@.subrange(0, entries@.len() as int) =~= entries@);
    r
}

pub open spec fn pairs_view(v: Seq<(String, String)>) -> Seq<(Seq<char>, Seq<char>)> {
    v.map_values(|p: (String, String)| (p.0@, p.1@))
}

/// The entries of `entries` whose key and value are both strings.
pub fn collect_pairs(entries: &Vec<(YamlNode, YamlNode)>) -> (r: Vec<(String, String)>)
    ensures
        pairs_view(r@) == string_pairs(entries@),
{
    let mut r: Vec<(String, String)> = Vec::new();
    let mut i: usize = 0;
    while i < entries.len()
        invariant
            i <= entries@.len(),
            pairs_view(r@) == string_pairs(entries@.subrange(0, i as int)),
        decreases entries@.len() - i,
    {
        match &entries[i] {
            (YamlNode::Str(k), YamlNode::Str(v)) => r.push((k.clone(), v.clone())),
            _ => {},
        }
        proof {
            let pre = entries@.subrange(0, i as int + 1);
            assert(pre.drop_last() =~= entries@.subrange(0, i as int));
            assert(pre.last() == entries@[i as int]);
            assert(pairs_view(r@) =~= string_pairs(pre));
        }
        i = i + 1;
    }
    assert(entries@.subrange(0, entries@.len() as int) =~= entries@);
    r
}

/// The position of the last entry whose key is the string `key`.
pub fn find_key(entries: &Vec<(YamlNode, YamlNode)>, key: &str) -> (r: Option<usize>)
    ensures
        r matches Some(i) ==> i < entries@.len() && lookup(entries@, key@) == Some(entries@[i as int].1),
        r is None ==> lookup(entries@, key@) is None,
{
    let mut i: usize = entries.len();
    assert(entries@.subrange(0, i as int) =~= entries@);
    while i > 0
        invariant
            i <= entries@.len(),
            lookup(entries@, key@) == lookup(entries@.subrange(0, i as int), key@),
        decreases i,
    {
        let ghost pre = entries@.subrange(0, i as int);
        assert(pre.last() == entries@[i - 1]);
        assert(pre.drop_last() =~= entries@.subrange(0, i - 1));
        match &entries[i - 1].0 {
            YamlNode::Str(k) => {
                if str_eq(k.as_str(), key) {
                    return Some(i - 1);
                }
            },
            _ => {},
        }
        i = i - 1;
    }
    assert(entries@.subrange(0, 0) =~= Seq::<(YamlNode, YamlNode)>::empty());
    None
}

/// The names that a `depends_on` value lists.
pub fn parse_depends_on(value: &YamlNode) -> (r: Option<Vec<String>>)
    ensures
        r is Some <==> listed_names(*value) is Some,
        r matches Some(v) ==> listed_names(*value) == Some(strings_view(v@)),
{
    match value {
        YamlNode::Sequence(items) => Some(collect_strings(items)),
        YamlNode::Mapping(entries) => Some(collect_keys(entries)),
        _ => None,
    }
}

/// The names that a `networks` value lists.
pub fn parse_networks(value: &YamlNode) -> (r: Option<Vec<String>>)
    ensures
        r is Some <==> listed_names(*value) is Some,
        r matches Some(v) ==> listed_names(*value) == Some(strings_view(v@)),
{
    match value {
        YamlNode::Sequence(items) => Some(collect_strings(items)),
        YamlNode::Mapping(entries) => Some(collect_keys(entries)),
        _ => None,
    }
}

/// The string at `key`, if that entry holds a string.
pub open spec fn string_field(entries: Seq<(YamlNode, YamlNode)>, key: Seq<char>) -> Option<Seq<char>> {
    match lookup(entries, key) {
        Some(YamlNode::Str(s)) => Some(s@),
        _ => None,
    }
}

/// The strings of the sequence at `key`, if that entry holds a sequence.
pub open spec fn list_field(entries: Seq<(YamlNode, YamlNode)>, key: Seq<char>) -> Option<Seq<Seq<char>>> {
    match lookup(entries, key) {
        Some(YamlNode::Sequence(items)) => Some(string_items(items@)),
        _ => None,
    }
}

/// The names listed at `key`, if that entry lists any.
pub open spec fn names_field(entries: Seq<(YamlNode, YamlNode)>, key: Seq<char>) -> Option<Seq<Seq<char>>> {
    match lookup(entries, key) {
        Some(v) => listed_names(v),
        None => None,
    }
}

pub open spec fn opt_strings_view(v: Option<Vec<String>>) -> Option<Seq<Seq<char>>> {
    match v {
        Some(v) => Some(strings_view(v@)),
        None => None,
    }
}

pub open spec fn opt_string_view(v: Option<String>) -> Option<Seq<char>> {
    match v {
        Some(s) => Some(s@),
        None => None,
    }
}

impl DockerContainer {
    /// A container with no settings.
    pub fn new(id: String) -> (r: Self)
        ensures
            r.id == id,
            r.image@ == Seq::<char>::empty(),
            r.command is None,
            r.environment is None,
            r.depends_on is None,
            r.ports is None,
            r.volumes is None,
            r.networks is None,
    {
        DockerContainer {
            id,
            image: String::new(),
            command: None,
            environment: None,
            depends_on: None,
            ports: None,
            volumes: None,
            networks: None,
        }
    }

    /// The container that the service mapping `value` describes: each
    /// setting is read from its key when it has the expected shape.
    pub fn convert_to_container(id: String, value: &YamlNode) -> (r: Self)
        requires
            value is Mapping,
        ensures
            r.id == id,
            r.image@ == match string_field(value->Mapping_0@, "image"@) {
                Some(s) => s,
                None => Seq::<char>::empty(),
            },
            opt_string_view(r.command) == string_field(value->Mapping_0@, "command"@),
            r.environment is Some <==> lookup(value->Mapping_0@, "environment"@) matches Some(YamlNode::Mapping(_)),
            r.environment matches Some(env) ==> lookup(value->Mapping_0@, "environment"@) matches Some(
                YamlNode::Mapping(entries),
            ) && pairs_view(env@) == string_pairs(entries@),
            opt_strings_view(r.ports) == list_field(value->Mapping_0@, "ports"@),
            opt_strings_view(r.volumes) == list_field(value->Mapping_0@, "volumes"@),
            opt_strings_view(r.depends_on) == names_field(value->Mapping_0@, "depends_on"@),
            opt_strings_view(r.networks) == names_field(value->Mapping_0@, "networks"@),
    {
        let entries = match value {
            YamlNode::Mapping(entries) => entries,
            _ => {
                proof {
                    assert(false);
                }
                return DockerContainer::new(id);
            },
        };
        let mut container = DockerContainer::new(id);
        if let Some(i) = find_key(entries, "image") {
            if let YamlNode::Str(image) = &entries[i].1 {
                container.image = image.clone();
            }
        }
        if let Some(i) = find_key(entries, "command") {
            if let YamlNode::Str(command) = &entries[i].1 {
                container.command = Some(command.clone());
            }
        }
        if let Some(i) = find_key(entries, "environment") {
            if let YamlNode::Mapping(environment) = &entries[i].1 {
                container.environment = Some(collect_pairs(environment));
            }
        }
        if let Some(i) = find_key(entries, "ports") {
            if let YamlNode::Sequence(ports) = &entries[i].1 {
                container.ports = Some(collect_strings(ports));
            }
        }
        if let Some(i) = find_key(entries, "volumes") {
            if let YamlNode::Sequence(volumes) = &entries[i].1 {
                container.volumes = Some(collect_strings(volumes));
            }
        }
        if let Some(i) = find_key(entries, "depends_on") {
            container.depends_on = parse_depends_on(&entries[i].1);
        }
        if let Some(i) = find_key(entries, "networks") {
            container.networks = parse_networks(&entries[i].1);
        }
        container
    }
}

/// The identifier of the `n`-th service of a manifest, counting from one.
pub open spec fn container_id(n: nat) -> Seq<char> {
    "container_"@ + decimal_view(n)
}

/// The `services` mapping of a manifest whose services are all mappings
/// under string names.
pub open spec fn services_entries(root: YamlNode) -> Option<Seq<(YamlNode, YamlNode)>> {
    match root {
        YamlNode::Mapping(entries) => match lookup(entries@, "services"@) {
            Some(YamlNode::Mapping(services)) => if forall|i: int|
                0 <= i < services@.len() ==> (#[trigger] services@[i]).0 is Str && services@[i].1 is Mapping {
                Some(services@)
            } else {
                None
            },
            _ => None,
        },
        _ => None,
    }
}

/// A manifest of the wrong shape.
fn invalid_compose(path: &str, msg: &str) -> (e: ExcalidockerError)
    ensures
        e matches ExcalidockerError::InvalidDockerCompose { path: p, .. } && p@ == path@,
{
    ExcalidockerError::InvalidDockerCompose { path: path.to_owned(), msg: msg.to_owned() }
}

/// The services of a manifest, in document order: the `n`-th is identified
/// as `container_<n>`, named by its key, and carries its ports and its
/// dependencies (none where the manifest gives none).
pub fn services_from_compose(root: &YamlNode, path: &str) -> (r: Result<Vec<ServiceNode>, ExcalidockerError>)
    ensures
        r is Ok <==> services_entries(*root) is Some,
        r matches Err(e) ==> (e matches ExcalidockerError::InvalidDockerCompose { path: p, .. } && p@ == path@),
        r matches Ok(nodes) ==> {
            let entries = services_entries(*root)->Some_0;
            &&& nodes@.len() == entries.len()
            &&& forall|i: int|
                0 <= i < nodes@.len() ==> {
                    &&& (#[trigger] nodes@[i]).id@ == container_id((i + 1) as nat)
                    &&& entries[i].0 matches YamlNode::Str(name) && nodes@[i].name@ == name@
                    &&& strings_view(nodes@[i].ports@) == match list_field(entries[i].1->Mapping_0@, "ports"@) {
                        Some(p) => p,
                        None => Seq::empty(),
                    }
                    &&& strings_view(nodes@[i].depends_on@) == match names_field(
                        entries[i].1->Mapping_0@,
                        "depends_on"@,
                    ) {
                        Some(d) => d,
                        None => Seq::empty(),
                    }
                }
        },
{
    let top = match root {
        YamlNode::Mapping(top) => top,
        _ => {
            return Err(invalid_compose(path, "Failed to get 'services' attribute"));
        },
    };
    let services = match find_key(top, "services") {
        Some(i) => match &top[i].1 {
            YamlNode::Mapping(services) => services,
            _ => {
                return Err(invalid_compose(path, "Failed to get 'services' attribute"));
            },
        },
        None => {
            return Err(invalid_compose(path, "Failed to get 'services' attribute"));
        },
    };
    let n = services.len();
    let mut nodes: Vec<ServiceNode> = Vec::new();
    let mut i: usize = 0;
    while i < n
        invariant
            n == services@.len(),
            *root matches YamlNode::Mapping(t) && lookup(t@, "services"@) == Some(YamlNode::Mapping(*services)),
            i <= n,
            nodes@.len() == i,
            forall|j: int| 0 <= j < i ==> (#[trigger] services@[j]).0 is Str && services@[j].1 is Mapping,
            forall|j: int|
                0 <= j < i ==> {
                    &&& (#[trigger] nodes@[j]).id@ == container_id((j + 1) as nat)
                    &&& services@[j].0 matches YamlNode::Str(name) && nodes@[j].name@ == name@
                    &&& strings_view(nodes@[j].ports@) == match list_field(services@[j].1->Mapping_0@, "ports"@) {
                        Some(p) => p,
                        None => Seq::empty(),
                    }
                    &&& strings_view(nodes@[j].depends_on@) == match names_field(
                        services@[j].1->Mapping_0@,
                        "depends_on"@,
                    ) {
                        Some(d) => d,
                        None => Seq::empty(),
                    }
                },
        decreases n - i,
    {
        let name = match &services[i].0 {
            YamlNode::Str(name) => name,
            _ => {
                return Err(invalid_compose(path, "A service name is not a string"));
            },
        };
        match &services[i].1 {
            YamlNode::Mapping(_) => {},
            _ => {
                return Err(invalid_compose(path, "A service definition is not a mapping"));
            },
        }
        let id = concat("container_", decimal((i + 1) as u64).as_str());
        let container = DockerContainer::convert_to_container(id, &services[i].1);
        let ports = match container.ports {
            Some(p) => p,
            None => {
                let empty: Vec<String> = Vec::new();
                assert(strings_view(empty@) =~= Seq::<Seq<char>>::empty());
                empty
            },
        };
        let depends_on = match container.depends_on {
            Some(d) => d,
            None => {
                let empty: Vec<String> = Vec::new();
                assert(strings_view(empty@) =~= Seq::<Seq<char>>::empty());
                empty
            },
        };
        let ghost before = nodes@;
        nodes.push(ServiceNode { id: container.id, name: name.clone(), ports, depends_on });
        proof {
            assert forall|j: int| 0 <= j < i + 1 implies (#[trigger] services@[j]).0 is Str && services@[j].1 is Mapping by {}
            assert(nodes@[i as int].ports@ == ports@);
        }
        i = i + 1;
    }
    Ok(nodes)
}

} // verus!
