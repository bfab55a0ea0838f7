//! Splitting a port mapping such as `127.0.0.1:8002:8002` into the label shown
//! on the host side and the label shown on the container side.
use vstd::prelude::*;
use crate::text::{find_last, last_index_of};

verus! {

/// The (host, container) labels of a port mapping: the whole text twice when it
/// has no colon, otherwise the parts before and after its last colon.
pub open spec fn port_labels(s: Seq<char>) -> (Seq<char>, Seq<char>) {
    match last_index_of(s, ':') {
        None => (s, s),
        Some(i) => (s.subrange(0, i), s.subrange(i + 1, s.len() as int)),
    }
}

/// Splits a port mapping into its host-side and container-side labels.
/// A bind address before the host port stays on the host side; a protocol
/// suffix stays on the container side.
pub fn extract_host_container_ports(port: &str) -> (r: (String, String))
    ensures
        r.0@ == port_labels(port@).0,
        r.1@ == port_labels(port@).1,
        r.0@.len() <= port@.len(),
        r.1@.len() <= port@.len(),
{
    match find_last(port, ':') {
        None => (port.to_owned(), port.to_owned()),
        Some(i) => {
            let n = port.unicode_len();
            let host = port.substring_char(0, i).to_owned();
            let container = port.substring_char(i + 1, n).to_owned();
            (host, container)
        },
    }
}

/// Law: without a colon both labels are the whole mapping; with one, the host
/// label, a colon and the container label spell the mapping again, the
/// container label holds no colon, and with exactly one colon neither does the
/// host label.
pub proof fn lemma_port_label_split(s: Seq<char>)
    ensures
        (forall|j: int| 0 <= j < s.len() ==> s[j] != ':') ==> port_labels(s) == (s, s),
        (exists|j: int| 0 <= j < s.len() && s[j] == ':') ==> {
            &&& port_labels(s).0 + seq![':'] + port_labels(s).1 == s
            &&& forall|j: int| 0 <= j < port_labels(s).1.len() ==> port_labels(s).1[j] != ':'
        },
        forall|k: int|
            0 <= k < s.len() && s[k] == ':' && (forall|j: int| 0 <= j < s.len() && j != k ==> s[j] != ':')
                ==> port_labels(s) == (s.subrange(0, k), s.subrange(k + 1, s.len() as int)),
{
    if exists|j: int| 0 <= j < s.len() && s[j] == ':' {
        let i = choose|i: int| 0 <= i < s.len() && s[i] == ':' && forall|j: int| i < j < s.len() ==> s[j] != ':';
        assert(exists|i: int| 0 <= i < s.len() && s[i] == ':' && forall|j: int| i < j < s.len() ==> s[j] != ':') by {
            let w = choose|j: int| 0 <= j < s.len() && s[j] == ':';
            lemma_last_colon_exists(s, w);
        }
        assert(s.subrange(0, i) + seq![':'] + s.subrange(i + 1, s.len() as int) =~= s);
        let tail = s.subrange(i + 1, s.len() as int);
        assert forall|j: int| 0 <= j < tail.len() implies tail[j] != ':' by {
            assert(tail[j] == s[i + 1 + j]);
        }
    }
    assert forall|k: int|
        0 <= k < s.len() && s[k] == ':' && (forall|j: int| 0 <= j < s.len() && j != k ==> s[j] != ':')
            implies port_labels(s) == (s.subrange(0, k), s.subrange(k + 1, s.len() as int)) by {
        let i = choose|i: int| 0 <= i < s.len() && s[i] == ':' && forall|j: int| i < j < s.len() ==> s[j] != ':';
        lemma_last_colon_exists(s, k);
        if i != k {
            assert(s[i] != ':');
        }
    }
}

/// Some position holds the last colon of `s` when position `w` holds a colon.
proof fn lemma_last_colon_exists(s: Seq<char>, w: int)
    requires
        0 <= w < s.len(),
        s[w] == ':',
    ensures
        exists|i: int| 0 <= i < s.len() && s[i] == ':' && forall|j: int| i < j < s.len() ==> s[j] != ':',
    decreases s.len() - w,
{
    if exists|j: int| w < j < s.len() && s[j] == ':' {
        let v = choose|j: int| w < j < s.len() && s[j] == ':';
        lemma_last_colon_exists(s, v);
    } else {
        assert(forall|j: int| w < j < s.len() ==> s[j] != ':');
    }
}

} // verus!
