//! The library's laws: properties of the compiler and the query layer
//! that hold for every registry, proved once and for all.

use vstd::prelude::*;

use crate::record::RawRowView;
use crate::record::ServiceView;
use crate::registry::Registry;
use crate::registry::compiled_services;
use crate::registry::lemma_positions_matching;
use crate::registry::name_pred;
use crate::registry::port_pred;
use crate::registry::positions_matching;

verus! {

/// A port query yields exactly the records that use the queried port: as
/// many records as there are matching positions, each yielded record is
/// the canonical record at the corresponding matching position and uses
/// the port, the matching positions are strictly increasing (so canonical
/// order is preserved and no record is yielded twice), and every record
/// that uses the port is covered.
pub proof fn lemma_by_port_exact(s: Seq<ServiceView>, port: u16)
    ensures
        s.filter(port_pred(port)).len() == positions_matching(s, port_pred(port)).len(),
        forall|j: int|
            0 <= j < s.filter(port_pred(port)).len() ==> {
                let p = #[trigger] positions_matching(s, port_pred(port))[j];
                0 <= p < s.len() && s.filter(port_pred(port))[j] == s[p] && s[p].port == port
            },
        forall|j: int, k: int|
            0 <= j < k < positions_matching(s, port_pred(port)).len()
                ==> #[trigger] positions_matching(s, port_pred(port))[j]
                < #[trigger] positions_matching(s, port_pred(port))[k],
        forall|i: int|
            0 <= i < s.len() && (#[trigger] s[i]).port == port ==> positions_matching(
                s,
                port_pred(port),
            ).contains(i),
{
    lemma_positions_matching(s, port_pred(port));
}

/// A query for a port that no record uses yields the empty sequence,
/// never an error.
pub proof fn lemma_by_port_absent_empty(s: Seq<ServiceView>, port: u16)
    requires
        forall|i: int| 0 <= i < s.len() ==> (#[trigger] s[i]).port != port,
    ensures
        s.filter(port_pred(port)).len() == 0,
{
    lemma_positions_matching(s, port_pred(port));
    let pos = positions_matching(s, port_pred(port));
    if s.filter(port_pred(port)).len() > 0 {
        assert(0 <= pos[0] < s.len() && s[pos[0]].port == port);
    }
}

/// Name lookup is exact-match and case-sensitive: every record a name
/// query yields carries exactly the queried character sequence as its
/// name — a record whose name differs in any character, case included, is
/// never yielded. The yielded records appear in canonical order, each
/// exactly once, and every record carrying the name is covered.
pub proof fn lemma_by_name_exact(s: Seq<ServiceView>, name: Seq<char>)
    ensures
        s.filter(name_pred(name)).len() == positions_matching(s, name_pred(name)).len(),
        forall|j: int|
            0 <= j < s.filter(name_pred(name)).len() ==> {
                let p = #[trigger] positions_matching(s, name_pred(name))[j];
                0 <= p < s.len() && s.filter(name_pred(name))[j] == s[p] && s[p].name == name
            },
        forall|j: int, k: int|
            0 <= j < k < positions_matching(s, name_pred(name)).len()
                ==> #[trigger] positions_matching(s, name_pred(name))[j]
                < #[trigger] positions_matching(s, name_pred(name))[k],
        forall|i: int|
            0 <= i < s.len() && (#[trigger] s[i]).name == name ==> positions_matching(
                s,
                name_pred(name),
            ).contains(i),
{
    lemma_positions_matching(s, name_pred(name));
}

/// A query for a name that no record carries yields the empty sequence.
pub proof fn lemma_by_name_absent_empty(s: Seq<ServiceView>, name: Seq<char>)
    requires
        forall|i: int| 0 <= i < s.len() ==> (#[trigger] s[i]).name != name,
    ensures
        s.filter(name_pred(name)).len() == 0,
{
    lemma_positions_matching(s, name_pred(name));
    let pos = positions_matching(s, name_pred(name));
    if s.filter(name_pred(name)).len() > 0 {
        assert(0 <= pos[0] < s.len() && s[pos[0]].name == name);
    }
}

/// Compiling the same source twice yields structurally identical output:
/// the canonical arrays are equal, and every port query and every name
/// query answers identically over the two results.
pub proof fn lemma_compile_deterministic(rows: Seq<RawRowView>, first: Registry, second: Registry)
    requires
        first@ == compiled_services(rows),
        second@ == compiled_services(rows),
    ensures
        first@ == second@,
        forall|port: u16|
            #[trigger] first@.filter(port_pred(port)) == second@.filter(port_pred(port)),
        forall|name: Seq<char>|
            #[trigger] first@.filter(name_pred(name)) == second@.filter(name_pred(name)),
{
}

/// Backward traversal mirrors forward traversal exactly: the reversed
/// sequence has the same length, and its k-th element is the k-th element
/// from the end of the forward sequence. Since consuming a cursor from
/// the back yields, at each step, the last element still remaining,
/// consuming it to exhaustion yields precisely the reverse of what
/// forward consumption yields.
pub proof fn lemma_reverse_traversal(s: Seq<ServiceView>)
    ensures
        s.reverse().len() == s.len(),
        forall|k: int| 0 <= k < s.len() ==> #[trigger] s.reverse()[k] == s[s.len() - 1 - k],
{
}

} // verus!
