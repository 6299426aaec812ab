//! The compiled registry: the canonical record array together with the two
//! positional indices over it, and the compiler that builds all three from
//! raw rows.
//!
//! The canonical array owns every record, in the order of first appearance in
//! the source after filtering. Each index maps a key (a port, or an exact
//! service name) to the ordered list of array positions whose record carries
//! that key. The structure is built once by [`Registry::compile`] and never
//! mutated afterwards; the query operations only read it.

use vstd::prelude::*;
use vstd::string::StrSliceExecFns;

use crate::iter::Iter;
use crate::record::RawRow;
use crate::record::RawRowView;
use crate::record::Service;
use crate::record::ServiceView;
use crate::record::TransportProtocol;
use crate::record::is_valid_port_str;
use crate::record::parse_port;
use crate::record::parse_protocol;
use crate::record::parsed_port;
use crate::record::protocol_token;

verus! {

/// Match on a record's port.
pub open spec fn port_pred(port: u16) -> spec_fn(ServiceView) -> bool {
    |sv: ServiceView| sv.port == port
}

/// Match on a record's exact, case-sensitive name.
pub open spec fn name_pred(name: Seq<char>) -> spec_fn(ServiceView) -> bool {
    |sv: ServiceView| sv.name == name
}

/// The positions, in increasing order, of the records of `s` that satisfy
/// `pred`. These are the bucket contents an index must hold for a key.
pub open spec fn positions_matching(
    s: Seq<ServiceView>,
    pred: spec_fn(ServiceView) -> bool,
) -> Seq<int>
    decreases s.len(),
{
    if s.len() == 0 {
        Seq::empty()
    } else if pred(s.last()) {
        positions_matching(s.drop_last(), pred).push(s.len() - 1)
    } else {
        positions_matching(s.drop_last(), pred)
    }
}

/// A stored bucket holds exactly the required positions.
pub open spec fn bucket_matches(bucket: Seq<usize>, positions: Seq<int>) -> bool {
    &&& bucket.len() == positions.len()
    &&& forall|j: int| 0 <= j < bucket.len() ==> #[trigger] bucket[j] as int == positions[j]
}

/// The matching positions enumerate the filtered sequence: they are in
/// bounds, strictly increasing, they point at exactly the records the
/// filter keeps, in the same order, and every matching record is covered.
pub proof fn lemma_positions_matching(s: Seq<ServiceView>, pred: spec_fn(ServiceView) -> bool)
    ensures
        positions_matching(s, pred).len() == s.filter(pred).len(),
        forall|j: int|
            0 <= j < positions_matching(s, pred).len() ==> {
                let p = #[trigger] positions_matching(s, pred)[j];
                0 <= p < s.len() && s[p] == s.filter(pred)[j] && pred(s[p])
            },
        forall|j: int, k: int|
            0 <= j < k < positions_matching(s, pred).len()
                ==> #[trigger] positions_matching(s, pred)[j] < #[trigger] positions_matching(
                s,
                pred,
            )[k],
        forall|i: int|
            0 <= i < s.len() && pred(#[trigger] s[i]) ==> positions_matching(s, pred).contains(i),
    decreases s.len(),
{
    reveal(Seq::filter);
    if s.len() > 0 {
        let t = s.drop_last();
        lemma_positions_matching(t, pred);
        let q = positions_matching(t, pred);
        let pos = positions_matching(s, pred);
        assert forall|i: int| 0 <= i < t.len() implies #[trigger] t[i] == s[i] by {}
        assert forall|j: int|
            0 <= j < pos.len() implies {
            let p = #[trigger] pos[j];
            0 <= p < s.len() && s[p] == s.filter(pred)[j] && pred(s[p])
        } by {
            if pred(s.last()) && j == pos.len() - 1 {
                assert(pos[j] == s.len() - 1);
                assert(s.filter(pred)[j] == s.last());
            } else {
                assert(pos[j] == q[j]);
                assert(s.filter(pred)[j] == t.filter(pred)[j]);
                assert(t[q[j]] == s[q[j]]);
            }
        }
        assert forall|j: int, k: int| 0 <= j < k < pos.len() implies pos[j] < pos[k] by {
            if pred(s.last()) && k == pos.len() - 1 {
                assert(pos[j] == q[j]);
                assert(0 <= q[j] < t.len());
            } else {
                assert(pos[j] == q[j] && pos[k] == q[k]);
            }
        }
        assert forall|i: int|
            0 <= i < s.len() && pred(#[trigger] s[i]) implies pos.contains(i) by {
            if i < s.len() - 1 {
                assert(t[i] == s[i]);
                assert(q.contains(i));
                let j = choose|j: int| 0 <= j < q.len() && q[j] == i;
                assert(pos[j] == i);
            } else {
                assert(pos.last() == i);
            }
        }
    }
}

/// Appending a record extends the matching positions of a key it carries
/// by the new position, and leaves every other key's positions unchanged.
pub proof fn lemma_positions_matching_push(
    s: Seq<ServiceView>,
    sv: ServiceView,
    pred: spec_fn(ServiceView) -> bool,
)
    ensures
        positions_matching(s.push(sv), pred) == (if pred(sv) {
            positions_matching(s, pred).push(s.len() as int)
        } else {
            positions_matching(s, pred)
        }),
{
    assert(s.push(sv).drop_last() =~= s);
    assert(s.push(sv).last() == sv);
}

/// One key of the port index with its bucket of canonical-array positions.
struct PortBucket {
    key: u16,
    positions: Vec<usize>,
}

/// One key of the name index with its bucket of canonical-array positions.
struct NameBucket {
    key: String,
    positions: Vec<usize>,
}

/// The port index has a key equal to `port`.
spec fn has_port_key_in(index: Seq<PortBucket>, port: u16) -> bool {
    exists|i: int| 0 <= i < index.len() && (#[trigger] index[i]).key == port
}

/// The name index has a key equal to `name`.
spec fn has_name_key_in(index: Seq<NameBucket>, name: Seq<char>) -> bool {
    exists|i: int| 0 <= i < index.len() && (#[trigger] index[i]).key@ == name
}

/// The port index is sound and complete for the record sequence `s`:
/// keys are unique, every bucket holds exactly the positions of the
/// records carrying its key, in order, and every port carried by some
/// record has a key.
spec fn port_index_wf(index: Seq<PortBucket>, s: Seq<ServiceView>) -> bool {
    &&& forall|i: int, j: int|
        0 <= i < j < index.len() ==> (#[trigger] index[i]).key != (#[trigger] index[j]).key
    &&& forall|i: int|
        0 <= i < index.len() ==> bucket_matches(
            (#[trigger] index[i]).positions@,
            positions_matching(s, port_pred(index[i].key)),
        )
    &&& forall|port: u16|
        positions_matching(s, #[trigger] port_pred(port)).len() > 0 ==> has_port_key_in(
            index,
            port,
        )
}

/// The name index is sound and complete for the record sequence `s`.
spec fn name_index_wf(index: Seq<NameBucket>, s: Seq<ServiceView>) -> bool {
    &&& forall|i: int, j: int|
        0 <= i < j < index.len() ==> (#[trigger] index[i]).key@ != (#[trigger] index[j]).key@
    &&& forall|i: int|
        0 <= i < index.len() ==> bucket_matches(
            (#[trigger] index[i]).positions@,
            positions_matching(s, name_pred(index[i].key@)),
        )
    &&& forall|name: Seq<char>|
        positions_matching(s, #[trigger] name_pred(name)).len() > 0 ==> has_name_key_in(
            index,
            name,
        )
}

/// Why compilation aborted.
#[derive(Clone, Copy, Debug, PartialEq, Eq, Structural)]
pub enum CompileError {
    /// A row's transport protocol field held a token that is not one of
    /// the recognized ones: a sign the input schema changed.
    UnrecognizedTransportProtocol,
}

/// The values of a sequence of raw rows.
pub open spec fn rows_view(rows: Seq<RawRow>) -> Seq<RawRowView> {
    rows.map_values(|r: RawRow| r@)
}

/// A row's transport protocol field, when present, holds a recognized
/// token. A row that fails this aborts compilation.
pub open spec fn row_protocol_ok(r: RawRowView) -> bool {
    match r.transport_protocol {
        Option::None => true,
        Option::Some(t) => protocol_token(t) is Some,
    }
}

/// A row with an empty name or an unparsable port is silently dropped.
pub open spec fn row_skipped(r: RawRowView) -> bool {
    r.name.len() == 0 || !is_valid_port_str(r.port)
}

/// The first well-formed row whose port leaves the system-port range halts
/// processing; later rows are never considered.
pub open spec fn row_stops(r: RawRowView) -> bool {
    !row_skipped(r) && parsed_port(r.port) >= 1024
}

/// A row that is neither dropped nor halting becomes a record.
pub open spec fn row_retained(r: RawRowView) -> bool {
    !row_skipped(r) && parsed_port(r.port) < 1024
}

/// The record a retained row denotes.
pub open spec fn row_record(r: RawRowView) -> ServiceView {
    ServiceView {
        name: r.name,
        port: parsed_port(r.port),
        transport_protocol: match r.transport_protocol {
            Option::None => Option::None,
            Option::Some(t) => protocol_token(t),
        },
    }
}

/// Whether compiling `rows` succeeds: rows are processed front to back,
/// and every row seen before processing halts must pass the protocol
/// check.
pub open spec fn compile_succeeds(rows: Seq<RawRowView>) -> bool
    decreases rows.len(),
{
    if rows.len() == 0 {
        true
    } else if !row_protocol_ok(rows[0]) {
        false
    } else if row_stops(rows[0]) {
        true
    } else {
        compile_succeeds(rows.drop_first())
    }
}

/// The canonical record sequence that compiling `rows` retains: the
/// records of the retained rows, in source order, up to the first halting
/// row (or the first offending row, past which nothing is retained).
pub open spec fn compiled_services(rows: Seq<RawRowView>) -> Seq<ServiceView>
    decreases rows.len(),
{
    if rows.len() == 0 {
        Seq::empty()
    } else if !row_protocol_ok(rows[0]) {
        Seq::empty()
    } else if row_stops(rows[0]) {
        Seq::empty()
    } else if row_skipped(rows[0]) {
        compiled_services(rows.drop_first())
    } else {
        seq![row_record(rows[0])] + compiled_services(rows.drop_first())
    }
}

/// The immutable compiled registry: canonical record array, port index and
/// name index.
pub struct Registry {
    services: Vec<Service>,
    by_port: Vec<PortBucket>,
    by_name: Vec<NameBucket>,
}

impl View for Registry {
    type V = Seq<ServiceView>;

    /// The canonical array, as the sequence of its record values.
    closed spec fn view(&self) -> Seq<ServiceView> {
        self.services@.map_values(|s: Service| s@)
    }
}

impl Registry {
    /// Well-formedness: both indices are sound and complete for the
    /// canonical array.
    pub closed spec fn wf(self) -> bool {
        &&& port_index_wf(self.by_port@, self@)
        &&& name_index_wf(self.by_name@, self@)
    }

    /// Where the port index holds `port`, if anywhere.
    fn find_port_bucket(&self, port: u16) -> (r: Option<usize>)
        ensures
            match r {
                Option::Some(b) => b < self.by_port@.len() && self.by_port@[b as int].key == port,
                Option::None => !has_port_key_in(self.by_port@, port),
            },
    {
        let n = self.by_port.len();
        let mut i: usize = 0;
        while i < n
            invariant
                i <= n,
                n == self.by_port@.len(),
                forall|k: int| 0 <= k < i ==> (#[trigger] self.by_port@[k]).key != port,
            decreases n - i,
        {
            if self.by_port[i].key == port {
                return Option::Some(i);
            }
            i = i + 1;
        }
        Option::None
    }

    /// Where the name index holds `name`, if anywhere.
    fn find_name_bucket(&self, name: &str) -> (r: Option<usize>)
        ensures
            match r {
                Option::Some(b) => b < self.by_name@.len() && self.by_name@[b as int].key@
                    == name@,
                Option::None => !has_name_key_in(self.by_name@, name@),
            },
    {
        let n = self.by_name.len();
        let mut i: usize = 0;
        while i < n
            invariant
                i <= n,
                n == self.by_name@.len(),
                forall|k: int| 0 <= k < i ==> (#[trigger] self.by_name@[k]).key@ != name@,
            decreases n - i,
        {
            if str_eq(self.by_name[i].key.as_str(), name) {
                return Option::Some(i);
            }
            i = i + 1;
        }
        Option::None
    }

    /// Compile raw rows into a registry: validate and filter each row in
    /// order, stop at the first well-formed row outside the system-port
    /// range, and index every retained record by port and by name. Aborts,
    /// producing no structure at all, exactly when a processed row carries
    /// an unrecognized transport protocol token.
    pub fn compile(rows: &Vec<RawRow>) -> (r: Result<Registry, CompileError>)
        ensures
            r is Ok <==> compile_succeeds(rows_view(rows@)),
            r matches Result::Ok(reg) ==> reg.wf() && reg@ == compiled_services(rows_view(rows@)),
    {
        let ghost rv = rows_view(rows@);
        let mut reg = Registry { services: Vec::new(), by_port: Vec::new(), by_name: Vec::new() };
        proof {
            assert(reg@ =~= Seq::<ServiceView>::empty());
            assert(port_index_wf(reg.by_port@, reg@));
            assert(name_index_wf(reg.by_name@, reg@));
            assert(rv.skip(0) =~= rv);
            assert(reg@ + compiled_services(rv) =~= compiled_services(rv));
        }
        let n = rows.len();
        let mut idx: usize = 0;
        let mut stopped = false;
        while idx < n && !stopped
            invariant
                idx <= n,
                n == rows@.len(),
                rv == rows_view(rows@),
                rv.len() == n,
                reg.wf(),
                stopped ==> compile_succeeds(rv) && compiled_services(rv) == reg@,
                !stopped ==> (compile_succeeds(rv) <==> compile_succeeds(rv.skip(idx as int))),
                !stopped ==> compiled_services(rv) == reg@ + compiled_services(rv.skip(idx as int)),
            decreases n - idx, (if stopped { 0int } else { 1int }),
        {
            let ghost tail = rv.skip(idx as int);
            let row = &rows[idx];
            proof {
                assert(rv[idx as int] == row@);
                assert(tail[0] == rv[idx as int]);
                assert(tail.drop_first() =~= rv.skip(idx as int + 1));
            }
            let transport_protocol: Option<TransportProtocol> = match &row.transport_protocol {
                Option::None => Option::None,
                Option::Some(t) => match parse_protocol(t.as_str()) {
                    Option::Some(p) => Option::Some(p),
                    Option::None => {
                        proof {
                            assert(!row_protocol_ok(tail[0]));
                            assert(!compile_succeeds(tail));
                        }
                        return Result::Err(CompileError::UnrecognizedTransportProtocol);
                    },
                },
            };
            if row.name.as_str().is_empty() {
                proof {
                    assert(row_skipped(tail[0]));
                    assert(compile_succeeds(tail) == compile_succeeds(tail.drop_first()));
                    assert(compiled_services(tail) == compiled_services(tail.drop_first()));
                }
                idx = idx + 1;
            } else {
                match parse_port(row.port.as_str()) {
                    Option::None => {
                        proof {
                            assert(row_skipped(tail[0]));
                            assert(compile_succeeds(tail) == compile_succeeds(tail.drop_first()));
                            assert(compiled_services(tail) == compiled_services(tail.drop_first()));
                        }
                        idx = idx + 1;
                    },
                    Option::Some(port) => {
                        if port >= 1024 {
                            proof {
                                assert(row_stops(tail[0]));
                                assert(compile_succeeds(tail));
                                assert(compiled_services(tail) == Seq::<ServiceView>::empty());
                                assert(reg@ + compiled_services(tail) =~= reg@);
                            }
                            stopped = true;
                        } else {
                            let svc = Service {
                                name: row.name.clone(),
                                port,
                                transport_protocol,
                            };
                            proof {
                                assert(row_retained(tail[0]));
                                assert(svc@ =~= row_record(tail[0]));
                                assert(compile_succeeds(tail) == compile_succeeds(
                                    tail.drop_first(),
                                ));
                                assert(compiled_services(tail) == seq![row_record(tail[0])]
                                    + compiled_services(tail.drop_first()));
                            }
                            let ghost reg0 = reg@;
                            reg.add_record(svc);
                            proof {
                                assert(reg@ == reg0.push(row_record(tail[0])));
                                assert(reg@ + compiled_services(rv.skip(idx as int + 1)) =~= reg0
                                    + compiled_services(tail));
                            }
                            idx = idx + 1;
                        }
                    },
                }
            }
        }
        proof {
            if !stopped {
                assert(rv.skip(idx as int) =~= Seq::<RawRowView>::empty());
                assert(compiled_services(rv.skip(idx as int)) == Seq::<ServiceView>::empty());
                assert(reg@ + compiled_services(rv.skip(idx as int)) =~= reg@);
            }
        }
        Result::Ok(reg)
    }

    /// Iterate over all retained records, in canonical order. Each call
    /// yields a fresh sequence whose exact length is the number of rows
    /// that passed filtering.
    pub fn iter(&self) -> (r: Iter)
        ensures
            r.wf(),
            r.remaining() == self@,
    {
        let mut items: Vec<Service> = Vec::new();
        let n = self.services.len();
        let mut i: usize = 0;
        while i < n
            invariant
                i <= n,
                n == self.services@.len(),
                self@.len() == n,
                items@.len() == i,
                forall|k: int| 0 <= k < i ==> (#[trigger] items@[k])@ == self@[k],
            decreases n - i,
        {
            let svc = self.services[i].duplicate();
            items.push(svc);
            i = i + 1;
        }
        proof {
            assert(items@.map_values(|s: Service| s@) =~= self@);
        }
        Iter::from_items(items)
    }

    /// Iterate over the records that use `port`, in canonical order; an
    /// empty sequence, never an error, when no record uses it.
    pub fn by_port(&self, port: u16) -> (r: Iter)
        requires
            self.wf(),
        ensures
            r.wf(),
            r.remaining() == self@.filter(port_pred(port)),
    {
        proof {
            lemma_positions_matching(self@, port_pred(port));
        }
        let ghost target = self@.filter(port_pred(port));
        let ghost pos = positions_matching(self@, port_pred(port));
        let mut items: Vec<Service> = Vec::new();
        match self.find_port_bucket(port) {
            Option::None => {
                proof {
                    assert(pos.len() == 0);
                    assert(target.len() == 0);
                }
            },
            Option::Some(b) => {
                let m = self.by_port[b].positions.len();
                proof {
                    assert(bucket_matches(self.by_port@[b as int].positions@, pos));
                }
                let mut j: usize = 0;
                while j < m
                    invariant
                        j <= m,
                        b < self.by_port@.len(),
                        bucket_matches(self.by_port@[b as int].positions@, pos),
                        m == self.by_port@[b as int].positions@.len(),
                        pos.len() == target.len(),
                        forall|k: int|
                            0 <= k < pos.len() ==> 0 <= #[trigger] pos[k] < self@.len()
                                && self@[pos[k]] == target[k],
                        self@.len() == self.services@.len(),
                        items@.len() == j,
                        forall|k: int| 0 <= k < j ==> (#[trigger] items@[k])@ == target[k],
                    decreases m - j,
                {
                    let p = self.by_port[b].positions[j];
                    proof {
                        assert(p as int == pos[j as int]);
                    }
                    let svc = self.services[p].duplicate();
                    items.push(svc);
                    j = j + 1;
                }
            },
        }
        proof {
            assert(items@.map_values(|s: Service| s@) =~= target);
        }
        Iter::from_items(items)
    }

    /// Iterate over the records whose name equals `name` exactly, case
    /// included, in canonical order; an empty sequence, never an error,
    /// when none does.
    pub fn by_name(&self, name: &str) -> (r: Iter)
        requires
            self.wf(),
        ensures
            r.wf(),
            r.remaining() == self@.filter(name_pred(name@)),
    {
        proof {
            lemma_positions_matching(self@, name_pred(name@));
        }
        let ghost target = self@.filter(name_pred(name@));
        let ghost pos = positions_matching(self@, name_pred(name@));
        let mut items: Vec<Service> = Vec::new();
        match self.find_name_bucket(name) {
            Option::None => {
                proof {
                    assert(pos.len() == 0);
                    assert(target.len() == 0);
                }
            },
            Option::Some(b) => {
                let m = self.by_name[b].positions.len();
                proof {
                    assert(bucket_matches(self.by_name@[b as int].positions@, pos));
                }
                let mut j: usize = 0;
                while j < m
                    invariant
                        j <= m,
                        b < self.by_name@.len(),
                        bucket_matches(self.by_name@[b as int].positions@, pos),
                        m == self.by_name@[b as int].positions@.len(),
                        pos.len() == target.len(),
                        forall|k: int|
                            0 <= k < pos.len() ==> 0 <= #[trigger] pos[k] < self@.len()
                                && self@[pos[k]] == target[k],
                        self@.len() == self.services@.len(),
                        items@.len() == j,
                        forall|k: int| 0 <= k < j ==> (#[trigger] items@[k])@ == target[k],
                    decreases m - j,
                {
                    let p = self.by_name[b].positions[j];
                    proof {
                        assert(p as int == pos[j as int]);
                    }
                    let svc = self.services[p].duplicate();
                    items.push(svc);
                    j = j + 1;
                }
            },
        }
        proof {
            assert(items@.map_values(|s: Service| s@) =~= target);
        }
        Iter::from_items(items)
    }

    /// Append a validated record to the canonical array and register its
    /// position under its port and its name, creating buckets as needed.
    fn add_record(&mut self, svc: Service)
        requires
            old(self).wf(),
        ensures
            final(self).wf(),
            final(self)@ == old(self)@.push(svc@),
    {
        let ghost s0 = self@;
        let ghost sv = svc@;
        let ghost s1 = s0.push(sv);
        let pos = self.services.len();
        let port = svc.port;
        let name = svc.name.clone();
        proof {
            assert(pos as int == s0.len());
            assert(name@ == sv.name);
            assert(port == sv.port);
            assert forall|p: u16|
                #[trigger] positions_matching(s1, port_pred(p)) == (if sv.port == p {
                    positions_matching(s0, port_pred(p)).push(s0.len() as int)
                } else {
                    positions_matching(s0, port_pred(p))
                }) by {
                lemma_positions_matching_push(s0, sv, port_pred(p));
            }
            assert forall|n: Seq<char>|
                #[trigger] positions_matching(s1, name_pred(n)) == (if sv.name == n {
                    positions_matching(s0, name_pred(n)).push(s0.len() as int)
                } else {
                    positions_matching(s0, name_pred(n))
                }) by {
                lemma_positions_matching_push(s0, sv, name_pred(n));
            }
        }
        self.services.push(svc);
        proof {
            assert(self@ =~= s1);
        }
        match self.find_port_bucket(port) {
            Option::Some(b) => {
                let ghost bp0 = self.by_port@;
                self.by_port[b].positions.push(pos);
                proof {
                    let bp1 = self.by_port@;
                    assert(bp1[b as int].key == bp0[b as int].key);
                    assert(bp1[b as int].positions@ == bp0[b as int].positions@.push(pos));
                    assert forall|i: int| 0 <= i < bp1.len() && i != b as int
                        implies bp1[i] == bp0[i] by {}
                    assert forall|i: int|
                        0 <= i < bp1.len() implies bucket_matches(
                        (#[trigger] bp1[i]).positions@,
                        positions_matching(s1, port_pred(bp1[i].key)),
                    ) by {
                        if i == b as int {
                            assert(bp1[i].key == port);
                            assert(bucket_matches(
                                bp0[i].positions@,
                                positions_matching(s0, port_pred(port)),
                            ));
                        } else {
                            assert(bp0[i].key != port);
                            assert(bucket_matches(
                                bp0[i].positions@,
                                positions_matching(s0, port_pred(bp0[i].key)),
                            ));
                        }
                    }
                    assert forall|p: u16|
                        positions_matching(s1, #[trigger] port_pred(p)).len() > 0
                        implies has_port_key_in(bp1, p) by {
                        if p == port {
                            assert(bp1[b as int].key == p);
                        } else {
                            assert(positions_matching(s0, port_pred(p)).len() > 0);
                            let i = choose|i: int|
                                0 <= i < bp0.len() && (#[trigger] bp0[i]).key == p;
                            assert(bp1[i].key == p);
                        }
                    }
                    assert(port_index_wf(bp1, s1));
                }
            },
            Option::None => {
                let ghost bp0 = self.by_port@;
                let mut positions: Vec<usize> = Vec::new();
                positions.push(pos);
                self.by_port.push(PortBucket { key: port, positions });
                proof {
                    let bp1 = self.by_port@;
                    assert forall|i: int| 0 <= i < bp0.len() implies bp1[i] == bp0[i] by {}
                    assert forall|i: int| 0 <= i < bp0.len() implies (#[trigger] bp0[i]).key
                        != port by {}
                    assert(positions_matching(s0, port_pred(port)).len() == 0);
                    assert(positions_matching(s0, port_pred(port)) =~= Seq::<int>::empty());
                    assert(positions_matching(s1, port_pred(port)) == Seq::<int>::empty().push(
                        s0.len() as int,
                    ));
                    assert forall|i: int|
                        0 <= i < bp1.len() implies bucket_matches(
                        (#[trigger] bp1[i]).positions@,
                        positions_matching(s1, port_pred(bp1[i].key)),
                    ) by {
                        if i < bp0.len() {
                            assert(bucket_matches(
                                bp0[i].positions@,
                                positions_matching(s0, port_pred(bp0[i].key)),
                            ));
                        } else {
                            assert(bp1[i].key == port);
                            assert(bp1[i].positions@ == Seq::<usize>::empty().push(pos));
                        }
                    }
                    assert forall|p: u16|
                        positions_matching(s1, #[trigger] port_pred(p)).len() > 0
                        implies has_port_key_in(bp1, p) by {
                        if p == port {
                            assert(bp1[bp0.len() as int].key == p);
                        } else {
                            assert(positions_matching(s0, port_pred(p)).len() > 0);
                            let i = choose|i: int|
                                0 <= i < bp0.len() && (#[trigger] bp0[i]).key == p;
                            assert(bp1[i].key == p);
                        }
                    }
                    assert(port_index_wf(bp1, s1));
                }
            },
        }
        match self.find_name_bucket(name.as_str()) {
            Option::Some(b) => {
                let ghost bn0 = self.by_name@;
                self.by_name[b].positions.push(pos);
                proof {
                    let bn1 = self.by_name@;
                    assert(bn1[b as int].key@ == bn0[b as int].key@);
                    assert(bn1[b as int].positions@ == bn0[b as int].positions@.push(pos));
                    assert forall|i: int| 0 <= i < bn1.len() && i != b as int
                        implies bn1[i] == bn0[i] by {}
                    assert forall|i: int|
                        0 <= i < bn1.len() implies bucket_matches(
                        (#[trigger] bn1[i]).positions@,
                        positions_matching(s1, name_pred(bn1[i].key@)),
                    ) by {
                        if i == b as int {
                            assert(bn1[i].key@ == sv.name);
                            assert(bucket_matches(
                                bn0[i].positions@,
                                positions_matching(s0, name_pred(sv.name)),
                            ));
                        } else {
                            assert(bn0[i].key@ != sv.name);
                            assert(bucket_matches(
                                bn0[i].positions@,
                                positions_matching(s0, name_pred(bn0[i].key@)),
                            ));
                        }
                    }
                    assert forall|n: Seq<char>|
                        positions_matching(s1, #[trigger] name_pred(n)).len() > 0
                        implies has_name_key_in(bn1, n) by {
                        if n == sv.name {
                            assert(bn1[b as int].key@ == n);
                        } else {
                            assert(positions_matching(s0, name_pred(n)).len() > 0);
                            let i = choose|i: int|
                                0 <= i < bn0.len() && (#[trigger] bn0[i]).key@ == n;
                            assert(bn1[i].key@ == n);
                        }
                    }
                    assert(name_index_wf(bn1, s1));
                }
            },
            Option::None => {
                let ghost bn0 = self.by_name@;
                let mut positions: Vec<usize> = Vec::new();
                positions.push(pos);
                self.by_name.push(NameBucket { key: name, positions });
                proof {
                    let bn1 = self.by_name@;
                    assert forall|i: int| 0 <= i < bn0.len() implies bn1[i] == bn0[i] by {}
                    assert forall|i: int| 0 <= i < bn0.len() implies (#[trigger] bn0[i]).key@
                        != sv.name by {}
                    assert(positions_matching(s0, name_pred(sv.name)).len() == 0);
                    assert(positions_matching(s0, name_pred(sv.name)) =~= Seq::<int>::empty());
                    assert(positions_matching(s1, name_pred(sv.name)) == Seq::<int>::empty().push(
                        s0.len() as int,
                    ));
                    assert forall|i: int|
                        0 <= i < bn1.len() implies bucket_matches(
                        (#[trigger] bn1[i]).positions@,
                        positions_matching(s1, name_pred(bn1[i].key@)),
                    ) by {
                        if i < bn0.len() {
                            assert(bucket_matches(
                                bn0[i].positions@,
                                positions_matching(s0, name_pred(bn0[i].key@)),
                            ));
                        } else {
                            assert(bn1[i].key@ == sv.name);
                            assert(bn1[i].positions@ == Seq::<usize>::empty().push(pos));
                        }
                    }
                    assert forall|n: Seq<char>|
                        positions_matching(s1, #[trigger] name_pred(n)).len() > 0
                        implies has_name_key_in(bn1, n) by {
                        if n == sv.name {
                            assert(bn1[bn0.len() as int].key@ == n);
                        } else {
                            assert(positions_matching(s0, name_pred(n)).len() > 0);
                            let i = choose|i: int|
                                0 <= i < bn0.len() && (#[trigger] bn0[i]).key@ == n;
                            assert(bn1[i].key@ == n);
                        }
                    }
                    assert(name_index_wf(bn1, s1));
                }
            },
        }
        proof {
            assert(self@ =~= s1);
            assert(port_index_wf(self.by_port@, s1));
        }
    }
}

/// Exact, case-sensitive equality of two strings.
fn str_eq(a: &str, b: &str) -> (r: bool)
    ensures
        r == (a@ == b@),
{
    let n = a.unicode_len();
    if n != b.unicode_len() {
        return false;
    }
    let mut i: usize = 0;
    while i < n
        invariant
            i <= n,
            n == a@.len(),
            n == b@.len(),
            forall|k: int| 0 <= k < i ==> a@[k] == b@[k],
        decreases n - i,
    {
        if a.get_char(i) != b.get_char(i) {
            return false;
        }
        i = i + 1;
    }
    proof {
        assert(a@ =~= b@);
    }
    true
}

} // verus!
