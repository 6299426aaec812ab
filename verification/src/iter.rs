//! The query-layer sequence: a finite, bidirectional, exact-size cursor over
//! a fixed selection of records.
//!
//! An [`Iter`] owns its selection, so each query invocation yields a fresh,
//! restartable sequence. Consuming from the front and from the back may be
//! interleaved; the remaining length is reported exactly at any point.

use vstd::prelude::*;

use crate::record::Service;
use crate::record::ServiceView;

verus! {

/// A bidirectional cursor over a selection of services.
#[derive(Clone, Debug)]
pub struct Iter {
    pub(crate) items: Vec<Service>,
    pub(crate) front: usize,
    pub(crate) back: usize,
}

impl Iter {
    /// The cursor bounds lie within the selection.
    pub closed spec fn wf(self) -> bool {
        self.front <= self.back <= self.items@.len()
    }

    /// The values not yet consumed, in order.
    pub closed spec fn remaining(self) -> Seq<ServiceView> {
        self.items@.map_values(|s: Service| s@).subrange(self.front as int, self.back as int)
    }

    /// A fresh cursor over `items`, with everything still to be consumed.
    pub(crate) fn from_items(items: Vec<Service>) -> (r: Iter)
        ensures
            r.wf(),
            r.remaining() == items@.map_values(|s: Service| s@),
    {
        let back = items.len();
        let it = Iter { items, front: 0, back };
        proof {
            assert(it.remaining() =~= it.items@.map_values(|s: Service| s@));
        }
        it
    }

    /// Yield the first remaining record and advance past it; `None` once
    /// nothing remains.
    pub fn next(&mut self) -> (r: Option<Service>)
        requires
            old(self).wf(),
        ensures
            final(self).wf(),
            old(self).remaining().len() == 0 ==> r is None && *final(self) == *old(self),
            old(self).remaining().len() > 0 ==> {
                &&& r is Some
                &&& r->0@ == old(self).remaining()[0]
                &&& final(self).remaining() == old(self).remaining().drop_first()
            },
    {
        if self.front < self.back {
            let item = self.items[self.front].duplicate();
            self.front = self.front + 1;
            proof {
                assert(self.remaining() =~= old(self).remaining().drop_first());
            }
            Option::Some(item)
        } else {
            Option::None
        }
    }

    /// Yield the last remaining record and retreat before it; `None` once
    /// nothing remains.
    pub fn next_back(&mut self) -> (r: Option<Service>)
        requires
            old(self).wf(),
        ensures
            final(self).wf(),
            old(self).remaining().len() == 0 ==> r is None && *final(self) == *old(self),
            old(self).remaining().len() > 0 ==> {
                &&& r is Some
                &&& r->0@ == old(self).remaining().last()
                &&& final(self).remaining() == old(self).remaining().drop_last()
            },
    {
        if self.front < self.back {
            let item = self.items[self.back - 1].duplicate();
            self.back = self.back - 1;
            proof {
                assert(self.remaining() =~= old(self).remaining().drop_last());
            }
            Option::Some(item)
        } else {
            Option::None
        }
    }

    /// The exact number of records that remain to be consumed.
    pub fn len(&self) -> (r: usize)
        requires
            self.wf(),
        ensures
            r == self.remaining().len(),
    {
        self.back - self.front
    }

    /// Lower and upper bound on the remaining length; both are exact.
    pub fn size_hint(&self) -> (r: (usize, Option<usize>))
        requires
            self.wf(),
        ensures
            r.0 == self.remaining().len(),
            r.1 == Option::Some(r.0),
    {
        let n = self.back - self.front;
        (n, Option::Some(n))
    }
}

} // verus!
