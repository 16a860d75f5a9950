//! Walking a subtree with GetNext and GetBulk requests.

use crate::error::SnmpError;
use crate::oid::{spec_contains, spec_parse_dotted, SnmpOid};
use vstd::prelude::*;
use vstd::string::StringSliceAdditionalSpecFns;

verus! {

/// State of a walk: the root of the subtree, the identifier to ask for
/// next and the max-repetitions of GetBulk requests.
#[derive(Debug)]
pub struct GetIter {
    start_oid: SnmpOid,
    next_oid: SnmpOid,
    max_repetitions: i64,
}

/// Model of a walk.
pub struct SpecIter {
    pub start: Seq<u32>,
    pub next: Seq<u32>,
    pub max_repetitions: i64,
}

impl View for GetIter {
    type V = SpecIter;

    closed spec fn view(&self) -> SpecIter {
        SpecIter {
            start: self.start_oid@,
            next: self.next_oid@,
            max_repetitions: self.max_repetitions,
        }
    }
}

/// The walk state after a reply binding with identifier `oid`: the walk
/// moves to `oid` when it lies in the subtree, and stays otherwise.
pub open spec fn spec_advance(it: SpecIter, oid: Seq<u32>) -> SpecIter {
    if spec_contains(it.start, oid) {
        SpecIter { next: oid, ..it }
    } else {
        it
    }
}

/// Every identifier lies in its own subtree.
pub proof fn lemma_contains_self(o: Seq<u32>)
    ensures
        spec_contains(o, o),
{
    assert(o.subrange(0, o.len() as int) =~= o);
}

/// A walk never leaves its subtree: when the identifier to ask for next
/// lies in the walked subtree, it still does after any reply binding,
/// and the root stays the same.
pub proof fn lemma_advance_in_subtree(it: SpecIter, oid: Seq<u32>)
    requires
        spec_contains(it.start, it.next),
    ensures
        spec_advance(it, oid).start == it.start,
        spec_contains(spec_advance(it, oid).start, spec_advance(it, oid).next),
{
}

impl GetIter {
    /// Start a walk of the subtree given in dotted notation; a missing
    /// max-repetitions counts as zero.
    pub fn new(oid: &str, max_repetitions: Option<i64>) -> (r: Result<GetIter, SnmpError>)
        ensures
            match r {
                Ok(it) => spec_parse_dotted(oid.spec_bytes()) == Ok::<Seq<u32>, SnmpError>(
                    it@.start,
                ) && it@.next == it@.start && it@.max_repetitions == match max_repetitions {
                    Some(m) => m,
                    None => 0,
                },
                Err(e) => spec_parse_dotted(oid.spec_bytes()) == Err::<Seq<u32>, SnmpError>(e),
            },
    {
        let b_oid = SnmpOid::from_dotted(oid)?;
        let next = b_oid.copy();
        let m = match max_repetitions {
            Some(m) => m,
            None => 0,
        };
        Ok(GetIter { start_oid: b_oid, next_oid: next, max_repetitions: m })
    }

    /// Identifier to ask for next.
    pub fn get_next_oid(&self) -> (r: SnmpOid)
        ensures
            r@ == self@.next,
    {
        self.next_oid.copy()
    }

    /// Save the identifier of a reply for the next request. Returns
    /// whether the walk may go on, which is when the identifier lies in
    /// the walked subtree.
    pub fn set_next_oid(&mut self, oid: &SnmpOid) -> (r: bool)
        ensures
            r == spec_contains(old(self)@.start, oid@),
            final(self)@ == spec_advance(old(self)@, oid@),
    {
        if self.start_oid.contains(oid) {
            self.next_oid = oid.copy();
            true
        } else {
            false
        }
    }

    /// Max-repetitions of GetBulk requests.
    pub fn get_max_repetitions(&self) -> (r: i64)
        ensures
            r == self@.max_repetitions,
    {
        self.max_repetitions
    }
}

/// State of a walk with GetNext requests.
#[derive(Debug)]
pub struct GetNextIter {
    inner: GetIter,
}

impl View for GetNextIter {
    type V = SpecIter;

    closed spec fn view(&self) -> SpecIter {
        self.inner@
    }
}

impl GetNextIter {
    /// Start a walk of the subtree given in dotted notation.
    pub fn new(oid: &str) -> (r: Result<GetNextIter, SnmpError>)
        ensures
            match r {
                Ok(it) => spec_parse_dotted(oid.spec_bytes()) == Ok::<Seq<u32>, SnmpError>(
                    it@.start,
                ) && it@.next == it@.start && it@.max_repetitions == 0,
                Err(e) => spec_parse_dotted(oid.spec_bytes()) == Err::<Seq<u32>, SnmpError>(e),
            },
    {
        Ok(GetNextIter { inner: GetIter::new(oid, None)? })
    }

    /// Identifier to ask for next.
    pub fn get_next_oid(&self) -> (r: SnmpOid)
        ensures
            r@ == self@.next,
    {
        self.inner.get_next_oid()
    }

    /// Save the identifier of a reply; returns whether the walk may go on.
    pub fn set_next_oid(&mut self, oid: &SnmpOid) -> (r: bool)
        ensures
            r == spec_contains(old(self)@.start, oid@),
            final(self)@ == spec_advance(old(self)@, oid@),
    {
        self.inner.set_next_oid(oid)
    }
}

/// State of a walk with GetBulk requests.
#[derive(Debug)]
pub struct GetBulkIter {
    inner: GetIter,
}

impl View for GetBulkIter {
    type V = SpecIter;

    closed spec fn view(&self) -> SpecIter {
        self.inner@
    }
}

impl GetBulkIter {
    /// Start a walk of the subtree given in dotted notation.
    pub fn new(oid: &str, max_repetitions: i64) -> (r: Result<GetBulkIter, SnmpError>)
        ensures
            match r {
                Ok(it) => spec_parse_dotted(oid.spec_bytes()) == Ok::<Seq<u32>, SnmpError>(
                    it@.start,
                ) && it@.next == it@.start && it@.max_repetitions == max_repetitions,
                Err(e) => spec_parse_dotted(oid.spec_bytes()) == Err::<Seq<u32>, SnmpError>(e),
            },
    {
        Ok(GetBulkIter { inner: GetIter::new(oid, Some(max_repetitions))? })
    }

    /// Identifier to ask for next.
    pub fn get_next_oid(&self) -> (r: SnmpOid)
        ensures
            r@ == self@.next,
    {
        self.inner.get_next_oid()
    }

    /// Save the identifier of a reply; returns whether the walk may go on.
    pub fn set_next_oid(&mut self, oid: &SnmpOid) -> (r: bool)
        ensures
            r == spec_contains(old(self)@.start, oid@),
            final(self)@ == spec_advance(old(self)@, oid@),
    {
        self.inner.set_next_oid(oid)
    }

    /// Max-repetitions of the requests.
    pub fn get_max_repetitions(&self) -> (r: i64)
        ensures
            r == self@.max_repetitions,
    {
        self.inner.get_max_repetitions()
    }
}

} // verus!
