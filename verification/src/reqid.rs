//! Request identifiers.

use vstd::prelude::*;

verus! {

/// Calls `rand::random::<i64>()`, which draws a value from the
/// thread-local random generator. Nothing is promised of the value.
#[verifier::external_body]
fn random_i64() -> (r: i64) {
    rand::random::<i64>()
}

/// The identifier of the request in flight. Each new request gets a
/// fresh random identifier in `0..=0x7fffffff`; a reply is ours when it
/// carries the same identifier.
#[derive(Debug)]
pub struct RequestId {
    id: i64,
}

impl View for RequestId {
    type V = i64;

    closed spec fn view(&self) -> i64 {
        self.id
    }
}

impl RequestId {
    /// A fresh tracker; no request has been issued.
    pub fn new() -> (r: RequestId)
        ensures
            r@ == 0,
    {
        RequestId { id: 0 }
    }

    /// Draw the identifier of the next request and remember it.
    pub fn get_next(&mut self) -> (r: i64)
        ensures
            0 <= r <= 0x7fff_ffff,
            final(self)@ == r,
    {
        let x = random_i64();
        self.set_from_random(x)
    }

    /// Take the low 31 bits of the random value `x` as the identifier of
    /// the next request and remember it.
    pub fn set_from_random(&mut self, x: i64) -> (r: i64)
        ensures
            r == x & 0x7fff_ffff,
            0 <= r <= 0x7fff_ffff,
            final(self)@ == r,
    {
        let r = x & 0x7fff_ffff;
        assert(0 <= x & 0x7fff_ffff <= 0x7fff_ffff) by (bit_vector);
        self.id = r;
        r
    }

    /// Identifier of the request in flight.
    pub fn current(&self) -> (r: i64)
        ensures
            r == self@,
    {
        self.id
    }

    /// Whether `id` is the identifier of the request in flight.
    pub fn check(&self, id: i64) -> (r: bool)
        ensures
            r == (id == self@),
    {
        self.id == id
    }
}

impl Default for RequestId {
    fn default() -> (r: RequestId)
        ensures
            r@ == 0,
    {
        RequestId::new()
    }
}

} // verus!
