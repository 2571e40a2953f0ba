use vstd::prelude::*;

verus! {

/// A hasher whose digest is the last `u64` written to it, for keys that are
/// already well-distributed hashes.
pub struct IdentityHasher(u64);

impl View for IdentityHasher {
    type V = u64;

    closed spec fn view(&self) -> u64 {
        self.0
    }
}

impl Default for IdentityHasher {
    fn default() -> (r: Self)
        ensures
            r@ == 0,
    {
        IdentityHasher(0)
    }
}

impl IdentityHasher {
    /// The digest: the last value written, or zero if none was.
    pub fn finish(&self) -> (r: u64)
        ensures
            r == self@,
    {
        self.0
    }

    /// Records `n` as the digest.
    pub fn write_u64(&mut self, n: u64)
        ensures
            final(self)@ == n,
    {
        self.0 = n;
    }
}

} // verus!
