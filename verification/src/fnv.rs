//! The 64-bit Fowler-Noll-Vo hash, variant 1a: every byte is mixed into the
//! state by an exclusive or, and the state is then multiplied by a fixed prime
//! modulo two to the sixty-fourth.

use vstd::prelude::*;

verus! {

/// The state before any byte has been hashed.
pub const FNV_OFFSET_BASIS: u64 = 0xcbf2_9ce4_8422_2325;

/// The multiplier of every step.
pub const FNV_PRIME: u64 = 0x0000_0100_0000_01b3;

/// The state after one more byte.
pub open spec fn fnv_step(state: u64, byte: u8) -> u64 {
    (((state ^ (byte as u64)) as nat * FNV_PRIME as nat) % 0x1_0000_0000_0000_0000) as u64
}

/// The state after the bytes of `bytes`, in order, starting from `state`.
pub open spec fn fnv_fold(state: u64, bytes: Seq<u8>) -> u64
    decreases bytes.len(),
{
    if bytes.len() == 0 {
        state
    } else {
        fnv_step(fnv_fold(state, bytes.drop_last()), bytes.last())
    }
}

/// The digest of a byte string.
pub open spec fn fnv1a(bytes: Seq<u8>) -> u64 {
    fnv_fold(FNV_OFFSET_BASIS, bytes)
}

/// A running hash; its view is the state reached so far.
#[derive(Clone, Copy)]
pub struct FnvHasher {
    state: u64,
}

impl View for FnvHasher {
    type V = u64;

    closed spec fn view(&self) -> u64 {
        self.state
    }
}

impl Default for FnvHasher {
    /// A hasher that has seen no byte yet.
    fn default() -> (h: Self)
        ensures
            h@ == FNV_OFFSET_BASIS,
    {
        FnvHasher { state: FNV_OFFSET_BASIS }
    }
}

impl FnvHasher {
    /// Feeds `bytes` to the hasher.
    pub fn write(&mut self, bytes: &[u8])
        ensures
            final(self)@ == fnv_fold(old(self)@, bytes@),
    {
        let mut state: u64 = self.state;
        let mut i: usize = 0;
        while i < bytes.len()
            invariant
                i <= bytes.len(),
                state == fnv_fold(old(self)@, bytes@.take(i as int)),
            decreases bytes.len() - i,
        {
            proof {
                assert(bytes@.take(i + 1).drop_last() =~= bytes@.take(i as int));
            }
            state = (state ^ (bytes[i] as u64)).wrapping_mul(FNV_PRIME);
            i = i + 1;
        }
        proof {
            assert(bytes@.take(bytes.len() as int) =~= bytes@);
        }
        self.state = state;
    }

    /// The digest of everything written so far.
    pub fn finish(&self) -> (digest: u64)
        ensures
            digest == self@,
    {
        self.state
    }
}

} // verus!
