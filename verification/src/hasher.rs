use vstd::prelude::*;

verus! {

/// One step of the djb2 hash: `h * 33 + b`, wrapping at 64 bits.
pub open spec fn djb2_step(h: u64, b: u8) -> u64 {
    ((h as int * 33 + b as int) % 0x1_0000_0000_0000_0000) as u64
}

/// The djb2 hash of `bytes`, continued from the running value `h`.
pub open spec fn djb2_from(h: u64, bytes: Seq<u8>) -> u64
    decreases bytes.len(),
{
    if bytes.len() == 0 {
        h
    } else {
        djb2_step(djb2_from(h, bytes.drop_last()), bytes.last())
    }
}

/// The djb2 hash of `bytes`, started from 5381.
pub open spec fn djb2(bytes: Seq<u8>) -> u64 {
    djb2_from(5381, bytes)
}

/// The djb2 hash of the `n` low bytes of `x`, lowest first, continued from `h`.
pub open spec fn djb2_int(h: u64, x: nat, n: nat) -> u64
    decreases n,
{
    if n == 0 {
        h
    } else {
        djb2_int(djb2_step(h, (x % 256) as u8), x / 256, (n - 1) as nat)
    }
}

/// A running djb2 hash.
pub struct Djb2Hasher {
    hash: u64,
}

impl Djb2Hasher {
    /// The running hash value.
    pub closed spec fn value(&self) -> u64 {
        self.hash
    }

    /// A hasher at the start value of djb2.
    pub fn new() -> (hasher: Djb2Hasher)
        ensures
            hasher.value() == 5381,
    {
        Djb2Hasher { hash: 5381 }
    }

    /// The hash of what was fed so far.
    pub fn finish(&self) -> (h: u64)
        ensures
            h == self.value(),
    {
        self.hash
    }

    /// Feeds one byte to the hash.
    pub fn write_u8(&mut self, byte: u8)
        ensures
            final(self).value() == djb2_step(old(self).value(), byte),
    {
        let h: u64 = self.hash;
        let shifted: u64 = h << 5;
        assert(shifted == ((h as int * 32) % 0x1_0000_0000_0000_0000) as u64) by (bit_vector)
            requires
                shifted == h << 5,
        ;
        self.hash = shifted.wrapping_add(h).wrapping_add(byte as u64);
    }

    /// Feeds `bytes` to the hash, first to last.
    pub fn write(&mut self, bytes: &[u8])
        ensures
            final(self).value() == djb2_from(old(self).value(), bytes@),
    {
        let mut i: usize = 0;
        while i < bytes.len()
            invariant
                i <= bytes.len(),
                self.value() == djb2_from(old(self).value(), bytes@.take(i as int)),
            decreases bytes.len() - i,
        {
            self.write_u8(bytes[i]);
            proof {
                assert(bytes@.take(i + 1).drop_last() =~= bytes@.take(i as int));
            }
            i += 1;
        }
        proof {
            assert(bytes@.take(i as int) =~= bytes@);
        }
    }

    /// Feeds the `n` low bytes of `x` to the hash, lowest first.
    pub fn write_int(&mut self, x: u64, n: u8)
        ensures
            final(self).value() == djb2_int(old(self).value(), x as nat, n as nat),
    {
        let mut rest: u64 = x;
        let mut left: u8 = n;
        while left > 0
            invariant
                djb2_int(self.value(), rest as nat, left as nat) == djb2_int(
                    old(self).value(),
                    x as nat,
                    n as nat,
                ),
            decreases left,
        {
            self.write_u8((rest % 256) as u8);
            rest = rest / 256;
            left -= 1;
        }
    }
}

} // verus!
