use crate::hasher::{djb2_from, djb2_int, Djb2Hasher};
use vstd::prelude::*;

verus! {

/// A value that can key a hash map: it is identified by its view, hashed by
/// feeding bytes that depend on the view alone, and can be copied.
pub trait Key: View + Sized {
    /// The running hash `h` after the key with view `v` was fed to it.
    spec fn fed(h: u64, v: Self::V) -> u64;

    /// Feeds the key to `hasher`.
    fn feed(&self, hasher: &mut Djb2Hasher)
        ensures
            final(hasher).value() == Self::fed(old(hasher).value(), self@),
    ;

    /// Whether two keys are the same key.
    fn same(&self, other: &Self) -> (b: bool)
        ensures
            b == (self@ == other@),
    ;

    /// A copy of the key.
    fn duplicate(&self) -> (k: Self)
        ensures
            k@ == self@,
    ;
}

/// The hash of the key with view `v`: what a fresh hasher holds after the key
/// was fed to it.
pub open spec fn key_hash<K: Key>(v: K::V) -> u64 {
    K::fed(5381, v)
}

/// The bytes that a string feeds to the hasher: its UTF-8 encoding, then `0xff`.
pub open spec fn str_feed(v: Seq<char>) -> Seq<u8> {
    vstd::utf8::encode_utf8(v).push(0xff)
}

impl Key for String {
    open spec fn fed(h: u64, v: Seq<char>) -> u64 {
        djb2_from(h, str_feed(v))
    }

    fn feed(&self, hasher: &mut Djb2Hasher) {
        hasher.write(self.as_str().as_bytes());
        hasher.write_u8(0xff);
        proof {
            assert(str_feed(self@).drop_last() =~= vstd::utf8::encode_utf8(self@));
        }
    }

    fn same(&self, other: &Self) -> (b: bool) {
        *self == *other
    }

    fn duplicate(&self) -> (k: Self) {
        self.clone()
    }
}

impl<'a> Key for &'a str {
    open spec fn fed(h: u64, v: Seq<char>) -> u64 {
        djb2_from(h, str_feed(v))
    }

    fn feed(&self, hasher: &mut Djb2Hasher) {
        hasher.write(self.as_bytes());
        hasher.write_u8(0xff);
        proof {
            assert(str_feed(self@).drop_last() =~= vstd::utf8::encode_utf8(self@));
        }
    }

    fn same(&self, other: &Self) -> (b: bool) {
        let a = self.as_bytes();
        let b = other.as_bytes();
        if a.len() != b.len() {
            proof {
                if self@ == other@ {
                    assert(a@ == b@);
                }
            }
            return false;
        }
        let mut i: usize = 0;
        while i < a.len()
            invariant
                i <= a.len(),
                a.len() == b.len(),
                a@ == vstd::utf8::encode_utf8(self@),
                b@ == vstd::utf8::encode_utf8(other@),
                forall|j: int| 0 <= j < i ==> a@[j] == b@[j],
            decreases a.len() - i,
        {
            if a[i] != b[i] {
                return false;
            }
            i += 1;
        }
        proof {
            assert(a@ =~= b@);
            vstd::utf8::encode_utf8_decode_utf8(self@);
            vstd::utf8::encode_utf8_decode_utf8(other@);
        }
        true
    }

    fn duplicate(&self) -> (k: Self) {
        *self
    }
}

impl Key for usize {
    open spec fn fed(h: u64, v: usize) -> u64 {
        djb2_int(h, v as nat, 8)
    }

    fn feed(&self, hasher: &mut Djb2Hasher) {
        hasher.write_int(*self as u64, 8);
    }

    fn same(&self, other: &Self) -> (b: bool) {
        *self == *other
    }

    fn duplicate(&self) -> (k: Self) {
        *self
    }
}

impl Key for char {
    open spec fn fed(h: u64, v: char) -> u64 {
        djb2_int(h, v as u32 as nat, 4)
    }

    fn feed(&self, hasher: &mut Djb2Hasher) {
        let code: u32 = *self as u32;
        hasher.write_int(code as u64, 4);
    }

    fn same(&self, other: &Self) -> (b: bool) {
        *self == *other
    }

    fn duplicate(&self) -> (k: Self) {
        *self
    }
}

impl<A: Key, B: Key> Key for (A, B) {
    open spec fn fed(h: u64, v: (A::V, B::V)) -> u64 {
        B::fed(A::fed(h, v.0), v.1)
    }

    fn feed(&self, hasher: &mut Djb2Hasher) {
        self.0.feed(hasher);
        self.1.feed(hasher);
    }

    fn same(&self, other: &Self) -> (b: bool) {
        self.0.same(&other.0) && self.1.same(&other.1)
    }

    fn duplicate(&self) -> (k: Self) {
        (self.0.duplicate(), self.1.duplicate())
    }
}

} // verus!
