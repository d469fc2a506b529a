//! The string interning pool: a single concatenated byte buffer plus a cache
//! of `(offset, length)` segments, one per distinct string interned. Packing
//! a string that was seen before returns the recorded segment instead of
//! appending again, so each distinct description is stored once.

use vstd::prelude::*;

verus! {

/// All segments laid end to end.
pub open spec fn concat_segs(segs: Seq<Seq<u8>>) -> Seq<u8>
    decreases segs.len(),
{
    if segs.len() == 0 {
        Seq::empty()
    } else {
        concat_segs(segs.drop_last()) + segs.last()
    }
}

/// What decoding a token against a pool buffer yields: the addressed bytes,
/// or nothing when the token reaches past the pool (snapshot corruption).
pub open spec fn spec_unpack(pool: Seq<u8>, off: u32, len: u32) -> Seq<u8> {
    if off + len <= pool.len() {
        pool.subrange(off as int, off as int + len as int)
    } else {
        Seq::empty()
    }
}

pub struct StringPool {
    pub pool: Vec<u8>,
    pub cache: Vec<(u32, u32)>,
}

impl StringPool {
    /// The bytes of the `i`-th interned segment.
    pub open spec fn seg(self, i: int) -> Seq<u8> {
        self.pool@.subrange(
            self.cache@[i].0 as int,
            self.cache@[i].0 as int + self.cache@[i].1 as int,
        )
    }

    /// The interned segments, in interning order.
    pub open spec fn segs(self) -> Seq<Seq<u8>> {
        Seq::new(self.cache@.len(), |i: int| self.seg(i))
    }

    /// An interning pool: the recorded segments tile the buffer from the
    /// start, in order, and are pairwise distinct. A pool adopted by `load`
    /// is not of this shape (its cache is empty over a non-empty buffer);
    /// after a load only `unpack` is used, which needs no cache.
    pub open spec fn wf(self) -> bool {
        &&& forall|i: int|
            0 <= i < self.cache@.len() ==> (#[trigger] self.cache@[i]).0 as int
                + self.cache@[i].1 as int <= self.pool@.len()
        &&& self.pool@ == concat_segs(self.segs())
        &&& forall|i: int|
            0 <= i < self.cache@.len() ==> (#[trigger] self.cache@[i]).0 as int == concat_segs(
                self.segs().take(i),
            ).len()
        &&& forall|i: int, j: int| 0 <= i < j < self.cache@.len() ==> self.seg(i) != self.seg(j)
    }

    /// A fresh, empty pool.
    pub fn new() -> (r: Self)
        ensures
            r.wf(),
            r.pool@ =~= Seq::<u8>::empty(),
            r.segs() =~= Seq::<Seq<u8>>::empty(),
    {
        let r = StringPool { pool: Vec::new(), cache: Vec::new() };
        proof {
            assert(r.segs() =~= Seq::<Seq<u8>>::empty());
        }
        r
    }

    /// Adopt a buffer as the pool. The cache starts empty and is not
    /// rebuilt: unpack-only use does not need it.
    pub fn load(pool: Vec<u8>) -> (r: Self)
        ensures
            r.pool@ == pool@,
            r.cache@.len() == 0,
    {
        StringPool { pool, cache: Vec::new() }
    }

    /// Expose the pool as a contiguous byte sequence for writing.
    pub fn save(&self) -> (r: &Vec<u8>)
        ensures
            r@ == self.pool@,
    {
        &self.pool
    }

    /// Intern `s`: return the recorded `(offset, length)` token if `s` was
    /// packed before, otherwise append `s` to the buffer and record it.
    #[verifier::rlimit(100)]
    pub fn pack(&mut self, s: &[u8]) -> (token: (u32, u32))
        requires
            old(self).wf(),
            old(self).segs().contains(s@) || old(self).pool@.len() + s@.len() < 0x1_0000_0000,
        ensures
            final(self).wf(),
            final(self).segs() == (if old(self).segs().contains(s@) {
                old(self).segs()
            } else {
                old(self).segs().push(s@)
            }),
            final(self).pool@ == (if old(self).segs().contains(s@) {
                old(self).pool@
            } else {
                old(self).pool@ + s@
            }),
            token.1 == s@.len(),
            exists|i: int|
                0 <= i < final(self).segs().len() && #[trigger] final(self).segs()[i] == s@
                    && token.0 as int == concat_segs(final(self).segs().take(i)).len(),
    {
        let n = self.cache.len();
        let mut i: usize = 0;
        while i < n
            invariant
                n == self.cache@.len(),
                0 <= i <= n,
                self == old(self),
                self.wf(),
                old(self).segs().contains(s@) || old(self).pool@.len() + s@.len()
                    < 0x1_0000_0000,
                forall|k: int| 0 <= k < i ==> self.segs()[k] != s@,
            decreases n - i,
        {
            let (off, len) = self.cache[i];
            if range_matches(&self.pool, off as usize, len as usize, s) {
                proof {
                    assert(self.segs()[i as int] == s@);
                    assert(self.segs().contains(s@));
                }
                return (off, len);
            }
            proof {
                assert(self.segs()[i as int] != s@);
            }
            i = i + 1;
        }
        proof {
            assert(forall|k: int| 0 <= k < self.segs().len() ==> self.segs()[k] != s@);
            if self.segs().contains(s@) {
                let k = choose|k: int| 0 <= k < self.segs().len() && self.segs()[k] == s@;
                assert(false);
            }
        }
        let ghost pre = *self;
        let off32 = self.pool.len() as u32;
        let len32 = s.len() as u32;
        self.pool.extend_from_slice(s);
        self.cache.push((off32, len32));
        proof {
            let post = *self;
            assert(post.pool@ == pre.pool@ + s@);
            let m = pre.cache@.len() as int;
            assert forall|k: int| 0 <= k < m implies post.seg(k) == pre.seg(k) by {
                assert(post.cache@[k] == pre.cache@[k]);
                assert(post.pool@.subrange(
                    pre.cache@[k].0 as int,
                    pre.cache@[k].0 as int + pre.cache@[k].1 as int,
                ) =~= pre.pool@.subrange(
                    pre.cache@[k].0 as int,
                    pre.cache@[k].0 as int + pre.cache@[k].1 as int,
                ));
            }
            assert(post.seg(m) =~= s@);
            assert(post.segs() =~= pre.segs().push(s@));
            // The new buffer is the old one with the new segment at the end.
            assert(pre.segs().push(s@).drop_last() =~= pre.segs());
            assert(concat_segs(post.segs()) == concat_segs(pre.segs()) + s@);
            // Offsets: unchanged for old segments, buffer length for the new.
            assert forall|k: int| 0 <= k < post.cache@.len() implies (
            #[trigger] post.cache@[k]).0 as int == concat_segs(post.segs().take(k)).len() by {
                if k < m {
                    assert(post.segs().take(k) =~= pre.segs().take(k));
                } else {
                    assert(post.segs().take(m) =~= pre.segs());
                }
            }
            assert forall|a: int, b: int| 0 <= a < b < post.cache@.len() implies post.seg(a)
                != post.seg(b) by {
                if b < m {
                    assert(pre.seg(a) != pre.seg(b));
                } else {
                    assert(post.seg(b) == s@);
                    assert(pre.segs()[a] != s@);
                }
            }
            assert(post.segs().take(m) =~= pre.segs());
            assert(post.segs()[m] == s@);
        }
        (off32, len32)
    }

    /// Decode a token. A token that reaches past the pool yields the empty
    /// byte string: the degraded result for a corrupt snapshot.
    pub fn unpack(&self, off: u32, len: u32) -> (r: Vec<u8>)
        ensures
            r@ == spec_unpack(self.pool@, off, len),
    {
        let pool_len = self.pool.len();
        if !(off as u64 + len as u64 <= pool_len as u64) {
            return Vec::new();
        }
        let o = off as usize;
        let l = len as usize;
        let mut r: Vec<u8> = Vec::new();
        let mut j: usize = 0;
        while j < l
            invariant
                o + l <= self.pool@.len(),
                self.pool@.len() <= usize::MAX,
                0 <= j <= l,
                r@ =~= self.pool@.subrange(o as int, o as int + j as int),
            decreases l - j,
        {
            r.push(self.pool[o + j]);
            proof {
                assert(r@ =~= self.pool@.subrange(o as int, o as int + j + 1));
            }
            j = j + 1;
        }
        proof {
            assert(r@ =~= spec_unpack(self.pool@, off, len));
        }
        r
    }
}

/// Whether the pool bytes at `[off, off+len)` are exactly `s`.
fn range_matches(pool: &Vec<u8>, off: usize, len: usize, s: &[u8]) -> (r: bool)
    requires
        off + len <= pool@.len(),
    ensures
        r == (pool@.subrange(off as int, off as int + len as int) == s@),
{
    let s_len = s.len();
    let pool_len = pool.len();
    if len != s_len {
        proof {
            assert(pool@.subrange(off as int, off as int + len as int).len() != s@.len());
        }
        return false;
    }
    let mut j: usize = 0;
    while j < len
        invariant
            off + len <= pool@.len(),
            pool@.len() <= usize::MAX,
            len == s@.len(),
            0 <= j <= len,
            forall|k: int| 0 <= k < j ==> pool@[off + k] == s@[k],
        decreases len - j,
    {
        if pool[off + j] != *vstd::slice::slice_index_get(s, j) {
            proof {
                assert(pool@.subrange(off as int, off as int + len as int)[j as int] != s@[
                j as int]);
            }
            return false;
        }
        j = j + 1;
    }
    proof {
        assert(pool@.subrange(off as int, off as int + len as int) =~= s@);
    }
    true
}

} // verus!
