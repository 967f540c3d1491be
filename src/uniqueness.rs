use vstd::prelude::*;

verus! {

/// Bit `k` of a byte, as a mask.
pub open spec fn byte_has(b: u8, k: u8) -> bool {
    b & (1u8 << k) != 0
}

/// Bit `k` of a word, as a mask.
pub open spec fn word_has(w: u64, k: u64) -> bool {
    w & (1u64 << k) != 0
}

/// Membership of `v` in a bitmap laid out as 32 bytes.
pub open spec fn bytes_contain(bits: [u8; 32], v: u8) -> bool {
    byte_has(bits@[(v / 8) as int], v % 8)
}

/// Membership of `v` in a bitmap laid out as 4 words.
pub open spec fn words_contain(bits: [u64; 4], v: u8) -> bool {
    word_has(bits@[(v / 64) as int], (v % 64) as u64)
}

proof fn lemma_byte_or(b: u8, i: u8, j: u8)
    requires
        i < 8,
        j < 8,
    ensures
        byte_has(b | (1u8 << i), j) == (byte_has(b, j) || i == j),
{
    assert((b | (1u8 << i)) & (1u8 << j) != 0 <==> (b & (1u8 << j) != 0 || i == j))
        by (bit_vector)
        requires
            i < 8,
            j < 8,
    ;
}

proof fn lemma_word_or(w: u64, i: u64, j: u64)
    requires
        i < 64,
        j < 64,
    ensures
        word_has(w | (1u64 << i), j) == (word_has(w, j) || i == j),
{
    assert((w | (1u64 << i)) & (1u64 << j) != 0 <==> (w & (1u64 << j) != 0 || i == j))
        by (bit_vector)
        requires
            i < 64,
            j < 64,
    ;
}

proof fn lemma_empty_byte(k: u8)
    requires
        k < 8,
    ensures
        !byte_has(0u8, k),
{
    assert(0u8 & (1u8 << k) == 0) by (bit_vector);
}

proof fn lemma_empty_word(k: u64)
    requires
        k < 64,
    ensures
        !word_has(0u64, k),
{
    assert(0u64 & (1u64 << k) == 0) by (bit_vector);
}

/// Marks `v` in a byte-laid bitmap; true when `v` was absent before.
pub fn insert_scalar(bits: &mut [u8; 32], v: u8) -> (r: bool)
    ensures
        r == !bytes_contain(*old(bits), v),
        forall|w: u8| bytes_contain(*final(bits), w) == (bytes_contain(*old(bits), w) || w == v),
{
    let idx = (v / 8) as usize;
    let k = v % 8;
    let mask = 1u8 << k;
    let cur = bits[idx];
    let present = cur & mask != 0;
    bits[idx] = cur | mask;
    proof {
        assert forall|w: u8| bytes_contain(*final(bits), w) == (bytes_contain(*old(bits), w) || w == v) by {
            if w / 8 == v / 8 {
                lemma_byte_or(cur, k, w % 8);
            }
        }
    }
    !present
}

/// Marks `v` in a word-laid bitmap, one 64-bit lane per step; true when
/// `v` was absent before.
pub fn insert_wide(bits: &mut [u64; 4], v: u8) -> (r: bool)
    ensures
        r == !words_contain(*old(bits), v),
        forall|w: u8| words_contain(*final(bits), w) == (words_contain(*old(bits), w) || w == v),
{
    let idx = (v / 64) as usize;
    let k = (v % 64) as u64;
    let mask = 1u64 << k;
    let cur = bits[idx];
    let present = cur & mask != 0;
    bits[idx] = cur | mask;
    proof {
        assert forall|w: u8| words_contain(*final(bits), w) == (words_contain(*old(bits), w) || w == v) by {
            if w / 64 == v / 64 {
                lemma_word_or(cur, k, (w % 64) as u64);
            }
        }
    }
    !present
}

/// How a tracker stores and updates its bitmap. Every backend answers
/// `insert` identically; they differ only in lane width.
#[derive(Clone, Copy, Debug, PartialEq, Eq)]
pub enum Backend {
    Scalar,
    Wide,
}

/// The storage of one tracker, tagged by the backend that owns it.
enum Bits {
    Bytes([u8; 32]),
    Words([u64; 4]),
}

/// A set of case-folded byte values, 256 bits in all.
pub struct UniqueSet {
    bits: Bits,
}

impl UniqueSet {
    /// Whether `v` has been recorded.
    pub closed spec fn has(&self, v: u8) -> bool {
        match self.bits {
            Bits::Bytes(b) => bytes_contain(b, v),
            Bits::Words(w) => words_contain(w, v),
        }
    }

    /// The recorded values.
    pub closed spec fn view(&self) -> Set<u8> {
        Set::new(|v: u8| self.has(v))
    }

    /// The backend that this tracker runs on.
    pub closed spec fn spec_backend(&self) -> Backend {
        match self.bits {
            Bits::Bytes(_) => Backend::Scalar,
            Bits::Words(_) => Backend::Wide,
        }
    }

    /// An empty tracker on the backend that `detect_backend` picks.
    pub fn new() -> (r: Self)
        ensures
            r@ == Set::<u8>::empty(),
            r.spec_backend() == Backend::Wide,
    {
        Self::with_backend(detect_backend())
    }

    /// An empty tracker on the given backend.
    pub fn with_backend(backend: Backend) -> (r: Self)
        ensures
            r@ == Set::<u8>::empty(),
            r.spec_backend() == backend,
    {
        let r = match backend {
            Backend::Scalar => UniqueSet { bits: Bits::Bytes([0u8; 32]) },
            Backend::Wide => UniqueSet { bits: Bits::Words([0u64; 4]) },
        };
        proof {
            assert forall|v: u8| !r.has(v) by {
                match r.bits {
                    Bits::Bytes(b) => {
                        lemma_empty_byte(v % 8);
                    },
                    Bits::Words(w) => {
                        lemma_empty_word((v % 64) as u64);
                    },
                }
            }
            assert(r@ =~= Set::<u8>::empty());
        }
        r
    }

    /// The backend that this tracker runs on.
    pub fn backend(&self) -> (r: Backend)
        ensures
            r == self.spec_backend(),
    {
        match self.bits {
            Bits::Bytes(_) => Backend::Scalar,
            Bits::Words(_) => Backend::Wide,
        }
    }

    /// Whether `v` has been recorded.
    pub fn contains(&self, v: u8) -> (r: bool)
        ensures
            r == self@.contains(v),
    {
        match &self.bits {
            Bits::Bytes(b) => {
                let k = v % 8;
                b[(v / 8) as usize] & (1u8 << k) != 0
            },
            Bits::Words(w) => {
                let k = (v % 64) as u64;
                w[(v / 64) as usize] & (1u64 << k) != 0
            },
        }
    }

    /// Records `v`; true when it was not recorded before.
    pub fn insert(&mut self, v: u8) -> (r: bool)
        ensures
            r == !old(self)@.contains(v),
            final(self)@ == old(self)@.insert(v),
            final(self).spec_backend() == old(self).spec_backend(),
    {
        let ghost before = self@;
        let r = match &mut self.bits {
            Bits::Bytes(b) => insert_scalar(b, v),
            Bits::Words(w) => insert_wide(w, v),
        };
        assert(self@ =~= before.insert(v));
        r
    }
}

/// The answers of successive inserts of `vs` into a set holding `start`.
pub open spec fn replay(start: Set<u8>, vs: Seq<u8>) -> Seq<bool>
    decreases vs.len(),
{
    if vs.len() == 0 {
        Seq::empty()
    } else {
        replay(start, vs.drop_last()).push(!start.union(vs.drop_last().to_set()).contains(vs.last()))
    }
}

/// Two trackers that hold the same values, whatever their backends, answer
/// every replayed sequence of inserts alike and end holding the same values.
pub proof fn lemma_backends_agree(a: UniqueSet, b: UniqueSet, vs: Seq<u8>)
    requires
        a@ == b@,
    ensures
        replay(a@, vs) == replay(b@, vs),
        a@.union(vs.to_set()) == b@.union(vs.to_set()),
{
}

impl UniqueSet {
    /// Inserts each value of `vs` in turn; the answers in order.
    pub fn insert_all(&mut self, vs: &Vec<u8>) -> (r: Vec<bool>)
        ensures
            r@ == replay(old(self)@, vs@),
            final(self)@ == old(self)@.union(vs@.to_set()),
            final(self).spec_backend() == old(self).spec_backend(),
    {
        let mut r: Vec<bool> = Vec::new();
        let mut i: usize = 0;
        while i < vs.len()
            invariant
                i <= vs@.len(),
                r@ == replay(old(self)@, vs@.take(i as int)),
                self@ == old(self)@.union(vs@.take(i as int).to_set()),
                self.spec_backend() == old(self).spec_backend(),
            decreases vs@.len() - i,
        {
            let ghost prefix = vs@.take(i as int);
            let ghost next = vs@.take(i as int + 1);
            assert(next.drop_last() =~= prefix);
            let fresh = self.insert(vs[i]);
            r.push(fresh);
            proof {
                assert(next.last() == vs@[i as int]);
                assert(next =~= prefix.push(vs@[i as int]));
                lemma_push_to_set(prefix, vs@[i as int]);
                assert(self@ =~= old(self)@.union(next.to_set()));
            }
            i += 1;
        }
        assert(vs@.take(vs@.len() as int) =~= vs@);
        r
    }
}

proof fn lemma_push_to_set(s: Seq<u8>, x: u8)
    ensures
        s.push(x).to_set() == s.to_set().insert(x),
{
    assert(s.push(x).to_set() =~= s.to_set().insert(x)) by {
        assert forall|v: u8| s.push(x).to_set().contains(v) <==> s.to_set().insert(x).contains(v) by {
            if s.push(x).contains(v) && v != x {
                let i = choose|i: int| 0 <= i < s.len() + 1 && s.push(x)[i] == v;
                assert(s[i] == v);
            }
            if s.contains(v) {
                let i = choose|i: int| 0 <= i < s.len() && s[i] == v;
                assert(s.push(x)[i] == v);
            }
            if v == x {
                assert(s.push(x)[s.len() as int] == v);
            }
        }
    }
}

/// Picks the backend for new trackers. The word-wide backend needs only
/// 64-bit integer lanes, which every supported target has.
pub fn detect_backend() -> (r: Backend)
    ensures
        r == Backend::Wide,
{
    Backend::Wide
}

} // verus!
