use vstd::prelude::*;

verus! {

/// The four character classes of the policy.
#[derive(Clone, Copy, Debug, PartialEq, Eq, Structural)]
pub enum CharClass {
    Upper,
    Lower,
    Digit,
    Special,
}

/// Number of characters in the special pool.
pub const SPECIAL_COUNT: usize = 28;

/// Characters over all four pools: 26 + 26 + 10 + 28.
pub const TOTAL_CAPACITY: usize = 90;

pub open spec fn is_upper(b: u8) -> bool {
    65 <= b <= 90
}

pub open spec fn is_lower(b: u8) -> bool {
    97 <= b <= 122
}

pub open spec fn is_digit(b: u8) -> bool {
    48 <= b <= 57
}

/// The special symbols: ~ ! @ # $ % ^ & * ( ) - _ = + [ ] ; : , . < > / ? \ | '
pub open spec fn special_pool() -> Seq<u8> {
    seq![
        126u8, 33, 64, 35, 36, 37, 94, 38, 42, 40, 41, 45, 95, 61, 43, 91, 93, 59, 58, 44, 46,
        60, 62, 47, 63, 92, 124, 39,
    ]
}

pub open spec fn is_special(b: u8) -> bool {
    special_pool().contains(b)
}

/// The class a byte belongs to, if any.
pub open spec fn class_of(b: u8) -> Option<CharClass> {
    if is_upper(b) {
        Some(CharClass::Upper)
    } else if is_lower(b) {
        Some(CharClass::Lower)
    } else if is_digit(b) {
        Some(CharClass::Digit)
    } else if is_special(b) {
        Some(CharClass::Special)
    } else {
        None
    }
}

/// The characters of a class, in pool order.
pub open spec fn pool(c: CharClass) -> Seq<u8> {
    match c {
        CharClass::Upper => Seq::new(26, |i: int| (65 + i) as u8),
        CharClass::Lower => Seq::new(26, |i: int| (97 + i) as u8),
        CharClass::Digit => Seq::new(10, |i: int| (48 + i) as u8),
        CharClass::Special => special_pool(),
    }
}

/// ASCII lower-casing, the fold under which characters must be distinct.
pub open spec fn fold(b: u8) -> u8 {
    if is_upper(b) {
        (b + 32) as u8
    } else {
        b
    }
}

/// Ordinal of a class, used as an array index.
pub open spec fn class_index(c: CharClass) -> int {
    match c {
        CharClass::Upper => 0,
        CharClass::Lower => 1,
        CharClass::Digit => 2,
        CharClass::Special => 3,
    }
}

pub open spec fn class_at(i: int) -> CharClass {
    if i == 0 {
        CharClass::Upper
    } else if i == 1 {
        CharClass::Lower
    } else if i == 2 {
        CharClass::Digit
    } else {
        CharClass::Special
    }
}

/// No two bytes of `s` are equal once folded.
pub open spec fn fold_distinct(s: Seq<u8>) -> bool {
    forall|i: int, j: int| 0 <= i < j < s.len() ==> fold(s[i]) != fold(s[j])
}

impl CharClass {
    pub fn index(self) -> (r: usize)
        ensures
            r as int == class_index(self),
    {
        match self {
            CharClass::Upper => 0,
            CharClass::Lower => 1,
            CharClass::Digit => 2,
            CharClass::Special => 3,
        }
    }

    pub fn from_index(i: usize) -> (r: CharClass)
        requires
            i < 4,
        ensures
            r == class_at(i as int),
            class_index(r) == i,
    {
        if i == 0 {
            CharClass::Upper
        } else if i == 1 {
            CharClass::Lower
        } else if i == 2 {
            CharClass::Digit
        } else {
            CharClass::Special
        }
    }
}

pub proof fn lemma_class_index(c: CharClass)
    ensures
        0 <= class_index(c) < 4,
        class_at(class_index(c)) == c,
{
}

/// Every pool member belongs to the pool's class.
pub proof fn lemma_pool_class(c: CharClass, i: int)
    requires
        0 <= i < pool(c).len(),
    ensures
        class_of(pool(c)[i]) == Some(c),
{
    if c == CharClass::Special {
        let s = special_pool();
        assert(s.contains(s[i]));
        assert(!is_upper(s[i]) && !is_lower(s[i]) && !is_digit(s[i])) by {
            reveal_with_fuel(Seq::contains, 1);
            assert(s[i] == 126 || s[i] == 33 || s[i] == 64 || s[i] == 35 || s[i] == 36 || s[i] == 37
                || s[i] == 94 || s[i] == 38 || s[i] == 42 || s[i] == 40 || s[i] == 41 || s[i] == 45
                || s[i] == 95 || s[i] == 61 || s[i] == 43 || s[i] == 91 || s[i] == 93 || s[i] == 59
                || s[i] == 58 || s[i] == 44 || s[i] == 46 || s[i] == 60 || s[i] == 62 || s[i] == 47
                || s[i] == 63 || s[i] == 92 || s[i] == 124 || s[i] == 39);
        }
    }
}

/// Folds one ASCII byte to lower case.
pub fn ascii_lower(b: u8) -> (r: u8)
    ensures
        r == fold(b),
{
    if 65 <= b && b <= 90 {
        b + 32
    } else {
        b
    }
}

/// The characters of a class.
pub fn class_pool(c: CharClass) -> (r: Vec<u8>)
    ensures
        r@ == pool(c),
{
    match c {
        CharClass::Special => {
            let r: Vec<u8> = vec![
                126u8, 33, 64, 35, 36, 37, 94, 38, 42, 40, 41, 45, 95, 61, 43, 91, 93, 59, 58, 44,
                46, 60, 62, 47, 63, 92, 124, 39,
            ];
            assert(r@ =~= pool(c));
            r
        },
        _ => {
            let (start, n): (u8, u8) = match c {
                CharClass::Upper => (65, 26),
                CharClass::Lower => (97, 26),
                _ => (48, 10),
            };
            let mut r: Vec<u8> = Vec::new();
            let mut k: u8 = 0;
            while k < n
                invariant
                    k <= n,
                    start as int + n <= 123,
                    r@.len() == k,
                    forall|j: int| 0 <= j < k ==> r@[j] == (start + j) as u8,
                decreases n - k,
            {
                r.push(start + k);
                k += 1;
            }
            assert(r@ =~= pool(c));
            r
        },
    }
}

/// The four pools one after another.
pub open spec fn all_pools() -> Seq<u8> {
    pool(CharClass::Upper) + pool(CharClass::Lower) + pool(CharClass::Digit) + pool(CharClass::Special)
}

/// Whether no two bytes of `bytes` are equal once folded.
pub fn unique_ascii_case_insensitive(bytes: &Vec<u8>) -> (r: bool)
    ensures
        r == fold_distinct(bytes@),
{
    let n = bytes.len();
    let mut i: usize = 0;
    while i < n
        invariant
            n == bytes@.len(),
            i <= n,
            forall|a: int, b: int| 0 <= a < i && a < b < n ==> fold(bytes@[a]) != fold(bytes@[b]),
        decreases n - i,
    {
        let a = ascii_lower(bytes[i]);
        let mut j: usize = i + 1;
        while j < n
            invariant
                n == bytes@.len(),
                i < n,
                i < j <= n,
                a == fold(bytes@[i as int]),
                forall|b: int| i < b < j ==> fold(bytes@[i as int]) != fold(bytes@[b]),
            decreases n - j,
        {
            if a == ascii_lower(bytes[j]) {
                return false;
            }
            j += 1;
        }
        i += 1;
    }
    true
}

/// The position of a byte in the special pool, or -1 when absent.
pub open spec fn special_rank(b: u8) -> int {
    if b == 126 {
        0
    } else if b == 33 {
        1
    } else if b == 64 {
        2
    } else if b == 35 {
        3
    } else if b == 36 {
        4
    } else if b == 37 {
        5
    } else if b == 94 {
        6
    } else if b == 38 {
        7
    } else if b == 42 {
        8
    } else if b == 40 {
        9
    } else if b == 41 {
        10
    } else if b == 45 {
        11
    } else if b == 95 {
        12
    } else if b == 61 {
        13
    } else if b == 43 {
        14
    } else if b == 91 {
        15
    } else if b == 93 {
        16
    } else if b == 59 {
        17
    } else if b == 58 {
        18
    } else if b == 44 {
        19
    } else if b == 46 {
        20
    } else if b == 60 {
        21
    } else if b == 62 {
        22
    } else if b == 47 {
        23
    } else if b == 63 {
        24
    } else if b == 92 {
        25
    } else if b == 124 {
        26
    } else if b == 39 {
        27
    } else {
        -1
    }
}

proof fn lemma_special_rank()
    ensures
        forall|i: int| 0 <= i < 28 ==> special_rank(#[trigger] special_pool()[i]) == i,
{
    let s = special_pool();
        assert(s[0] == 126);
        assert(s[1] == 33);
        assert(s[2] == 64);
        assert(s[3] == 35);
        assert(s[4] == 36);
        assert(s[5] == 37);
        assert(s[6] == 94);
        assert(s[7] == 38);
        assert(s[8] == 42);
        assert(s[9] == 40);
        assert(s[10] == 41);
        assert(s[11] == 45);
        assert(s[12] == 95);
        assert(s[13] == 61);
        assert(s[14] == 43);
        assert(s[15] == 91);
        assert(s[16] == 93);
        assert(s[17] == 59);
        assert(s[18] == 58);
        assert(s[19] == 44);
        assert(s[20] == 46);
        assert(s[21] == 60);
        assert(s[22] == 62);
        assert(s[23] == 47);
        assert(s[24] == 63);
        assert(s[25] == 92);
        assert(s[26] == 124);
        assert(s[27] == 39);
    assert forall|i: int| 0 <= i < 28 implies special_rank(#[trigger] s[i]) == i by {
        if i == 0 {
            } else if i == 1 {
            } else if i == 2 {
            } else if i == 3 {
            } else if i == 4 {
            } else if i == 5 {
            } else if i == 6 {
            } else if i == 7 {
            } else if i == 8 {
            } else if i == 9 {
            } else if i == 10 {
            } else if i == 11 {
            } else if i == 12 {
            } else if i == 13 {
            } else if i == 14 {
            } else if i == 15 {
            } else if i == 16 {
            } else if i == 17 {
            } else if i == 18 {
            } else if i == 19 {
            } else if i == 20 {
            } else if i == 21 {
            } else if i == 22 {
            } else if i == 23 {
            } else if i == 24 {
            } else if i == 25 {
            } else if i == 26 {
            } else if i == 27 {
            }
    }
}

/// Which pool position `k` of the concatenated pools falls in.
pub open spec fn segment(k: int) -> CharClass {
    if k < 26 {
        CharClass::Upper
    } else if k < 52 {
        CharClass::Lower
    } else if k < 62 {
        CharClass::Digit
    } else {
        CharClass::Special
    }
}

pub open spec fn segment_start(c: CharClass) -> int {
    match c {
        CharClass::Upper => 0,
        CharClass::Lower => 26,
        CharClass::Digit => 52,
        CharClass::Special => 62,
    }
}

proof fn lemma_pool_distinct(c: CharClass)
    ensures
        pool(c).no_duplicates(),
        fold_distinct(pool(c)),
        pool(c).len() > 0,
{
    lemma_special_rank();
    let p = pool(c);
    assert forall|i: int, j: int| 0 <= i < j < p.len() implies fold(p[i]) != fold(p[j]) && p[i] != p[j] by {
        lemma_pool_class(c, i);
        lemma_pool_class(c, j);
    }
}

/// The pools meet their invariant: each is non-empty and free of repeats
/// under case folding, and no character stands in two of them.
pub proof fn lemma_pools_valid()
    ensures
        all_pools().no_duplicates(),
        forall|c: CharClass| pool(c).len() > 0 && #[trigger] fold_distinct(pool(c)),
{
    let a = all_pools();
    assert(a.len() == 90);
    assert forall|k: int| 0 <= k < 90 implies #[trigger] a[k] == pool(segment(k))[k - segment_start(segment(k))]
        && 0 <= k - segment_start(segment(k)) < pool(segment(k)).len() by {
    }
    assert forall|c: CharClass| pool(c).len() > 0 && #[trigger] fold_distinct(pool(c)) by {
        lemma_pool_distinct(c);
    }
    assert forall|i: int, j: int| 0 <= i < j < a.len() implies a[i] != a[j] by {
        let ci = segment(i);
        let cj = segment(j);
        lemma_pool_class(ci, i - segment_start(ci));
        lemma_pool_class(cj, j - segment_start(cj));
        if ci == cj {
            lemma_pool_distinct(ci);
        }
    }
}

/// Whether no byte stands twice in `bytes`.
pub fn all_distinct(bytes: &Vec<u8>) -> (r: bool)
    ensures
        r == bytes@.no_duplicates(),
{
    let n = bytes.len();
    let mut i: usize = 0;
    while i < n
        invariant
            n == bytes@.len(),
            i <= n,
            forall|a: int, b: int| 0 <= a < i && a < b < n ==> bytes@[a] != bytes@[b],
        decreases n - i,
    {
        let mut j: usize = i + 1;
        while j < n
            invariant
                n == bytes@.len(),
                i < n,
                i < j <= n,
                forall|b: int| i < b < j ==> bytes@[i as int] != bytes@[b],
            decreases n - j,
        {
            if bytes[i] == bytes[j] {
                return false;
            }
            j += 1;
        }
        i += 1;
    }
    true
}

/// The check run once before any password is drawn: every pool is
/// non-empty and free of repeats under case folding, and no character
/// stands in two pools.
pub fn pools_valid() -> (r: bool)
    ensures
        r == (all_pools().no_duplicates() && forall|c: CharClass|
            pool(c).len() > 0 && #[trigger] fold_distinct(pool(c))),
        r,
{
    proof {
        lemma_pools_valid();
    }
    let mut all: Vec<u8> = Vec::new();
    let mut each = true;
    let mut k: usize = 0;
    while k < 4
        invariant
            k <= 4,
            all@ == pools_upto(k as int),
            each == forall|j: int| 0 <= j < k ==> #[trigger] fold_distinct(pool(class_at(j))),
        decreases 4 - k,
    {
        let mut p = class_pool(CharClass::from_index(k));
        let ok = unique_ascii_case_insensitive(&p);
        proof {
            assert(each && ok <==> forall|j: int| 0 <= j < k + 1 ==> #[trigger] fold_distinct(pool(class_at(j)))) by {
                if !ok {
                    assert(!fold_distinct(pool(class_at(k as int))));
                }
            }
        }
        each = each && ok;
        all.append(&mut p);
        k += 1;
    }
    proof {
        reveal_with_fuel(pools_upto, 5);
        assert(pools_upto(4) =~= all_pools());
        assert(pool(CharClass::Special).len() == 28);
        assert(each <==> forall|c: CharClass| #[trigger] fold_distinct(pool(c))) by {
            if each {
                assert forall|c: CharClass| #[trigger] fold_distinct(pool(c)) by {
                    lemma_class_index(c);
                    assert(fold_distinct(pool(class_at(class_index(c)))));
                }
            }
            if !each {
                let j = choose|j: int| 0 <= j < 4 && !#[trigger] fold_distinct(pool(class_at(j)));
                assert(!fold_distinct(pool(class_at(j))));
            }
        }
    }
    each && all_distinct(&all)
}

/// The first `k` pools one after another.
pub open spec fn pools_upto(k: int) -> Seq<u8>
    decreases k,
{
    if k <= 0 {
        Seq::empty()
    } else {
        pools_upto(k - 1) + pool(class_at(k - 1))
    }
}

} // verus!
