use vstd::prelude::*;
use rand_core::{OsRng, RngCore};
use crate::classes::{
    CharClass, TOTAL_CAPACITY, class_of, pool, fold, fold_distinct, class_at, class_index,
    lemma_class_index, lemma_pool_class, class_pool, ascii_lower,
};
use crate::schedule::{missing_count, candidates, lemma_candidates, next_class};
use crate::success::{
    MIN_LENGTH, adaptive_bound, adaptive_retry_bound, length_unit, rate_le, lemma_bound_monotone,
    lemma_bound_range,
};
use crate::uniqueness::UniqueSet;

verus! {

/// Why a password could not be produced.
#[derive(Clone, Copy, Debug, PartialEq, Eq, Structural)]
pub enum GeneratorError {
    /// The requested length is below the policy minimum.
    LengthBelowMinimum,
    /// The requested length exceeds the characters of the four pools together.
    LengthExceedsCapacity,
    /// Every attempt up to the bound, carried here, hit a dead end.
    RetryBoundExhausted(usize),
    /// The operating system's secure random source failed.
    EntropyUnavailable,
}

/// Some byte of `p` belongs to class `c`.
pub open spec fn has_class(p: Seq<u8>, c: CharClass) -> bool {
    exists|i: int| 0 <= i < p.len() && #[trigger] class_of(p[i]) == Some(c)
}

/// A password of `n` bytes that meets the policy: every byte from a pool,
/// all four classes present, no two neighbours of one class, and no two
/// bytes equal under case folding.
pub open spec fn valid_bytes(p: Seq<u8>, n: nat) -> bool {
    &&& p.len() == n
    &&& forall|i: int| 0 <= i < p.len() ==> (#[trigger] class_of(p[i])).is_some()
    &&& forall|c: CharClass| #[trigger] has_class(p, c)
    &&& forall|i: int| 0 <= i < p.len() - 1 ==> #[trigger] class_of(p[i]) != class_of(p[i + 1])
    &&& fold_distinct(p)
}

/// The bytes of an ASCII string.
pub open spec fn ascii_bytes(s: Seq<char>) -> Seq<u8> {
    Seq::new(s.len(), |i: int| s[i] as u32 as u8)
}

/// A password string of `n` characters that meets the policy.
pub open spec fn valid_password(s: Seq<char>, n: nat) -> bool {
    &&& forall|i: int| 0 <= i < s.len() ==> (s[i] as u32) < 128
    &&& valid_bytes(ascii_bytes(s), n)
}

/// The counter value after `k` more steps, stopping at the largest `u64`.
pub open spec fn counted(t: u64, k: nat) -> u64 {
    if t + k <= u64::MAX {
        (t + k) as u64
    } else {
        u64::MAX
    }
}

proof fn lemma_counted_add(t: u64, a: nat, b: nat)
    ensures
        counted(counted(t, a), b) == counted(t, a + b),
{
}

proof fn lemma_counted_mono(x: u64, y: u64, b: nat)
    requires
        x <= y,
    ensures
        counted(x, b) <= counted(y, b),
{
}

proof fn lemma_counted_le(t: u64, a: nat, b: nat)
    requires
        a <= b,
    ensures
        counted(t, a) <= counted(t, b),
{
}

/// Relies on rand_core's `OsRng::try_fill_bytes`: it fills the buffer from
/// the operating system's secure random source or reports the source's error.
#[verifier::external_body]
fn os_random_u64() -> (r: Option<u64>) {
    let mut buf = [0u8; 8];
    match OsRng.try_fill_bytes(&mut buf) {
        Ok(()) => Some(u64::from_le_bytes(buf)),
        Err(_) => None,
    }
}

/// Relies on std's `String::from_utf8`: bytes below 128 are valid UTF-8,
/// each the character of the same code.
#[verifier::external_body]
fn ascii_string(bytes: Vec<u8>) -> (r: String)
    requires
        forall|i: int| 0 <= i < bytes@.len() ==> bytes@[i] < 128,
    ensures
        r@.len() == bytes@.len(),
        forall|i: int| 0 <= i < bytes@.len() ==> r@[i] as u32 == bytes@[i] as u32,
{
    String::from_utf8(bytes).unwrap_or_default()
}

/// The retry ceiling of a generator made by `default`.
pub const DEFAULT_MAX_RETRIES: usize = 256;

/// The first `n` characters of `p` whose folded value `used` does not
/// hold, in order.
pub open spec fn unused_upto(p: Seq<u8>, used: Set<u8>, n: int) -> Seq<u8>
    decreases n,
{
    if n <= 0 {
        Seq::empty()
    } else {
        let rest = unused_upto(p, used, n - 1);
        if !used.contains(fold(p[n - 1])) {
            rest.push(p[n - 1])
        } else {
            rest
        }
    }
}

/// The characters of class `c` that may still be drawn, in pool order.
pub open spec fn eligible(c: CharClass, used: Set<u8>) -> Seq<u8> {
    unused_upto(pool(c), used, pool(c).len() as int)
}

proof fn lemma_unused_upto(p: Seq<u8>, used: Set<u8>, n: int)
    requires
        0 <= n <= p.len(),
    ensures
        forall|i: int|
            0 <= i < unused_upto(p, used, n).len() ==> exists|j: int|
                0 <= j < n && #[trigger] unused_upto(p, used, n)[i] == p[j] && !used.contains(fold(p[j])),
        unused_upto(p, used, n).len() == 0 ==> forall|j: int| 0 <= j < n ==> used.contains(#[trigger] fold(p[j])),
    decreases n,
{
    if n > 0 {
        lemma_unused_upto(p, used, n - 1);
        let rest = unused_upto(p, used, n - 1);
        let all = unused_upto(p, used, n);
        assert forall|i: int| 0 <= i < all.len() implies exists|j: int|
            0 <= j < n && #[trigger] all[i] == p[j] && !used.contains(fold(p[j])) by {
            if i < rest.len() {
                assert(all[i] == rest[i]);
                let j = choose|j: int| 0 <= j < n - 1 && #[trigger] rest[i] == p[j] && !used.contains(fold(p[j]));
                assert(all[i] == p[j]);
            } else {
                assert(all[i] == p[n - 1]);
            }
        }
    }
}

/// Every eligible character belongs to the class and is unused; none is
/// eligible only when every character of the class is used.
pub proof fn lemma_eligible(c: CharClass, used: Set<u8>)
    ensures
        forall|i: int|
            0 <= i < eligible(c, used).len() ==> class_of(#[trigger] eligible(c, used)[i]) == Some(c)
                && !used.contains(fold(eligible(c, used)[i])),
        eligible(c, used).len() == 0 ==> forall|j: int|
            0 <= j < pool(c).len() ==> used.contains(#[trigger] fold(pool(c)[j])),
{
    let p = pool(c);
    lemma_unused_upto(p, used, p.len() as int);
    assert forall|i: int| 0 <= i < eligible(c, used).len() implies class_of(#[trigger] eligible(c, used)[i]) == Some(c)
        && !used.contains(fold(eligible(c, used)[i])) by {
        let j = choose|j: int| 0 <= j < p.len() && #[trigger] eligible(c, used)[i] == p[j] && !used.contains(fold(p[j]));
        lemma_pool_class(c, j);
    }
}

/// The characters of `class` that `used` does not yet hold, in pool order.
pub fn eligible_chars(class: CharClass, used: &UniqueSet) -> (r: Vec<u8>)
    ensures
        r@ == eligible(class, used@),
{
    let set = class_pool(class);
    let mut r: Vec<u8> = Vec::new();
    let mut i: usize = 0;
    while i < set.len()
        invariant
            i <= set@.len(),
            set@ == pool(class),
            r@ == unused_upto(set@, used@, i as int),
        decreases set@.len() - i,
    {
        let ch = set[i];
        if !used.contains(ascii_lower(ch)) {
            r.push(ch);
        }
        i += 1;
    }
    r
}

/// The character that a draw selects among the eligible ones; none when
/// there are none.
pub open spec fn pick_char(elig: Seq<u8>, draw: u64) -> Option<u8> {
    if elig.len() == 0 {
        None
    } else {
        Some(elig[(draw as int) % (elig.len() as int)])
    }
}

/// Selects uniformly by `draw` among the eligible characters.
pub fn select_char(elig: &Vec<u8>, draw: u64) -> (r: Option<u8>)
    ensures
        r == pick_char(elig@, draw),
{
    if elig.len() == 0 {
        None
    } else {
        Some(elig[(draw % (elig.len() as u64)) as usize])
    }
}

/// Draws passwords under the fixed policy, and keeps the lifetime counters
/// of attempts that drive the adaptive retry bound.
#[derive(Debug)]
pub struct Generator {
    max_retries: Option<usize>,
    attempts: u64,
    successes: u64,
    draws: u64,
}

impl Generator {
    /// Successes never outnumber attempts.
    pub open spec fn wf(&self) -> bool {
        self.spec_successes() <= self.spec_attempts()
    }

    pub closed spec fn spec_max_retries(&self) -> Option<usize> {
        self.max_retries
    }

    pub closed spec fn spec_attempts(&self) -> u64 {
        self.attempts
    }

    pub closed spec fn spec_successes(&self) -> u64 {
        self.successes
    }

    pub closed spec fn spec_draws(&self) -> u64 {
        self.draws
    }

    /// The number of attempts that one request may make.
    pub open spec fn spec_retry_bound(&self, length: nat) -> nat {
        match self.spec_max_retries() {
            Some(m) => m as nat,
            None => adaptive_bound(self.spec_successes() as nat, self.spec_attempts() as nat, length),
        }
    }

    /// A generator with an explicit retry ceiling, or with the adaptive one
    /// when `max_retries` is none.
    pub fn new(max_retries: Option<usize>) -> (r: Self)
        ensures
            r.wf(),
            r.spec_max_retries() == max_retries,
            r.spec_attempts() == 0,
            r.spec_successes() == 0,
            r.spec_draws() == 0,
    {
        Generator { max_retries, attempts: 0, successes: 0, draws: 0 }
    }

    pub fn max_retries(&self) -> (r: Option<usize>)
        ensures
            r == self.spec_max_retries(),
    {
        self.max_retries
    }

    /// Attempts made over this generator's lifetime.
    pub fn attempts(&self) -> (r: u64)
        ensures
            r == self.spec_attempts(),
    {
        self.attempts
    }

    /// Attempts that produced a password.
    pub fn successes(&self) -> (r: u64)
        ensures
            r == self.spec_successes(),
    {
        self.successes
    }

    /// Random values drawn over this generator's lifetime.
    pub fn draws(&self) -> (r: u64)
        ensures
            r == self.spec_draws(),
    {
        self.draws
    }

    /// The number of attempts that a request for `length` characters may make now.
    pub fn retry_bound(&self, length: usize) -> (r: usize)
        requires
            self.wf(),
            length <= usize::MAX / 100,
        ensures
            r == self.spec_retry_bound(length as nat),
    {
        match self.max_retries {
            Some(m) => m,
            None => adaptive_retry_bound(self.successes, self.attempts, length),
        }
    }

    /// Counts one finished attempt.
    fn record(&mut self, success: bool)
        requires
            old(self).wf(),
        ensures
            final(self).wf(),
            final(self).max_retries == old(self).max_retries,
            final(self).draws == old(self).draws,
            final(self).attempts == counted(old(self).attempts, 1),
            final(self).successes == if success && old(self).attempts < u64::MAX {
                (old(self).successes + 1) as u64
            } else {
                old(self).successes
            },
    {
        if self.attempts < u64::MAX {
            self.attempts = self.attempts + 1;
            if success {
                self.successes = self.successes + 1;
            }
        }
    }

    /// A password of `length` characters that meets the policy. Lengths
    /// below the minimum or above the pool capacity fail before anything is
    /// drawn or counted. Otherwise attempts run up to the retry bound, each
    /// one counted; the first success is returned.
    pub fn generate(&mut self, length: usize) -> (r: Result<String, GeneratorError>)
        requires
            old(self).wf(),
        ensures
            final(self).wf(),
            final(self).spec_max_retries() == old(self).spec_max_retries(),
            length < MIN_LENGTH <==> r == Err::<String, GeneratorError>(GeneratorError::LengthBelowMinimum),
            MIN_LENGTH <= length && length > TOTAL_CAPACITY <==> r == Err::<String, GeneratorError>(
                GeneratorError::LengthExceedsCapacity,
            ),
            length < MIN_LENGTH || length > TOTAL_CAPACITY ==> *final(self) == *old(self),
            final(self).spec_draws() <= counted(
                old(self).spec_draws(),
                2 * (length as nat) * old(self).spec_retry_bound(length as nat),
            ),
            match r {
                Ok(s) => {
                    &&& valid_password(s@, length as nat)
                    &&& exists|k: nat|
                        1 <= k <= old(self).spec_retry_bound(length as nat) && final(self).spec_attempts()
                            == #[trigger] counted(old(self).spec_attempts(), k) && final(self).spec_successes()
                            == if old(self).spec_attempts() + k <= u64::MAX {
                            (old(self).spec_successes() + 1) as u64
                        } else {
                            old(self).spec_successes()
                        }
                },
                Err(GeneratorError::RetryBoundExhausted(b)) => {
                    &&& MIN_LENGTH <= length <= TOTAL_CAPACITY
                    &&& b == old(self).spec_retry_bound(length as nat)
                    &&& final(self).spec_attempts() == counted(old(self).spec_attempts(), b as nat)
                    &&& final(self).spec_successes() == old(self).spec_successes()
                },
                Err(e) => true,
            },
    {
        if length < MIN_LENGTH {
            return Err(GeneratorError::LengthBelowMinimum);
        }
        if length > TOTAL_CAPACITY {
            return Err(GeneratorError::LengthExceedsCapacity);
        }
        let bound = self.retry_bound(length);
        let mut n: usize = 0;
        while n < bound
            invariant
                self.wf(),
                MIN_LENGTH <= length <= TOTAL_CAPACITY,
                n <= bound,
                self.max_retries == old(self).max_retries,
                self.attempts == counted(old(self).attempts, n as nat),
                self.successes == old(self).successes,
                bound == old(self).spec_retry_bound(length as nat),
                self.draws <= counted(old(self).draws, 2 * (length as nat) * (n as nat)),
            decreases bound - n,
        {
            let ghost draws_before = self.draws;
            let outcome = self.try_generate(length);
            proof {
                lemma_counted_add(old(self).draws, 2 * (length as nat) * (n as nat), 2 * (length as nat));
                lemma_counted_mono(draws_before, counted(old(self).draws, 2 * (length as nat) * (n as nat)), 2 * (length as nat));
                assert(2 * (length as nat) * (n as nat) + 2 * (length as nat) == 2 * (length as nat) * ((n + 1) as nat)) by (nonlinear_arith);
                assert(2 * (length as nat) * ((n + 1) as nat) <= 2 * (length as nat) * (bound as nat)) by (nonlinear_arith)
                    requires
                        n < bound,
                ;
                lemma_counted_le(old(self).draws, 2 * (length as nat) * ((n + 1) as nat), 2 * (length as nat) * (bound as nat));
            }
            match outcome {
                Ok(Some(p)) => {
                    self.record(true);
                    assert(self.attempts == counted(old(self).attempts, (n + 1) as nat));
                    proof {
                        assert forall|i: int| 0 <= i < p@.len() implies p@[i] < 128 by {
                            assert(class_of(p@[i]).is_some());
                        }
                    }
                    let s = ascii_string(p);
                    proof {
                        assert(ascii_bytes(s@) =~= p@);
                    }
                    return Ok(s);
                },
                Ok(None) => {
                    self.record(false);
                },
                Err(e) => {
                    return Err(e);
                },
            }
            n += 1;
        }
        proof {
            assert(2 * (length as nat) * (n as nat) <= 2 * (length as nat) * (bound as nat)) by (nonlinear_arith)
                requires
                    n <= bound,
            ;
            lemma_counted_le(old(self).draws, 2 * (length as nat) * (n as nat), 2 * (length as nat) * (bound as nat));
        }
        Err(GeneratorError::RetryBoundExhausted(bound))
    }

    /// Draws a character of `class` whose folded value `used` does not yet
    /// hold, uniformly among the eligible ones, and records it. None when
    /// every character of the class is already taken: a dead end.
    fn sample_unique_char(&mut self, class: CharClass, used: &mut UniqueSet) -> (r: Result<Option<u8>, GeneratorError>)
        ensures
            final(self).max_retries == old(self).max_retries,
            final(self).attempts == old(self).attempts,
            final(self).successes == old(self).successes,
            final(self).draws <= counted(old(self).draws, 1),
            r == Ok::<Option<u8>, GeneratorError>(None) <==> eligible(class, old(used)@).len() == 0,
            match r {
                Ok(Some(ch)) => {
                    &&& eligible(class, old(used)@).contains(ch)
                    &&& class_of(ch) == Some(class)
                    &&& !old(used)@.contains(fold(ch))
                    &&& final(used)@ == old(used)@.insert(fold(ch))
                },
                Ok(None) => {
                    &&& final(used)@ == old(used)@
                    &&& forall|i: int| 0 <= i < pool(class).len() ==> old(used)@.contains(#[trigger] fold(pool(class)[i]))
                },
                Err(e) => e == GeneratorError::EntropyUnavailable && final(used)@ == old(used)@,
            },
    {
        let elig = eligible_chars(class, used);
        proof {
            lemma_eligible(class, used@);
        }
        if elig.len() == 0 {
            return Ok(None);
        }
        let d = match self.draw() {
            Some(d) => d,
            None => {
                return Err(GeneratorError::EntropyUnavailable);
            },
        };
        let ch = match select_char(&elig, d) {
            Some(ch) => ch,
            None => {
                return Ok(None);
            },
        };
        used.insert(ascii_lower(ch));
        Ok(Some(ch))
    }

    /// One attempt at a password of `length` characters: each position takes
    /// a class from the scheduler and then a fresh character of that class.
    /// None when a position has no legal class or character.
    fn try_generate(&mut self, length: usize) -> (r: Result<Option<Vec<u8>>, GeneratorError>)
        requires
            old(self).wf(),
        ensures
            final(self).wf(),
            final(self).draws <= counted(old(self).draws, 2 * (length as nat)),
            length < 4 ==> r == Ok::<Option<Vec<u8>>, GeneratorError>(None) && *final(self) == *old(self),
            final(self).max_retries == old(self).max_retries,
            final(self).attempts == old(self).attempts,
            final(self).successes == old(self).successes,
            match r {
                Ok(Some(p)) => valid_bytes(p@, length as nat),
                Ok(None) => true,
                Err(e) => e == GeneratorError::EntropyUnavailable,
            },
    {
        if length < 4 {
            return Ok(None);
        }
        let mut used = UniqueSet::new();
        let mut result: Vec<u8> = Vec::new();
        let mut prev: Option<CharClass> = None;
        let mut class_used: [bool; 4] = [false; 4];
        let ghost mut cls: Seq<CharClass> = Seq::empty();
        let mut position: usize = 0;
        assert(used@ =~= Set::<u8>::empty());
        while position < length
            invariant
                self.wf(),
                self.max_retries == old(self).max_retries,
                self.attempts == old(self).attempts,
                self.successes == old(self).successes,
                position <= length,
                length >= 4,
                self.draws <= counted(old(self).draws, 2 * (position as nat)),
                result@.len() == position,
                cls.len() == position,
                forall|i: int| 0 <= i < position ==> #[trigger] class_of(result@[i]) == Some(cls[i]),
                forall|i: int| 0 <= i < position - 1 ==> #[trigger] cls[i] != cls[i + 1],
                position == 0 ==> prev.is_none(),
                position > 0 ==> prev == Some(cls[position - 1]),
                forall|k: int|
                    0 <= k < 4 ==> (#[trigger] class_used@[k] <==> exists|i: int|
                        0 <= i < position && cls[i] == class_at(k)),
                missing_count(class_used) <= length - position,
                fold_distinct(result@),
                forall|v: u8| used@.contains(v) <==> exists|i: int| 0 <= i < position && #[trigger] fold(result@[i]) == v,
            decreases length - position,
        {
            let ghost d0 = self.draws;
            let d = match self.draw() {
                Some(d) => d,
                None => {
                    return Err(GeneratorError::EntropyUnavailable);
                },
            };
            let ghost d1 = self.draws;
            let class = match next_class(prev, position, length, &class_used, d) {
                Some(c) => c,
                None => {
                    return Ok(None);
                },
            };
            proof {
                let cands = candidates(prev, class_used, (length - position) as nat);
                lemma_candidates(prev, class_used, (length - position) as nat);
                assert(cands.contains(class));
                lemma_class_index(class);
            }
            let ghost used_before = used@;
            let ghost flags_before = class_used;
            let ch = match self.sample_unique_char(class, &mut used) {
                Ok(Some(ch)) => ch,
                Ok(None) => {
                    return Ok(None);
                },
                Err(e) => {
                    return Err(e);
                },
            };
            proof {
                assert(self.draws <= counted(old(self).draws, 2 * (position as nat) + 2));
            }
            class_used[class.index()] = true;
            let ghost old_result = result@;
            result.push(ch);
            prev = Some(class);
            proof {
                let k0 = class_index(class);
                let cls_before = cls;
                cls = cls.push(class);
                assert(class_used@ == flags_before@.update(k0, true));
                assert forall|k: int|
                    0 <= k < 4 implies (#[trigger] class_used@[k] <==> exists|i: int|
                        0 <= i < position + 1 && cls[i] == class_at(k)) by {
                    if k == k0 {
                        assert(cls[position as int] == class_at(k));
                    } else {
                        if flags_before@[k] {
                            let i = choose|i: int| 0 <= i < position && cls_before[i] == class_at(k);
                            assert(cls[i] == class_at(k));
                        }
                        if exists|i: int| 0 <= i < position + 1 && cls[i] == class_at(k) {
                            let i = choose|i: int| 0 <= i < position + 1 && cls[i] == class_at(k);
                            lemma_class_index(class);
                            assert(i != position);
                            assert(cls_before[i] == class_at(k));
                        }
                    }
                }
                assert forall|i: int| 0 <= i < position + 1 implies #[trigger] class_of(result@[i]) == Some(cls[i]) by {
                    if i < position {
                        assert(result@[i] == old_result[i]);
                    }
                }
                assert forall|v: u8| used@.contains(v) <==> exists|i: int| 0 <= i < position + 1 && #[trigger] fold(result@[i]) == v by {
                    if used_before.contains(v) {
                        let i = choose|i: int| 0 <= i < position && #[trigger] fold(old_result[i]) == v;
                        assert(result@[i] == old_result[i]);
                    }
                    if v == fold(ch) {
                        assert(result@[position as int] == ch);
                    }
                    if exists|i: int| 0 <= i < position + 1 && #[trigger] fold(result@[i]) == v {
                        let i = choose|i: int| 0 <= i < position + 1 && #[trigger] fold(result@[i]) == v;
                        if i < position {
                            assert(result@[i] == old_result[i]);
                        }
                    }
                }
                assert forall|i: int, j: int| 0 <= i < j < result@.len() implies fold(result@[i]) != fold(result@[j]) by {
                    if j == position {
                        assert(result@[i] == old_result[i]);
                        assert(used_before.contains(fold(old_result[i])));
                    } else {
                        assert(result@[i] == old_result[i]);
                        assert(result@[j] == old_result[j]);
                    }
                }
            }
            position += 1;
        }
        if class_used[0] && class_used[1] && class_used[2] && class_used[3] {
            proof {
                assert forall|c: CharClass| #[trigger] has_class(result@, c) by {
                    lemma_class_index(c);
                    let k = class_index(c);
                    assert(class_used@[k]);
                    let i = choose|i: int| 0 <= i < position && cls[i] == class_at(k);
                    assert(class_of(result@[i]) == Some(c));
                }
            }
            Ok(Some(result))
        } else {
            Ok(None)
        }
    }

    /// One value from the secure random source; none when it fails.
    fn draw(&mut self) -> (r: Option<u64>)
        ensures
            final(self).max_retries == old(self).max_retries,
            final(self).attempts == old(self).attempts,
            final(self).successes == old(self).successes,
            final(self).draws == counted(old(self).draws, 1),
    {
        if self.draws < u64::MAX {
            self.draws = self.draws + 1;
        }
        os_random_u64()
    }
}

/// Of two generators without a ceiling of their own, the one whose lifetime
/// success rate is lower never has the smaller retry bound.
pub proof fn lemma_retry_bound_monotone(g1: Generator, g2: Generator, length: nat)
    requires
        g1.wf(),
        g2.wf(),
        g1.spec_max_retries().is_none(),
        g2.spec_max_retries().is_none(),
        rate_le(
            g1.spec_successes() as nat,
            g1.spec_attempts() as nat,
            g2.spec_successes() as nat,
            g2.spec_attempts() as nat,
        ),
    ensures
        g2.spec_retry_bound(length) <= g1.spec_retry_bound(length),
{
    lemma_bound_monotone(
        g2.spec_successes() as nat,
        g2.spec_attempts() as nat,
        g1.spec_successes() as nat,
        g1.spec_attempts() as nat,
        length,
    );
}

/// A generator without a ceiling of its own allows between one and a
/// hundred times `max(length, 16)` attempts.
pub proof fn lemma_retry_bound_range(g: Generator, length: nat)
    requires
        g.wf(),
        g.spec_max_retries().is_none(),
    ensures
        length_unit(length) <= g.spec_retry_bound(length) <= 100 * length_unit(length),
{
    lemma_bound_range(g.spec_successes() as nat, g.spec_attempts() as nat, length);
}

impl Default for Generator {
    fn default() -> (r: Self)
        ensures
            r.wf(),
            r.spec_max_retries() == Some(DEFAULT_MAX_RETRIES),
            r.spec_attempts() == 0,
            r.spec_successes() == 0,
            r.spec_draws() == 0,
    {
        Self::new(Some(DEFAULT_MAX_RETRIES))
    }
}

} // verus!
