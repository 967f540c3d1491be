use vstd::prelude::*;
use crate::classes::{CharClass, class_at, class_index, lemma_class_index};

verus! {

/// How many classes have not been used yet.
pub open spec fn missing_count(used: [bool; 4]) -> nat {
    (if used@[0] { 0nat } else { 1nat }) + (if used@[1] { 0nat } else { 1nat }) + (if used@[2] {
        0nat
    } else {
        1nat
    }) + (if used@[3] { 0nat } else { 1nat })
}

/// Whether class `c` may fill the next position: it differs from the
/// previous class, and once the remaining positions are exactly as many as
/// the missing classes, it is one of the missing ones.
pub open spec fn allowed(prev: Option<CharClass>, used: [bool; 4], remaining: nat, c: CharClass) -> bool {
    prev != Some(c) && (missing_count(used) == remaining ==> !used@[class_index(c)])
}

/// The allowed classes among the first `n` classes, in class order.
pub open spec fn candidates_upto(prev: Option<CharClass>, used: [bool; 4], remaining: nat, n: int) -> Seq<CharClass>
    decreases n,
{
    if n <= 0 {
        Seq::empty()
    } else {
        let rest = candidates_upto(prev, used, remaining, n - 1);
        if allowed(prev, used, remaining, class_at(n - 1)) {
            rest.push(class_at(n - 1))
        } else {
            rest
        }
    }
}

/// The classes that may fill the next position, in class order.
pub open spec fn candidates(prev: Option<CharClass>, used: [bool; 4], remaining: nat) -> Seq<CharClass> {
    candidates_upto(prev, used, remaining, 4)
}

/// The class that a draw selects among the candidates; none on a dead end.
pub open spec fn pick_class(cands: Seq<CharClass>, draw: u64) -> Option<CharClass> {
    if cands.len() == 0 {
        None
    } else {
        Some(cands[(draw as int) % (cands.len() as int)])
    }
}

proof fn lemma_candidates_upto(prev: Option<CharClass>, used: [bool; 4], remaining: nat, n: int)
    requires
        0 <= n <= 4,
    ensures
        candidates_upto(prev, used, remaining, n).len() <= n,
        forall|i: int|
            0 <= i < candidates_upto(prev, used, remaining, n).len() ==> {
                let c = #[trigger] candidates_upto(prev, used, remaining, n)[i];
                allowed(prev, used, remaining, c) && class_index(c) < n
            },
        forall|k: int|
            0 <= k < n && allowed(prev, used, remaining, class_at(k)) ==> candidates_upto(
                prev,
                used,
                remaining,
                n,
            ).contains(#[trigger] class_at(k)),
    decreases n,
{
    if n > 0 {
        lemma_candidates_upto(prev, used, remaining, n - 1);
        let rest = candidates_upto(prev, used, remaining, n - 1);
        let all = candidates_upto(prev, used, remaining, n);
        assert forall|k: int| 0 <= k < n && allowed(prev, used, remaining, class_at(k)) implies all.contains(
            #[trigger] class_at(k),
        ) by {
            if k < n - 1 {
                let j = choose|j: int| 0 <= j < rest.len() && rest[j] == class_at(k);
                assert(all[j] == class_at(k));
            } else {
                assert(all[all.len() - 1] == class_at(k));
            }
        }
    }
}

/// Every member of the candidate list is allowed, and every allowed class
/// is a member.
pub proof fn lemma_candidates(prev: Option<CharClass>, used: [bool; 4], remaining: nat)
    ensures
        candidates(prev, used, remaining).len() <= 4,
        forall|c: CharClass|
            #[trigger] candidates(prev, used, remaining).contains(c) <==> allowed(prev, used, remaining, c),
{
    lemma_candidates_upto(prev, used, remaining, 4);
    assert forall|c: CharClass| #[trigger] candidates(prev, used, remaining).contains(c) <==> allowed(
        prev,
        used,
        remaining,
        c,
    ) by {
        lemma_class_index(c);
        if allowed(prev, used, remaining, c) {
            assert(candidates_upto(prev, used, remaining, 4).contains(class_at(class_index(c))));
        }
    }
}

/// Counts the classes that have not been used yet.
pub fn count_missing(used: &[bool; 4]) -> (r: usize)
    ensures
        r == missing_count(*used),
{
    let mut n: usize = 0;
    if !used[0] {
        n += 1;
    }
    if !used[1] {
        n += 1;
    }
    if !used[2] {
        n += 1;
    }
    if !used[3] {
        n += 1;
    }
    n
}

/// The classes allowed at the next position, given the previous class, the
/// classes used so far and the positions left (this one included).
pub fn class_candidates(prev: Option<CharClass>, used: &[bool; 4], remaining: usize) -> (r: Vec<CharClass>)
    ensures
        r@ == candidates(prev, *used, remaining as nat),
{
    let missing = count_missing(used);
    let forced = missing == remaining;
    let mut r: Vec<CharClass> = Vec::new();
    let mut i: usize = 0;
    while i < 4
        invariant
            i <= 4,
            forced == (missing_count(*used) == remaining),
            r@ == candidates_upto(prev, *used, remaining as nat, i as int),
        decreases 4 - i,
    {
        let c = CharClass::from_index(i);
        let not_prev = match prev {
            Some(p) => p != c,
            None => true,
        };
        if not_prev && (!forced || !used[i]) {
            r.push(c);
        }
        i += 1;
    }
    r
}

/// Chooses the class of the next position: uniformly over the candidates by
/// `draw`, or none when no class may follow.
pub fn next_class(prev: Option<CharClass>, position: usize, length: usize, used: &[bool; 4], draw: u64) -> (r: Option<CharClass>)
    requires
        position < length,
    ensures
        r == pick_class(candidates(prev, *used, (length - position) as nat), draw),
{
    let cands = class_candidates(prev, used, length - position);
    if cands.len() == 0 {
        None
    } else {
        let idx = (draw % (cands.len() as u64)) as usize;
        Some(cands[idx])
    }
}

} // verus!
