//! Root move selection of the blind search: the most visited action that
//! the dominance check has not ruled out.

use vstd::prelude::*;

verus! {

/// Action `i` is not ruled out (an index past the mask is never ruled out).
pub open spec fn allowed(dominated: Option<Seq<bool>>, i: int) -> bool {
    match dominated {
        None => true,
        Some(d) => !(0 <= i < d.len() && d[i]),
    }
}

/// `r` is the last allowed action with the most visits among allowed ones
/// (the play rule of the search's best action: the last maximum on ties).
pub open spec fn is_last_best_allowed(visits: Seq<u32>, dominated: Option<Seq<bool>>, r: int) -> bool {
    &&& 0 <= r < visits.len()
    &&& allowed(dominated, r)
    &&& forall|j: int| 0 <= j < visits.len() && allowed(dominated, j) ==> visits[j] <= visits[r]
    &&& forall|j: int| r < j < visits.len() && allowed(dominated, j) ==> visits[j] < visits[r]
}

/// `r` is the last action with the most visits.
pub open spec fn is_last_best(visits: Seq<u32>, r: int) -> bool {
    &&& 0 <= r < visits.len()
    &&& forall|j: int| 0 <= j < visits.len() ==> visits[j] <= visits[r]
    &&& forall|j: int| r < j < visits.len() ==> visits[j] < visits[r]
}

pub open spec fn opt_seq(d: Option<&[bool]>) -> Option<Seq<bool>> {
    match d {
        Some(s) => Some(s@),
        None => None,
    }
}

fn allowed_exec(dominated: Option<&[bool]>, i: usize) -> (r: bool)
    ensures
        r == allowed(opt_seq(dominated), i as int),
{
    match dominated {
        None => true,
        Some(d) => !(i < d.len() && d[i]),
    }
}

/// The most visited allowed action; when every action is ruled out, the
/// most visited action; the last one on ties either way (the same play
/// rule as the search's best action); 0 when there are none.
pub fn argmax_visits(visits: &[u32], dominated: Option<&[bool]>) -> (r: usize)
    ensures
        (exists|i: int| 0 <= i < visits@.len() && allowed(opt_seq(dominated), i)) ==> is_last_best_allowed(
            visits@,
            opt_seq(dominated),
            r as int,
        ),
        !(exists|i: int| 0 <= i < visits@.len() && allowed(opt_seq(dominated), i)) && visits@.len() > 0
            ==> is_last_best(visits@, r as int),
        visits@.len() == 0 ==> r == 0,
{
    let ghost dm = opt_seq(dominated);
    let mut best: Option<usize> = None;
    for i in 0..visits.len()
        invariant
            dm == opt_seq(dominated),
            best is None ==> forall|j: int| 0 <= j < i ==> !allowed(dm, j),
            best matches Some(b) ==> b < i && allowed(dm, b as int) && (forall|j: int|
                0 <= j < i && allowed(dm, j) ==> visits@[j] <= visits@[b as int]) && (forall|j: int|
                b < j < i && allowed(dm, j) ==> visits@[j] < visits@[b as int]),
    {
        if allowed_exec(dominated, i) {
            match best {
                None => {
                    best = Some(i);
                },
                Some(b) => {
                    if visits[i] >= visits[b] {
                        best = Some(i);
                    }
                },
            }
        }
    }
    match best {
        Some(b) => b,
        None => {
            if visits.len() == 0 {
                return 0;
            }
            let mut m: usize = 0;
            for i in 1..visits.len()
                invariant
                    m < i <= visits@.len(),
                    forall|j: int| 0 <= j < i ==> visits@[j] <= visits@[m as int],
                    forall|j: int| m < j < i ==> visits@[j] < visits@[m as int],
            {
                if visits[i] >= visits[m] {
                    m = i;
                }
            }
            m
        },
    }
}

} // verus!
