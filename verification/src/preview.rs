//! Baked team-preview action space: NC2000 previews are ordered picks of 3
//! from 6, but bench order only decides which display slot a random drag-in
//! resolves to, so the canonical space is the 60 triples (20 subsets x 3
//! leads, bench ascending). Teams are keyed by an order-insensitive
//! signature of their rosters.

use vstd::prelude::*;

use crate::sort::{
    insert_sorted, lemma_insert_prefix, lemma_insert_start, lemma_insert_stop, lemma_sort_forgets_order,
    lemma_stable_sorted_is_permutation, stable_sorted, total_order,
};

verus! {

/// The canonical preview actions `[lead, bench_lo, bench_hi]` (1-based
/// roster positions): subsets in lexicographic order, leads in subset
/// order, bench ascending.
pub open spec fn canonical_actions() -> Seq<[u8; 3]> {
    seq![
        [1u8, 2u8, 3u8],
        [2u8, 1u8, 3u8],
        [3u8, 1u8, 2u8],
        [1u8, 2u8, 4u8],
        [2u8, 1u8, 4u8],
        [4u8, 1u8, 2u8],
        [1u8, 2u8, 5u8],
        [2u8, 1u8, 5u8],
        [5u8, 1u8, 2u8],
        [1u8, 2u8, 6u8],
        [2u8, 1u8, 6u8],
        [6u8, 1u8, 2u8],
        [1u8, 3u8, 4u8],
        [3u8, 1u8, 4u8],
        [4u8, 1u8, 3u8],
        [1u8, 3u8, 5u8],
        [3u8, 1u8, 5u8],
        [5u8, 1u8, 3u8],
        [1u8, 3u8, 6u8],
        [3u8, 1u8, 6u8],
        [6u8, 1u8, 3u8],
        [1u8, 4u8, 5u8],
        [4u8, 1u8, 5u8],
        [5u8, 1u8, 4u8],
        [1u8, 4u8, 6u8],
        [4u8, 1u8, 6u8],
        [6u8, 1u8, 4u8],
        [1u8, 5u8, 6u8],
        [5u8, 1u8, 6u8],
        [6u8, 1u8, 5u8],
        [2u8, 3u8, 4u8],
        [3u8, 2u8, 4u8],
        [4u8, 2u8, 3u8],
        [2u8, 3u8, 5u8],
        [3u8, 2u8, 5u8],
        [5u8, 2u8, 3u8],
        [2u8, 3u8, 6u8],
        [3u8, 2u8, 6u8],
        [6u8, 2u8, 3u8],
        [2u8, 4u8, 5u8],
        [4u8, 2u8, 5u8],
        [5u8, 2u8, 4u8],
        [2u8, 4u8, 6u8],
        [4u8, 2u8, 6u8],
        [6u8, 2u8, 4u8],
        [2u8, 5u8, 6u8],
        [5u8, 2u8, 6u8],
        [6u8, 2u8, 5u8],
        [3u8, 4u8, 5u8],
        [4u8, 3u8, 5u8],
        [5u8, 3u8, 4u8],
        [3u8, 4u8, 6u8],
        [4u8, 3u8, 6u8],
        [6u8, 3u8, 4u8],
        [3u8, 5u8, 6u8],
        [5u8, 3u8, 6u8],
        [6u8, 3u8, 5u8],
        [4u8, 5u8, 6u8],
        [5u8, 4u8, 6u8],
        [6u8, 4u8, 5u8]
    ]
}

/// Position of `t` in `canonical_actions()`, or -1.
pub open spec fn canonical_position(t: [u8; 3]) -> int {
    if t[0] == 1 && t[1] == 2 && t[2] == 3 {
        0
    }     else if t[0] == 2 && t[1] == 1 && t[2] == 3 {
        1
    }     else if t[0] == 3 && t[1] == 1 && t[2] == 2 {
        2
    }     else if t[0] == 1 && t[1] == 2 && t[2] == 4 {
        3
    }     else if t[0] == 2 && t[1] == 1 && t[2] == 4 {
        4
    }     else if t[0] == 4 && t[1] == 1 && t[2] == 2 {
        5
    }     else if t[0] == 1 && t[1] == 2 && t[2] == 5 {
        6
    }     else if t[0] == 2 && t[1] == 1 && t[2] == 5 {
        7
    }     else if t[0] == 5 && t[1] == 1 && t[2] == 2 {
        8
    }     else if t[0] == 1 && t[1] == 2 && t[2] == 6 {
        9
    }     else if t[0] == 2 && t[1] == 1 && t[2] == 6 {
        10
    }     else if t[0] == 6 && t[1] == 1 && t[2] == 2 {
        11
    }     else if t[0] == 1 && t[1] == 3 && t[2] == 4 {
        12
    }     else if t[0] == 3 && t[1] == 1 && t[2] == 4 {
        13
    }     else if t[0] == 4 && t[1] == 1 && t[2] == 3 {
        14
    }     else if t[0] == 1 && t[1] == 3 && t[2] == 5 {
        15
    }     else if t[0] == 3 && t[1] == 1 && t[2] == 5 {
        16
    }     else if t[0] == 5 && t[1] == 1 && t[2] == 3 {
        17
    }     else if t[0] == 1 && t[1] == 3 && t[2] == 6 {
        18
    }     else if t[0] == 3 && t[1] == 1 && t[2] == 6 {
        19
    }     else if t[0] == 6 && t[1] == 1 && t[2] == 3 {
        20
    }     else if t[0] == 1 && t[1] == 4 && t[2] == 5 {
        21
    }     else if t[0] == 4 && t[1] == 1 && t[2] == 5 {
        22
    }     else if t[0] == 5 && t[1] == 1 && t[2] == 4 {
        23
    }     else if t[0] == 1 && t[1] == 4 && t[2] == 6 {
        24
    }     else if t[0] == 4 && t[1] == 1 && t[2] == 6 {
        25
    }     else if t[0] == 6 && t[1] == 1 && t[2] == 4 {
        26
    }     else if t[0] == 1 && t[1] == 5 && t[2] == 6 {
        27
    }     else if t[0] == 5 && t[1] == 1 && t[2] == 6 {
        28
    }     else if t[0] == 6 && t[1] == 1 && t[2] == 5 {
        29
    }     else if t[0] == 2 && t[1] == 3 && t[2] == 4 {
        30
    }     else if t[0] == 3 && t[1] == 2 && t[2] == 4 {
        31
    }     else if t[0] == 4 && t[1] == 2 && t[2] == 3 {
        32
    }     else if t[0] == 2 && t[1] == 3 && t[2] == 5 {
        33
    }     else if t[0] == 3 && t[1] == 2 && t[2] == 5 {
        34
    }     else if t[0] == 5 && t[1] == 2 && t[2] == 3 {
        35
    }     else if t[0] == 2 && t[1] == 3 && t[2] == 6 {
        36
    }     else if t[0] == 3 && t[1] == 2 && t[2] == 6 {
        37
    }     else if t[0] == 6 && t[1] == 2 && t[2] == 3 {
        38
    }     else if t[0] == 2 && t[1] == 4 && t[2] == 5 {
        39
    }     else if t[0] == 4 && t[1] == 2 && t[2] == 5 {
        40
    }     else if t[0] == 5 && t[1] == 2 && t[2] == 4 {
        41
    }     else if t[0] == 2 && t[1] == 4 && t[2] == 6 {
        42
    }     else if t[0] == 4 && t[1] == 2 && t[2] == 6 {
        43
    }     else if t[0] == 6 && t[1] == 2 && t[2] == 4 {
        44
    }     else if t[0] == 2 && t[1] == 5 && t[2] == 6 {
        45
    }     else if t[0] == 5 && t[1] == 2 && t[2] == 6 {
        46
    }     else if t[0] == 6 && t[1] == 2 && t[2] == 5 {
        47
    }     else if t[0] == 3 && t[1] == 4 && t[2] == 5 {
        48
    }     else if t[0] == 4 && t[1] == 3 && t[2] == 5 {
        49
    }     else if t[0] == 5 && t[1] == 3 && t[2] == 4 {
        50
    }     else if t[0] == 3 && t[1] == 4 && t[2] == 6 {
        51
    }     else if t[0] == 4 && t[1] == 3 && t[2] == 6 {
        52
    }     else if t[0] == 6 && t[1] == 3 && t[2] == 4 {
        53
    }     else if t[0] == 3 && t[1] == 5 && t[2] == 6 {
        54
    }     else if t[0] == 5 && t[1] == 3 && t[2] == 6 {
        55
    }     else if t[0] == 6 && t[1] == 3 && t[2] == 5 {
        56
    }     else if t[0] == 4 && t[1] == 5 && t[2] == 6 {
        57
    }     else if t[0] == 5 && t[1] == 4 && t[2] == 6 {
        58
    }     else if t[0] == 6 && t[1] == 4 && t[2] == 5 {
        59
    } else {
        -1
    }
}

/// Three distinct roster positions in `1..=6`, bench ascending.
pub open spec fn is_canonical(t: [u8; 3]) -> bool {
    &&& 1 <= t[0] <= 6 && 1 <= t[1] <= 6 && 1 <= t[2] <= 6
    &&& t[1] < t[2]
    &&& t[0] != t[1] && t[0] != t[2]
}

/// Lead kept, bench put in ascending order.
pub open spec fn canonical_of(t: [u8; 3]) -> [u8; 3] {
    if t[1] <= t[2] {
        t
    } else {
        [t[0], t[2], t[1]]
    }
}

/// Canonical preview actions.
pub fn preview_actions() -> (out: Vec<[u8; 3]>)
    ensures
        out@ == canonical_actions(),
{
    let mut out: Vec<[u8; 3]> = Vec::new();
    out.push([1u8, 2u8, 3u8]);
    out.push([2u8, 1u8, 3u8]);
    out.push([3u8, 1u8, 2u8]);
    out.push([1u8, 2u8, 4u8]);
    out.push([2u8, 1u8, 4u8]);
    out.push([4u8, 1u8, 2u8]);
    out.push([1u8, 2u8, 5u8]);
    out.push([2u8, 1u8, 5u8]);
    out.push([5u8, 1u8, 2u8]);
    out.push([1u8, 2u8, 6u8]);
    out.push([2u8, 1u8, 6u8]);
    out.push([6u8, 1u8, 2u8]);
    out.push([1u8, 3u8, 4u8]);
    out.push([3u8, 1u8, 4u8]);
    out.push([4u8, 1u8, 3u8]);
    out.push([1u8, 3u8, 5u8]);
    out.push([3u8, 1u8, 5u8]);
    out.push([5u8, 1u8, 3u8]);
    out.push([1u8, 3u8, 6u8]);
    out.push([3u8, 1u8, 6u8]);
    out.push([6u8, 1u8, 3u8]);
    out.push([1u8, 4u8, 5u8]);
    out.push([4u8, 1u8, 5u8]);
    out.push([5u8, 1u8, 4u8]);
    out.push([1u8, 4u8, 6u8]);
    out.push([4u8, 1u8, 6u8]);
    out.push([6u8, 1u8, 4u8]);
    out.push([1u8, 5u8, 6u8]);
    out.push([5u8, 1u8, 6u8]);
    out.push([6u8, 1u8, 5u8]);
    out.push([2u8, 3u8, 4u8]);
    out.push([3u8, 2u8, 4u8]);
    out.push([4u8, 2u8, 3u8]);
    out.push([2u8, 3u8, 5u8]);
    out.push([3u8, 2u8, 5u8]);
    out.push([5u8, 2u8, 3u8]);
    out.push([2u8, 3u8, 6u8]);
    out.push([3u8, 2u8, 6u8]);
    out.push([6u8, 2u8, 3u8]);
    out.push([2u8, 4u8, 5u8]);
    out.push([4u8, 2u8, 5u8]);
    out.push([5u8, 2u8, 4u8]);
    out.push([2u8, 4u8, 6u8]);
    out.push([4u8, 2u8, 6u8]);
    out.push([6u8, 2u8, 4u8]);
    out.push([2u8, 5u8, 6u8]);
    out.push([5u8, 2u8, 6u8]);
    out.push([6u8, 2u8, 5u8]);
    out.push([3u8, 4u8, 5u8]);
    out.push([4u8, 3u8, 5u8]);
    out.push([5u8, 3u8, 4u8]);
    out.push([3u8, 4u8, 6u8]);
    out.push([4u8, 3u8, 6u8]);
    out.push([6u8, 3u8, 4u8]);
    out.push([3u8, 5u8, 6u8]);
    out.push([5u8, 3u8, 6u8]);
    out.push([6u8, 3u8, 5u8]);
    out.push([4u8, 5u8, 6u8]);
    out.push([5u8, 4u8, 6u8]);
    out.push([6u8, 4u8, 5u8]);
    assert(out@ =~= canonical_actions());
    out
}

/// Lead kept, bench ascending.
pub fn canonical_triple(t: [u8; 3]) -> (r: [u8; 3])
    ensures
        r == canonical_of(t),
{
    if t[1] <= t[2] {
        t
    } else {
        [t[0], t[2], t[1]]
    }
}

/// Canonical index of an arbitrary ordered `Team` triple (lead kept, bench
/// sorted): the first position of its canonical form in `actions`.
pub fn action_index(actions: &[[u8; 3]], triple: [u8; 3]) -> (r: Option<usize>)
    ensures
        match r {
            Some(i) => i < actions@.len() && actions@[i as int] == canonical_of(triple) && forall|j: int|
                0 <= j < i ==> actions@[j] != canonical_of(triple),
            None => forall|j: int| 0 <= j < actions@.len() ==> actions@[j] != canonical_of(triple),
        },
{
    let canon = canonical_triple(triple);
    let n = actions.len();
    for i in 0..n
        invariant
            n == actions@.len(),
            canon == canonical_of(triple),
            forall|j: int| 0 <= j < i ==> actions@[j] != canon,
    {
        let a = actions[i];
        if a[0] == canon[0] && a[1] == canon[1] && a[2] == canon[2] {
            assert(a@ =~= canon@);
            return Some(i);
        }
        assert(a != canon) by {
            if a == canon {
                assert(a[0] == canon[0]);
            }
        }
    }
    None
}

/// Every canonical action sits at its own position, and the canonical
/// actions are exactly the canonical triples: each appears once.
pub proof fn lemma_canonical_actions()
    ensures
        canonical_actions().len() == 60,
        forall|i: int| 0 <= i < 60 ==> is_canonical(#[trigger] canonical_actions()[i]),
        forall|i: int| 0 <= i < 60 ==> canonical_position(#[trigger] canonical_actions()[i]) == i,
        forall|i: int, j: int|
            0 <= i < 60 && 0 <= j < 60 && canonical_actions()[i] == canonical_actions()[j] ==> i == j,
        forall|t: [u8; 3]| #[trigger] is_canonical(t) ==> 0 <= canonical_position(t) < 60
            && canonical_actions()[canonical_position(t)] == t,
{
    let s = canonical_actions();
    assert forall|i: int| 0 <= i < 60 implies is_canonical(#[trigger] s[i]) && canonical_position(s[i]) == i by {
        if i == 0 {
            assert(s[0] == s[i]);
        }         else if i == 1 {
            assert(s[1] == s[i]);
        }         else if i == 2 {
            assert(s[2] == s[i]);
        }         else if i == 3 {
            assert(s[3] == s[i]);
        }         else if i == 4 {
            assert(s[4] == s[i]);
        }         else if i == 5 {
            assert(s[5] == s[i]);
        }         else if i == 6 {
            assert(s[6] == s[i]);
        }         else if i == 7 {
            assert(s[7] == s[i]);
        }         else if i == 8 {
            assert(s[8] == s[i]);
        }         else if i == 9 {
            assert(s[9] == s[i]);
        }         else if i == 10 {
            assert(s[10] == s[i]);
        }         else if i == 11 {
            assert(s[11] == s[i]);
        }         else if i == 12 {
            assert(s[12] == s[i]);
        }         else if i == 13 {
            assert(s[13] == s[i]);
        }         else if i == 14 {
            assert(s[14] == s[i]);
        }         else if i == 15 {
            assert(s[15] == s[i]);
        }         else if i == 16 {
            assert(s[16] == s[i]);
        }         else if i == 17 {
            assert(s[17] == s[i]);
        }         else if i == 18 {
            assert(s[18] == s[i]);
        }         else if i == 19 {
            assert(s[19] == s[i]);
        }         else if i == 20 {
            assert(s[20] == s[i]);
        }         else if i == 21 {
            assert(s[21] == s[i]);
        }         else if i == 22 {
            assert(s[22] == s[i]);
        }         else if i == 23 {
            assert(s[23] == s[i]);
        }         else if i == 24 {
            assert(s[24] == s[i]);
        }         else if i == 25 {
            assert(s[25] == s[i]);
        }         else if i == 26 {
            assert(s[26] == s[i]);
        }         else if i == 27 {
            assert(s[27] == s[i]);
        }         else if i == 28 {
            assert(s[28] == s[i]);
        }         else if i == 29 {
            assert(s[29] == s[i]);
        }         else if i == 30 {
            assert(s[30] == s[i]);
        }         else if i == 31 {
            assert(s[31] == s[i]);
        }         else if i == 32 {
            assert(s[32] == s[i]);
        }         else if i == 33 {
            assert(s[33] == s[i]);
        }         else if i == 34 {
            assert(s[34] == s[i]);
        }         else if i == 35 {
            assert(s[35] == s[i]);
        }         else if i == 36 {
            assert(s[36] == s[i]);
        }         else if i == 37 {
            assert(s[37] == s[i]);
        }         else if i == 38 {
            assert(s[38] == s[i]);
        }         else if i == 39 {
            assert(s[39] == s[i]);
        }         else if i == 40 {
            assert(s[40] == s[i]);
        }         else if i == 41 {
            assert(s[41] == s[i]);
        }         else if i == 42 {
            assert(s[42] == s[i]);
        }         else if i == 43 {
            assert(s[43] == s[i]);
        }         else if i == 44 {
            assert(s[44] == s[i]);
        }         else if i == 45 {
            assert(s[45] == s[i]);
        }         else if i == 46 {
            assert(s[46] == s[i]);
        }         else if i == 47 {
            assert(s[47] == s[i]);
        }         else if i == 48 {
            assert(s[48] == s[i]);
        }         else if i == 49 {
            assert(s[49] == s[i]);
        }         else if i == 50 {
            assert(s[50] == s[i]);
        }         else if i == 51 {
            assert(s[51] == s[i]);
        }         else if i == 52 {
            assert(s[52] == s[i]);
        }         else if i == 53 {
            assert(s[53] == s[i]);
        }         else if i == 54 {
            assert(s[54] == s[i]);
        }         else if i == 55 {
            assert(s[55] == s[i]);
        }         else if i == 56 {
            assert(s[56] == s[i]);
        }         else if i == 57 {
            assert(s[57] == s[i]);
        }         else if i == 58 {
            assert(s[58] == s[i]);
        }         else if i == 59 {
            assert(s[59] == s[i]);
        } 
    }
    assert forall|t: [u8; 3]| #[trigger] is_canonical(t) implies 0 <= canonical_position(t) < 60
        && s[canonical_position(t)] == t by {
        let p = canonical_position(t);
        assert(0 <= p < 60);
        assert(is_canonical(s[p]) && canonical_position(s[p]) == p);
        assert(s[p][0] == t[0] && s[p][1] == t[1] && s[p][2] == t[2]);
        assert(s[p]@ =~= t@);
    }
}

/// How a baked preview table is played: a sample of its mixed
/// equilibrium, or its argmax.
#[derive(Clone, Copy, Debug)]
pub enum PreviewMode {
    Mixed,
    Argmax,
}

impl PreviewMode {
    /// The name of the agent that plays the table this way in front of the
    /// agent named `inner`: `baked(inner)` or `bakedarg(inner)`.
    pub fn baked_name(self, inner: &str) -> (s: String)
        ensures
            s@ == (match self {
                PreviewMode::Mixed => "baked"@,
                PreviewMode::Argmax => "bakedarg"@,
            }) + "("@ + inner@ + ")"@,
    {
        let mut s = match self {
            PreviewMode::Mixed => String::from_str("baked"),
            PreviewMode::Argmax => String::from_str("bakedarg"),
        };
        s.append("(");
        s.append(inner);
        s.append(")");
        s
    }

    /// The name of the agent that counter-picks an opponent playing the
    /// table this way: `counter(inner)` or `counterarg(inner)`.
    pub fn counter_name(self, inner: &str) -> (s: String)
        ensures
            s@ == (match self {
                PreviewMode::Mixed => "counter"@,
                PreviewMode::Argmax => "counterarg"@,
            }) + "("@ + inner@ + ")"@,
    {
        let mut s = match self {
            PreviewMode::Mixed => String::from_str("counter"),
            PreviewMode::Argmax => String::from_str("counterarg"),
        };
        s.append("(");
        s.append(inner);
        s.append(")");
        s
    }
}


// --------------------------------------------------------- team signatures

/// One roster mon as its team signature reads it: species, level, held
/// item and move ids (at most four).
#[derive(Debug)]
pub struct SigMon {
    pub species: u16,
    pub level: u8,
    pub item: Option<u16>,
    pub moves: Vec<u16>,
}

/// A signature entry as plain values.
pub type SigV = (u16, u8, u16, (u16, u16, u16, u16));

pub open spec fn u16_order() -> spec_fn(u16, u16) -> bool {
    |a: u16, b: u16| a <= b
}

/// Lexicographic order on signature entries.
pub open spec fn sig_le(a: SigV, b: SigV) -> bool {
    if a.0 != b.0 {
        a.0 < b.0
    } else if a.1 != b.1 {
        a.1 < b.1
    } else if a.2 != b.2 {
        a.2 < b.2
    } else if (a.3).0 != (b.3).0 {
        (a.3).0 < (b.3).0
    } else if (a.3).1 != (b.3).1 {
        (a.3).1 < (b.3).1
    } else if (a.3).2 != (b.3).2 {
        (a.3).2 < (b.3).2
    } else {
        (a.3).3 <= (b.3).3
    }
}

pub open spec fn sig_order() -> spec_fn(SigV, SigV) -> bool {
    |a: SigV, b: SigV| sig_le(a, b)
}

/// The move slots, padded with 0 to four.
pub open spec fn padded(moves: Seq<u16>) -> Seq<u16> {
    Seq::new(4, |i: int| if i < moves.len() { moves[i] } else { 0u16 })
}

/// A mon's signature entry: species, level, item id + 1 (0 for none), and
/// its four move slots in ascending order.
pub open spec fn entry_of(m: SigMon) -> SigV {
    let mv = stable_sorted(padded(m.moves@), u16_order());
    (m.species, m.level, match m.item {
        Some(i) => (i + 1) as u16,
        None => 0u16,
    }, (mv[0], mv[1], mv[2], mv[3]))
}

pub open spec fn sig_view(e: (u16, u8, u16, [u16; 4])) -> SigV {
    (e.0, e.1, e.2, (e.3[0], e.3[1], e.3[2], e.3[3]))
}

/// The team signature: the entries of the roster's mons, in ascending
/// order.
pub open spec fn roster_sig_spec(mons: Seq<SigMon>) -> Seq<SigV> {
    stable_sorted(mons.map_values(|m: SigMon| entry_of(m)), sig_order())
}

proof fn lemma_u16_total()
    ensures
        total_order(u16_order()),
{
}

proof fn lemma_sig_total()
    ensures
        total_order(sig_order()),
{
}

fn sort_u16s(v: Vec<u16>) -> (out: Vec<u16>)
    ensures
        out@ == stable_sorted(v@, u16_order()),
{
    let ghost le = u16_order();
    let ghost src = v@;
    let mut out: Vec<u16> = Vec::new();
    let n = v.len();
    for k in 0..n
        invariant
            n == src.len(),
            src == v@,
            le == u16_order(),
            out@ == stable_sorted(src.take(k as int), le),
    {
        let x = v[k];
        let ghost t = out@;
        let mut j = out.len();
        proof {
            lemma_insert_start(t, x, le);
        }
        loop
            invariant
                j <= out@.len(),
                t == out@,
                le == u16_order(),
                insert_sorted(t, x, le) == insert_sorted(t.take(j as int), x, le) + t.subrange(j as int, t.len() as int),
            ensures
                j <= out@.len(),
                j == 0 || le(t[j - 1], x),
                insert_sorted(t, x, le) == insert_sorted(t.take(j as int), x, le) + t.subrange(j as int, t.len() as int),
            decreases j,
        {
            if j == 0 {
                break;
            }
            if out[j - 1] <= x {
                break;
            }
            proof {
                lemma_insert_prefix(t, x, le, j as int);
            }
            j = j - 1;
        }
        proof {
            lemma_insert_stop(t, x, le, j as int);
        }
        out.insert(j, x);
        proof {
            assert(src.take(k + 1).drop_last() =~= src.take(k as int));
            assert(src.take(k + 1).last() == src[k as int]);
        }
    }
    proof {
        assert(src.take(n as int) =~= src);
    }
    out
}

fn sig_leq(a: &(u16, u8, u16, [u16; 4]), b: &(u16, u8, u16, [u16; 4])) -> (r: bool)
    ensures
        r == sig_le(sig_view(*a), sig_view(*b)),
{
    if a.0 != b.0 {
        a.0 < b.0
    } else if a.1 != b.1 {
        a.1 < b.1
    } else if a.2 != b.2 {
        a.2 < b.2
    } else if a.3[0] != b.3[0] {
        a.3[0] < b.3[0]
    } else if a.3[1] != b.3[1] {
        a.3[1] < b.3[1]
    } else if a.3[2] != b.3[2] {
        a.3[2] < b.3[2]
    } else {
        a.3[3] <= b.3[3]
    }
}

fn sort_sigs(v: Vec<(u16, u8, u16, [u16; 4])>) -> (out: Vec<(u16, u8, u16, [u16; 4])>)
    ensures
        out@.map_values(|e: (u16, u8, u16, [u16; 4])| sig_view(e)) == stable_sorted(
            v@.map_values(|e: (u16, u8, u16, [u16; 4])| sig_view(e)),
            sig_order(),
        ),
{
    let ghost le = sig_order();
    let ghost src = v@.map_values(|e: (u16, u8, u16, [u16; 4])| sig_view(e));
    let mut out: Vec<(u16, u8, u16, [u16; 4])> = Vec::new();
    let n = v.len();
    for k in 0..n
        invariant
            n == src.len(),
            n == v@.len(),
            src == v@.map_values(|e: (u16, u8, u16, [u16; 4])| sig_view(e)),
            le == sig_order(),
            out@.map_values(|e: (u16, u8, u16, [u16; 4])| sig_view(e)) == stable_sorted(src.take(k as int), le),
    {
        let x = v[k];
        assert(src[k as int] == sig_view(x));
        let ghost t = out@.map_values(|e: (u16, u8, u16, [u16; 4])| sig_view(e));
        let mut j = out.len();
        proof {
            lemma_insert_start(t, sig_view(x), le);
        }
        loop
            invariant
                j <= out@.len(),
                t == out@.map_values(|e: (u16, u8, u16, [u16; 4])| sig_view(e)),
                le == sig_order(),
                insert_sorted(t, sig_view(x), le) == insert_sorted(t.take(j as int), sig_view(x), le) + t.subrange(j as int, t.len() as int),
            ensures
                j <= out@.len(),
                j == 0 || le(t[j - 1], sig_view(x)),
                insert_sorted(t, sig_view(x), le) == insert_sorted(t.take(j as int), sig_view(x), le) + t.subrange(j as int, t.len() as int),
            decreases j,
        {
            if j == 0 {
                break;
            }
            assert(t[j - 1] == sig_view(out@[j - 1]));
            if sig_leq(&out[j - 1], &x) {
                break;
            }
            proof {
                lemma_insert_prefix(t, sig_view(x), le, j as int);
            }
            j = j - 1;
        }
        proof {
            lemma_insert_stop(t, sig_view(x), le, j as int);
        }
        out.insert(j, x);
        proof {
            assert(src.take(k + 1).drop_last() =~= src.take(k as int));
            assert(src.take(k + 1).last() == src[k as int]);
            assert(out@.map_values(|e: (u16, u8, u16, [u16; 4])| sig_view(e)) =~= t.insert(j as int, sig_view(x)));
        }
    }
    proof {
        assert(src.take(n as int) =~= src);
    }
    out
}

fn entry(m: &SigMon) -> (r: (u16, u8, u16, [u16; 4]))
    requires
        m.moves@.len() <= 4,
        m.item matches Some(x) ==> x < u16::MAX,
    ensures
        sig_view(r) == entry_of(*m),
{
    let mut pad: Vec<u16> = Vec::new();
    for i in 0..4usize
        invariant
            m.moves@.len() <= 4,
            pad@.len() == i,
            forall|k: int| 0 <= k < i ==> pad@[k] == padded(m.moves@)[k],
    {
        pad.push(if i < m.moves.len() { m.moves[i] } else { 0u16 });
    }
    assert(pad@ =~= padded(m.moves@));
    let w = sort_u16s(pad);
    proof {
        lemma_stable_sorted_is_permutation(padded(m.moves@), u16_order());
    }
    let code: u16 = match m.item {
        Some(i) => i + 1,
        None => 0,
    };
    (m.species, m.level, code, [w[0], w[1], w[2], w[3]])
}

/// The order-insensitive identity of a roster: each mon's (species, level,
/// item id + 1 or 0, move ids ascending), the entries ascending.
pub fn roster_sig(mons: &[SigMon]) -> (out: Vec<(u16, u8, u16, [u16; 4])>)
    requires
        forall|i: int| 0 <= i < mons@.len() ==> (#[trigger] mons@[i]).moves@.len() <= 4 && (mons@[i].item matches Some(x) ==> x < u16::MAX),
    ensures
        out@.map_values(|e: (u16, u8, u16, [u16; 4])| sig_view(e)) == roster_sig_spec(mons@),
{
    let mut v: Vec<(u16, u8, u16, [u16; 4])> = Vec::new();
    for i in 0..mons.len()
        invariant
            forall|k: int| 0 <= k < mons@.len() ==> (#[trigger] mons@[k]).moves@.len() <= 4 && (mons@[k].item matches Some(x) ==> x < u16::MAX),
            v@.len() == i,
            forall|k: int| 0 <= k < i ==> sig_view(#[trigger] v@[k]) == entry_of(mons@[k]),
    {
        v.push(entry(&mons[i]));
    }
    assert(v@.map_values(|e: (u16, u8, u16, [u16; 4])| sig_view(e)) =~= mons@.map_values(|m: SigMon| entry_of(m)));
    sort_sigs(v)
}

/// Law: a mon's signature entry does not depend on the order of its move
/// slots.
pub proof fn lemma_entry_ignores_move_order(m1: SigMon, m2: SigMon)
    requires
        m1.species == m2.species,
        m1.level == m2.level,
        m1.item == m2.item,
        padded(m1.moves@).to_multiset() == padded(m2.moves@).to_multiset(),
    ensures
        entry_of(m1) == entry_of(m2),
{
    lemma_u16_total();
    lemma_sort_forgets_order(padded(m1.moves@), padded(m2.moves@), u16_order());
}

/// Law: the team signature does not depend on the roster order: rosters
/// whose mons have the same entries, in any order, have the same
/// signature.
pub proof fn lemma_roster_sig_ignores_order(a: Seq<SigMon>, b: Seq<SigMon>)
    requires
        a.map_values(|m: SigMon| entry_of(m)).to_multiset() == b.map_values(|m: SigMon| entry_of(m)).to_multiset(),
    ensures
        roster_sig_spec(a) == roster_sig_spec(b),
{
    lemma_sig_total();
    lemma_sort_forgets_order(a.map_values(|m: SigMon| entry_of(m)), b.map_values(|m: SigMon| entry_of(m)), sig_order());
}

} // verus!
