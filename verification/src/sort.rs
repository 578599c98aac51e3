//! Stable insertion sort, stated against its recursive definition: each
//! element is placed after every earlier-placed element it does not
//! precede, so elements that compare equal keep their input order.

use vstd::prelude::*;

verus! {

/// `t` with `x` placed after its last element `le`-below-or-equal `x`.
pub open spec fn insert_sorted<A>(t: Seq<A>, x: A, le: spec_fn(A, A) -> bool) -> Seq<A>
    decreases t.len(),
{
    if t.len() == 0 || le(t.last(), x) {
        t.push(x)
    } else {
        insert_sorted(t.drop_last(), x, le).push(t.last())
    }
}

/// The stable sort of `s` under `le`.
pub open spec fn stable_sorted<A>(s: Seq<A>, le: spec_fn(A, A) -> bool) -> Seq<A>
    decreases s.len(),
{
    if s.len() == 0 {
        s
    } else {
        insert_sorted(stable_sorted(s.drop_last(), le), s.last(), le)
    }
}

/// Lexicographic order on byte strings (a proper prefix comes first).
pub open spec fn lex_le(a: Seq<u8>, b: Seq<u8>) -> bool
    decreases a.len(),
{
    if a.len() == 0 {
        true
    } else if b.len() == 0 {
        false
    } else if a[0] != b[0] {
        a[0] < b[0]
    } else {
        lex_le(a.drop_first(), b.drop_first())
    }
}

/// `(battle, decision)` pairs in lexicographic order.
pub open spec fn pair_le(a: (usize, usize), b: (usize, usize)) -> bool {
    a.0 < b.0 || (a.0 == b.0 && a.1 <= b.1)
}

pub(crate) proof fn lemma_insert_step<A>(t: Seq<A>, x: A, le: spec_fn(A, A) -> bool, j: int)
    requires
        0 < j <= t.len(),
        !le(t[j - 1], x),
    ensures
        insert_sorted(t.take(j), x, le) == insert_sorted(t.take(j - 1), x, le).push(t[j - 1]),
{
    assert(t.take(j).drop_last() =~= t.take(j - 1));
}

fn bytes_le(a: &Vec<u8>, b: &Vec<u8>) -> (r: bool)
    ensures
        r == lex_le(a@, b@),
{
    let n = a.len();
    let m = b.len();
    let mut i: usize = 0;
    assert(a@.skip(0) =~= a@);
    assert(b@.skip(0) =~= b@);
    while i < n && i < m && a[i] == b[i]
        invariant
            n == a@.len(),
            m == b@.len(),
            i <= n,
            i <= m,
            lex_le(a@, b@) == lex_le(a@.skip(i as int), b@.skip(i as int)),
        decreases n - i,
    {
        assert(a@.skip(i as int).drop_first() =~= a@.skip(i + 1));
        assert(b@.skip(i as int).drop_first() =~= b@.skip(i + 1));
        i = i + 1;
    }
    if i == n {
        true
    } else if i == m {
        false
    } else {
        a[i] < b[i]
    }
}

pub(crate) proof fn lemma_insert_prefix<A>(t: Seq<A>, x: A, le: spec_fn(A, A) -> bool, j: int)
    requires
        0 < j <= t.len(),
        !le(t[j - 1], x),
        insert_sorted(t, x, le) == insert_sorted(t.take(j), x, le) + t.subrange(j, t.len() as int),
    ensures
        insert_sorted(t, x, le) == insert_sorted(t.take(j - 1), x, le) + t.subrange(
            j - 1,
            t.len() as int,
        ),
{
    lemma_insert_step(t, x, le, j);
    assert(insert_sorted(t.take(j - 1), x, le).push(t[j - 1]) + t.subrange(j, t.len() as int)
        =~= insert_sorted(t.take(j - 1), x, le) + t.subrange(j - 1, t.len() as int));
}

pub(crate) proof fn lemma_insert_stop<A>(t: Seq<A>, x: A, le: spec_fn(A, A) -> bool, j: int)
    requires
        0 <= j <= t.len(),
        j == 0 || le(t[j - 1], x),
        insert_sorted(t, x, le) == insert_sorted(t.take(j), x, le) + t.subrange(j, t.len() as int),
    ensures
        insert_sorted(t, x, le) == t.take(j).insert(j, x) + t.subrange(j, t.len() as int),
        insert_sorted(t, x, le) == t.insert(j, x),
{
    if j > 0 {
        assert(t.take(j).last() == t[j - 1]);
    }
    assert(insert_sorted(t.take(j), x, le) =~= t.take(j).push(x));
    assert(t.take(j).insert(j, x) =~= t.take(j).push(x));
    assert(t.take(j).push(x) + t.subrange(j, t.len() as int) =~= t.insert(j, x));
}

pub(crate) proof fn lemma_insert_start<A>(t: Seq<A>, x: A, le: spec_fn(A, A) -> bool)
    ensures
        insert_sorted(t, x, le) == insert_sorted(t.take(t.len() as int), x, le) + t.subrange(
            t.len() as int,
            t.len() as int,
        ),
{
    assert(t.take(t.len() as int) =~= t);
    assert(insert_sorted(t, x, le) + t.subrange(t.len() as int, t.len() as int) =~= insert_sorted(
        t,
        x,
        le,
    ));
}

/// Sorts byte strings lexicographically (`sort` on `Vec<Vec<u8>>`).
pub fn sort_byte_strings(v: Vec<Vec<u8>>) -> (out: Vec<Vec<u8>>)
    ensures
        out@.map_values(|x: Vec<u8>| x@) == stable_sorted(
            v@.map_values(|x: Vec<u8>| x@),
            |a: Seq<u8>, b: Seq<u8>| lex_le(a, b),
        ),
{
    let ghost le = |a: Seq<u8>, b: Seq<u8>| lex_le(a, b);
    let ghost src = v@.map_values(|x: Vec<u8>| x@);
    let mut rest = v;
    let mut out: Vec<Vec<u8>> = Vec::new();
    let ghost mut k: int = 0;
    while rest.len() > 0
        invariant
            0 <= k <= src.len(),
            rest@.map_values(|x: Vec<u8>| x@) == src.subrange(k, src.len() as int),
            rest@.len() == src.len() - k,
            le == (|a: Seq<u8>, b: Seq<u8>| lex_le(a, b)),
            out@.map_values(|x: Vec<u8>| x@) == stable_sorted(src.take(k), le),
        decreases rest.len(),
    {
        let ghost before = rest@;
        let x = rest.remove(0);
        let ghost t = out@.map_values(|y: Vec<u8>| y@);
        assert(before.map_values(|y: Vec<u8>| y@)[0] == before[0]@);
        assert(x@ == src[k]);
        let mut j = out.len();
        proof {
            lemma_insert_start(t, x@, le);
        }
        loop
            invariant
                j <= out@.len(),
                t == out@.map_values(|y: Vec<u8>| y@),
                le == (|a: Seq<u8>, b: Seq<u8>| lex_le(a, b)),
                insert_sorted(t, x@, le) == insert_sorted(t.take(j as int), x@, le) + t.subrange(
                    j as int,
                    t.len() as int,
                ),
            ensures
                j <= out@.len(),
                j == 0 || le(t[j - 1], x@),
                insert_sorted(t, x@, le) == insert_sorted(t.take(j as int), x@, le) + t.subrange(
                    j as int,
                    t.len() as int,
                ),
            decreases j,
        {
            if j == 0 {
                break;
            }
            assert(t[j - 1] == out@[j - 1]@);
            let stop = bytes_le(&out[j - 1], &x);
            assert(le(t[j - 1], x@) <==> lex_le(t[j - 1], x@));
            if stop {
                break;
            }
            proof {
                lemma_insert_prefix(t, x@, le, j as int);
            }
            j = j - 1;
        }
        proof {
            lemma_insert_stop(t, x@, le, j as int);
        }
        out.insert(j, x);
        proof {
            assert(src.take(k + 1).drop_last() =~= src.take(k));
            assert(src.take(k + 1).last() == src[k]);
            assert(out@.map_values(|y: Vec<u8>| y@) =~= t.insert(j as int, x@));
            k = k + 1;
            assert(rest@ =~= before.subrange(1, before.len() as int));
            assert forall|i: int| 0 <= i < rest@.len() implies rest@.map_values(|y: Vec<u8>| y@)[i]
                == src.subrange(k, src.len() as int)[i] by {
                assert(before.map_values(|y: Vec<u8>| y@)[i + 1] == before[i + 1]@);
            }
            assert(rest@.map_values(|y: Vec<u8>| y@) =~= src.subrange(k, src.len() as int));
        }
    }
    proof {
        assert(src.take(k) =~= src);
    }
    out
}

fn pair_leq(a: (usize, usize), b: (usize, usize)) -> (r: bool)
    ensures
        r == pair_le(a, b),
{
    a.0 < b.0 || (a.0 == b.0 && a.1 <= b.1)
}

/// Sorts `idx` stably by `keys[idx[i]]` (`sort_by_key` on `(battle, decision)`).
pub fn sort_indices_by_pair(idx: Vec<usize>, keys: &Vec<(usize, usize)>) -> (out: Vec<usize>)
    requires
        forall|i: int| 0 <= i < idx@.len() ==> idx@[i] < keys@.len(),
    ensures
        out@ == stable_sorted(idx@, |a: usize, b: usize| pair_le(keys@[a as int], keys@[b as int])),
{
    let ghost le = |a: usize, b: usize| pair_le(keys@[a as int], keys@[b as int]);
    let ghost src = idx@;
    let mut out: Vec<usize> = Vec::new();
    let n = idx.len();
    for k in 0..n
        invariant
            n == src.len(),
            src == idx@,
            forall|i: int| 0 <= i < src.len() ==> src[i] < keys@.len(),
            out@ == stable_sorted(src.take(k as int), le),
            out@.len() == k,
            le == (|a: usize, b: usize| pair_le(keys@[a as int], keys@[b as int])),
            forall|i: int| 0 <= i < out@.len() ==> out@[i] < keys@.len(),
    {
        let x = idx[k];
        let ghost t = out@;
        let mut j = out.len();
        proof {
            lemma_insert_start(t, x, le);
        }
        loop
            invariant
                j <= out@.len(),
                t == out@,
                le == (|a: usize, b: usize| pair_le(keys@[a as int], keys@[b as int])),
                forall|i: int| 0 <= i < out@.len() ==> out@[i] < keys@.len(),
                x < keys@.len(),
                insert_sorted(t, x, le) == insert_sorted(t.take(j as int), x, le) + t.subrange(
                    j as int,
                    t.len() as int,
                ),
            ensures
                j <= out@.len(),
                j == 0 || le(t[j - 1], x),
                insert_sorted(t, x, le) == insert_sorted(t.take(j as int), x, le) + t.subrange(
                    j as int,
                    t.len() as int,
                ),
            decreases j,
        {
            if j == 0 {
                break;
            }
            let stop = pair_leq(keys[out[j - 1]], keys[x]);
            assert(le(t[j - 1], x) <==> pair_le(keys@[t[j - 1] as int], keys@[x as int]));
            if stop {
                break;
            }
            proof {
                lemma_insert_prefix(t, x, le, j as int);
            }
            j = j - 1;
        }
        proof {
            lemma_insert_stop(t, x, le, j as int);
        }
        out.insert(j, x);
        proof {
            assert(src.take(k + 1).drop_last() =~= src.take(k as int));
            assert(src.take(k + 1).last() == src[k as int]);
            assert forall|i: int| 0 <= i < out@.len() implies out@[i] < keys@.len() by {
                if i < j {
                    assert(out@[i] == t[i]);
                } else if i > j {
                    assert(out@[i] == t[i - 1]);
                }
            }
        }
    }
    proof {
        assert(src.take(n as int) =~= src);
    }
    out
}


/// Inserting keeps the elements (as a multiset) and adds `x`.
proof fn lemma_insert_is_permutation<A>(t: Seq<A>, x: A, le: spec_fn(A, A) -> bool)
    ensures
        insert_sorted(t, x, le).to_multiset() == t.to_multiset().insert(x),
        insert_sorted(t, x, le).len() == t.len() + 1,
    decreases t.len(),
{
    broadcast use vstd::seq_lib::group_to_multiset_ensures;

    if t.len() == 0 || le(t.last(), x) {
    } else {
        lemma_insert_is_permutation(t.drop_last(), x, le);
        assert(t =~= t.drop_last().push(t.last()));
        assert(t.to_multiset() =~= t.drop_last().to_multiset().insert(t.last()));
    }
}

/// The stable sort is a permutation of its input.
pub proof fn lemma_stable_sorted_is_permutation<A>(s: Seq<A>, le: spec_fn(A, A) -> bool)
    ensures
        stable_sorted(s, le).to_multiset() == s.to_multiset(),
        stable_sorted(s, le).len() == s.len(),
    decreases s.len(),
{
    broadcast use vstd::seq_lib::group_to_multiset_ensures;

    if s.len() > 0 {
        lemma_stable_sorted_is_permutation(s.drop_last(), le);
        lemma_insert_is_permutation(stable_sorted(s.drop_last(), le), s.last(), le);
        assert(s =~= s.drop_last().push(s.last()));
    }
}


/// `le` is a total preorder: total and transitive.
pub open spec fn total_preorder<A>(le: spec_fn(A, A) -> bool) -> bool {
    &&& forall|a: A, b: A| #[trigger] le(a, b) || le(b, a)
    &&& forall|a: A, b: A, c: A| #[trigger] le(a, b) && #[trigger] le(b, c) ==> le(a, c)
}

/// `le` is a total order: a total preorder that is antisymmetric.
pub open spec fn total_order<A>(le: spec_fn(A, A) -> bool) -> bool {
    &&& total_preorder(le)
    &&& forall|a: A, b: A| #[trigger] le(a, b) && le(b, a) ==> a == b
}

/// `s` is in `le` order.
pub open spec fn sorted_by<A>(s: Seq<A>, le: spec_fn(A, A) -> bool) -> bool {
    forall|i: int, j: int| 0 <= i < j < s.len() ==> le(#[trigger] s[i], #[trigger] s[j])
}

proof fn lemma_insert_keeps_sorted<A>(t: Seq<A>, x: A, le: spec_fn(A, A) -> bool)
    requires
        total_preorder(le),
        sorted_by(t, le),
    ensures
        sorted_by(insert_sorted(t, x, le), le),
        insert_sorted(t, x, le).len() == t.len() + 1,
        forall|i: int| 0 <= i < insert_sorted(t, x, le).len() ==> {
            let e = #[trigger] insert_sorted(t, x, le)[i];
            e == x || t.contains(e)
        },
    decreases t.len(),
{
    if t.len() == 0 || le(t.last(), x) {
        let r = t.push(x);
        assert forall|i: int, j: int| 0 <= i < j < r.len() implies le(#[trigger] r[i], #[trigger] r[j]) by {
            if j == t.len() {
                if i < t.len() - 1 {
                    assert(le(t[i], t[t.len() - 1]));
                }
            }
        }
        assert forall|i: int| 0 <= i < r.len() implies {
            let e = #[trigger] r[i];
            e == x || t.contains(e)
        } by {
            if i < t.len() {
                assert(t[i] == r[i]);
            }
        }
    } else {
        let u = t.drop_last();
        assert(sorted_by(u, le));
        lemma_insert_keeps_sorted(u, x, le);
        let ins = insert_sorted(u, x, le);
        let r = ins.push(t.last());
        assert(le(x, t.last()));
        assert forall|i: int, j: int| 0 <= i < j < r.len() implies le(#[trigger] r[i], #[trigger] r[j]) by {
            if j == ins.len() {
                let e = ins[i];
                if e == x {
                } else {
                    assert(u.contains(e));
                    let k = choose|k: int| 0 <= k < u.len() && u[k] == e;
                    assert(t[k] == e);
                    assert(le(t[k], t[t.len() - 1]));
                }
            }
        }
        assert forall|i: int| 0 <= i < r.len() implies {
            let e = #[trigger] r[i];
            e == x || t.contains(e)
        } by {
            if i < ins.len() {
                let e = ins[i];
                if e != x {
                    assert(u.contains(e));
                    let k = choose|k: int| 0 <= k < u.len() && u[k] == e;
                    assert(t[k] == e);
                }
            } else {
                assert(r[i] == t[t.len() - 1]);
            }
        }
    }
}

/// Under a total preorder the stable sort is sorted.
pub proof fn lemma_stable_sorted_is_sorted<A>(s: Seq<A>, le: spec_fn(A, A) -> bool)
    requires
        total_preorder(le),
    ensures
        sorted_by(stable_sorted(s, le), le),
    decreases s.len(),
{
    if s.len() > 0 {
        lemma_stable_sorted_is_sorted(s.drop_last(), le);
        lemma_insert_keeps_sorted(stable_sorted(s.drop_last(), le), s.last(), le);
    }
}

/// Under a total order, two sorted sequences with the same elements are
/// the same sequence.
pub proof fn lemma_sorted_unique<A>(a: Seq<A>, b: Seq<A>, le: spec_fn(A, A) -> bool)
    requires
        total_order(le),
        sorted_by(a, le),
        sorted_by(b, le),
        a.to_multiset() == b.to_multiset(),
    ensures
        a == b,
    decreases a.len(),
{
    broadcast use vstd::seq_lib::group_to_multiset_ensures;

    assert(a.len() == a.to_multiset().len());
    assert(b.len() == b.to_multiset().len());
    if a.len() > 0 {
        let x = a[0];
        let y = b[0];
        assert(a.to_multiset().count(y) > 0) by {
            assert(b.contains(y));
        }
        assert(a.contains(y));
        let i = choose|i: int| 0 <= i < a.len() && a[i] == y;
        if i > 0 {
            assert(le(a[0], a[i]));
        }
        assert(b.to_multiset().count(x) > 0) by {
            assert(a.contains(x));
        }
        assert(b.contains(x));
        let j = choose|j: int| 0 <= j < b.len() && b[j] == x;
        if j > 0 {
            assert(le(b[0], b[j]));
        }
        assert(le(x, y) && le(y, x));
        assert(x == y);
        let a1 = a.drop_first();
        let b1 = b.drop_first();
        assert(a =~= seq![x] + a1);
        assert(b =~= seq![x] + b1);
        vstd::seq_lib::lemma_multiset_commutative(seq![x], a1);
        vstd::seq_lib::lemma_multiset_commutative(seq![x], b1);
        assert(a1.to_multiset() =~= b1.to_multiset()) by {
            let mx = seq![x].to_multiset();
            assert(a.to_multiset() == mx.add(a1.to_multiset()));
            assert(b.to_multiset() == mx.add(b1.to_multiset()));
            assert forall|v: A| a1.to_multiset().count(v) == b1.to_multiset().count(v) by {
                assert(a.to_multiset().count(v) == mx.count(v) + a1.to_multiset().count(v));
                assert(b.to_multiset().count(v) == mx.count(v) + b1.to_multiset().count(v));
            }
        }
        assert(sorted_by(a1, le)) by {
            assert forall|p: int, q: int| 0 <= p < q < a1.len() implies le(#[trigger] a1[p], #[trigger] a1[q]) by {
                assert(a1[p] == a[p + 1] && a1[q] == a[q + 1]);
            }
        }
        assert(sorted_by(b1, le)) by {
            assert forall|p: int, q: int| 0 <= p < q < b1.len() implies le(#[trigger] b1[p], #[trigger] b1[q]) by {
                assert(b1[p] == b[p + 1] && b1[q] == b[q + 1]);
            }
        }
        lemma_sorted_unique(a1, b1, le);
    }
}

/// Law: under a total order, sorting forgets the input order: inputs with
/// the same elements sort to the same sequence.
pub proof fn lemma_sort_forgets_order<A>(s1: Seq<A>, s2: Seq<A>, le: spec_fn(A, A) -> bool)
    requires
        total_order(le),
        s1.to_multiset() == s2.to_multiset(),
    ensures
        stable_sorted(s1, le) == stable_sorted(s2, le),
{
    lemma_stable_sorted_is_sorted(s1, le);
    lemma_stable_sorted_is_sorted(s2, le);
    lemma_stable_sorted_is_permutation(s1, le);
    lemma_stable_sorted_is_permutation(s2, le);
    lemma_sorted_unique(stable_sorted(s1, le), stable_sorted(s2, le), le);
}


/// Sequences with the same elements keep the same elements through `map`.
pub proof fn lemma_map_keeps_multiset<A, B>(s1: Seq<A>, s2: Seq<A>, f: spec_fn(A) -> B)
    requires
        s1.to_multiset() == s2.to_multiset(),
    ensures
        s1.map_values(f).to_multiset() == s2.map_values(f).to_multiset(),
    decreases s1.len(),
{
    broadcast use vstd::seq_lib::group_to_multiset_ensures;

    assert(s1.len() == s1.to_multiset().len());
    assert(s2.len() == s2.to_multiset().len());
    if s1.len() == 0 {
        assert(s1.map_values(f) =~= Seq::<B>::empty());
        assert(s2.map_values(f) =~= Seq::<B>::empty());
    } else {
        let x = s1.last();
        let s1r = s1.drop_last();
        assert(s1 =~= s1r.push(x));
        assert(s1.to_multiset() == s1r.to_multiset().insert(x));
        assert(s2.to_multiset().count(x) > 0);
        assert(s2.contains(x));
        let j = choose|j: int| 0 <= j < s2.len() && s2[j] == x;
        let s2r = s2.remove(j);
        vstd::seq_lib::to_multiset_remove(s2, j);
        assert(s1r.to_multiset() =~= s2r.to_multiset());
        lemma_map_keeps_multiset(s1r, s2r, f);
        assert(s1.map_values(f) =~= s1r.map_values(f).push(f(x)));
        assert(s2 =~= s2r.insert(j, x));
        assert(s2.map_values(f) =~= s2r.map_values(f).insert(j, f(x)));
        vstd::seq_lib::to_multiset_insert(s2r.map_values(f), j, f(x));
    }
}

/// `s` is strictly increasing under the preorder `le`.
pub open spec fn strictly_sorted_by<A>(s: Seq<A>, le: spec_fn(A, A) -> bool) -> bool {
    forall|i: int, j: int| 0 <= i < j < s.len() ==> le(#[trigger] s[i], #[trigger] s[j]) && !le(s[j], s[i])
}

/// Two strictly increasing sequences with the same elements are the same.
pub proof fn lemma_strictly_sorted_unique<A>(a: Seq<A>, b: Seq<A>, le: spec_fn(A, A) -> bool)
    requires
        strictly_sorted_by(a, le),
        strictly_sorted_by(b, le),
        a.to_multiset() == b.to_multiset(),
    ensures
        a == b,
    decreases a.len(),
{
    broadcast use vstd::seq_lib::group_to_multiset_ensures;

    assert(a.len() == a.to_multiset().len());
    assert(b.len() == b.to_multiset().len());
    if a.len() > 0 {
        let x = a[0];
        let y = b[0];
        assert(a.to_multiset().count(y) > 0) by {
            assert(b.contains(y));
        }
        assert(a.contains(y));
        let i = choose|i: int| 0 <= i < a.len() && a[i] == y;
        assert(b.to_multiset().count(x) > 0) by {
            assert(a.contains(x));
        }
        assert(b.contains(x));
        let j = choose|j: int| 0 <= j < b.len() && b[j] == x;
        if i > 0 && j > 0 {
            assert(le(a[0], a[i]) && !le(a[i], a[0]));
            assert(le(b[0], b[j]));
            assert(false);
        }
        assert(x == y);
        let a1 = a.drop_first();
        let b1 = b.drop_first();
        assert(a =~= seq![x] + a1);
        assert(b =~= seq![x] + b1);
        vstd::seq_lib::lemma_multiset_commutative(seq![x], a1);
        vstd::seq_lib::lemma_multiset_commutative(seq![x], b1);
        assert(a1.to_multiset() =~= b1.to_multiset()) by {
            let mx = seq![x].to_multiset();
            assert forall|v: A| a1.to_multiset().count(v) == b1.to_multiset().count(v) by {
                assert(a.to_multiset().count(v) == mx.count(v) + a1.to_multiset().count(v));
                assert(b.to_multiset().count(v) == mx.count(v) + b1.to_multiset().count(v));
            }
        }
        assert(strictly_sorted_by(a1, le)) by {
            assert forall|p: int, q: int| 0 <= p < q < a1.len() implies le(#[trigger] a1[p], #[trigger] a1[q]) && !le(a1[q], a1[p]) by {
                assert(a1[p] == a[p + 1] && a1[q] == a[q + 1]);
            }
        }
        assert(strictly_sorted_by(b1, le)) by {
            assert forall|p: int, q: int| 0 <= p < q < b1.len() implies le(#[trigger] b1[p], #[trigger] b1[q]) && !le(b1[q], b1[p]) by {
                assert(b1[p] == b[p + 1] && b1[q] == b[q + 1]);
            }
        }
        lemma_strictly_sorted_unique(a1, b1, le);
    }
}

proof fn lemma_lex_total(a: Seq<u8>, b: Seq<u8>)
    ensures
        lex_le(a, b) || lex_le(b, a),
    decreases a.len(),
{
    if a.len() > 0 && b.len() > 0 && a[0] == b[0] {
        lemma_lex_total(a.drop_first(), b.drop_first());
    }
}

proof fn lemma_lex_trans(a: Seq<u8>, b: Seq<u8>, c: Seq<u8>)
    requires
        lex_le(a, b),
        lex_le(b, c),
    ensures
        lex_le(a, c),
    decreases a.len(),
{
    if a.len() > 0 && b.len() > 0 && c.len() > 0 && a[0] == b[0] && b[0] == c[0] {
        lemma_lex_trans(a.drop_first(), b.drop_first(), c.drop_first());
    }
}

proof fn lemma_lex_antisym(a: Seq<u8>, b: Seq<u8>)
    requires
        lex_le(a, b),
        lex_le(b, a),
    ensures
        a == b,
    decreases a.len(),
{
    if a.len() > 0 && b.len() > 0 {
        lemma_lex_antisym(a.drop_first(), b.drop_first());
        assert(a =~= seq![a[0]] + a.drop_first());
        assert(b =~= seq![b[0]] + b.drop_first());
    } else if a.len() == 0 && b.len() == 0 {
        assert(a =~= b);
    }
}

/// Lexicographic order on byte strings is a total order.
pub proof fn lemma_lex_total_order()
    ensures
        total_order(|a: Seq<u8>, b: Seq<u8>| lex_le(a, b)),
{
    let le = |a: Seq<u8>, b: Seq<u8>| lex_le(a, b);
    assert forall|a: Seq<u8>, b: Seq<u8>| #[trigger] le(a, b) || le(b, a) by {
        lemma_lex_total(a, b);
    }
    assert forall|a: Seq<u8>, b: Seq<u8>, c: Seq<u8>| #[trigger] le(a, b) && #[trigger] le(b, c) implies le(a, c) by {
        lemma_lex_trans(a, b, c);
    }
    assert forall|a: Seq<u8>, b: Seq<u8>| #[trigger] le(a, b) && le(b, a) implies a == b by {
        lemma_lex_antisym(a, b);
    }
}


/// The elements of `s` have pairwise distinct keys.
pub open spec fn keys_distinct<A>(s: Seq<A>, key: spec_fn(A) -> int) -> bool {
    forall|i: int, j: int| 0 <= i < j < s.len() ==> key(#[trigger] s[i]) != key(#[trigger] s[j])
}

/// Order by key.
pub open spec fn key_le<A>(key: spec_fn(A) -> int) -> spec_fn(A, A) -> bool {
    |a: A, b: A| key(a) <= key(b)
}

proof fn lemma_keys_distinct_transfer<A>(s1: Seq<A>, s2: Seq<A>, key: spec_fn(A) -> int)
    requires
        s1.to_multiset() == s2.to_multiset(),
        keys_distinct(s1, key),
    ensures
        keys_distinct(s2, key),
{
    broadcast use vstd::seq_lib::group_to_multiset_ensures;

    assert(s1.no_duplicates()) by {
        assert forall|i: int, j: int| 0 <= i < s1.len() && 0 <= j < s1.len() && i != j implies s1[i] != s1[j] by {
            if i < j {
                assert(key(s1[i]) != key(s1[j]));
            } else {
                assert(key(s1[j]) != key(s1[i]));
            }
        }
    }
    s1.lemma_multiset_has_no_duplicates();
    s2.lemma_multiset_has_no_duplicates_conv();
    assert forall|i: int, j: int| 0 <= i < j < s2.len() implies key(#[trigger] s2[i]) != key(#[trigger] s2[j]) by {
        assert(s2[i] != s2[j]);
        assert(s2.contains(s2[i]));
        assert(s2.contains(s2[j]));
        assert(s1.to_multiset().count(s2[i]) > 0);
        assert(s1.to_multiset().count(s2[j]) > 0);
        assert(s1.contains(s2[i]));
        assert(s1.contains(s2[j]));
        let a = choose|a: int| 0 <= a < s1.len() && s1[a] == s2[i];
        let b = choose|b: int| 0 <= b < s1.len() && s1[b] == s2[j];
        if a < b {
            assert(key(s1[a]) != key(s1[b]));
        } else {
            assert(key(s1[b]) != key(s1[a]));
        }
    }
}

/// Law: sorting elements with distinct keys by key forgets the input
/// order: inputs with the same elements sort to the same sequence.
pub proof fn lemma_sort_by_distinct_keys_forgets_order<A>(s1: Seq<A>, s2: Seq<A>, key: spec_fn(A) -> int)
    requires
        s1.to_multiset() == s2.to_multiset(),
        keys_distinct(s1, key),
    ensures
        stable_sorted(s1, key_le(key)) == stable_sorted(s2, key_le(key)),
{
    let le = key_le(key);
    assert(total_preorder(le));
    lemma_keys_distinct_transfer(s1, s2, key);
    let t1 = stable_sorted(s1, le);
    let t2 = stable_sorted(s2, le);
    lemma_stable_sorted_is_sorted(s1, le);
    lemma_stable_sorted_is_sorted(s2, le);
    lemma_stable_sorted_is_permutation(s1, le);
    lemma_stable_sorted_is_permutation(s2, le);
    lemma_keys_distinct_transfer(s1, t1, key);
    lemma_keys_distinct_transfer(s2, t2, key);
    assert(strictly_sorted_by(t1, le)) by {
        assert forall|i: int, j: int| 0 <= i < j < t1.len() implies le(#[trigger] t1[i], #[trigger] t1[j]) && !le(t1[j], t1[i]) by {
            assert(key(t1[i]) != key(t1[j]));
        }
    }
    assert(strictly_sorted_by(t2, le)) by {
        assert forall|i: int, j: int| 0 <= i < j < t2.len() implies le(#[trigger] t2[i], #[trigger] t2[j]) && !le(t2[j], t2[i]) by {
            assert(key(t2[i]) != key(t2[j]));
        }
    }
    lemma_strictly_sorted_unique(t1, t2, le);
}

} // verus!
