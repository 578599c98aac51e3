//! Protocol text primitives: a battle-protocol line is `|`-separated
//! fields of characters. These mirror the `str` operations the protocol
//! readers use (`split`, `strip_prefix`, `contains`, `trim`, `parse`), each
//! stated over `Seq<char>`.

use vstd::prelude::*;

use crate::text::push_char;

verus! {

broadcast use vstd::string::axiom_spec_iter;

/// The characters of `s`.
pub fn chars_of(s: &str) -> (v: Vec<char>)
    ensures
        v@ == s@,
{
    let mut v: Vec<char> = Vec::new();
    for c in it: s.chars()
        invariant
            v@ == it.seq().take(it.index() as int),
            it.seq() == s@,
    {
        v.push(c);
    }
    v
}

/// A copy of `v`.
pub fn copy_chars(v: &[char]) -> (r: Vec<char>)
    ensures
        r@ == v@,
{
    let mut r: Vec<char> = Vec::new();
    for i in 0..v.len()
        invariant
            r@ == v@.take(i as int),
    {
        r.push(v[i]);
        assert(v@.take(i + 1) =~= v@.take(i as int).push(v@[i as int]));
    }
    assert(v@.take(v@.len() as int) =~= v@);
    r
}

/// A `String` holding exactly `v`.
pub fn text_of(v: &[char]) -> (s: String)
    ensures
        s@ == v@,
{
    let mut s = String::new();
    for i in 0..v.len()
        invariant
            s@ == v@.take(i as int),
    {
        push_char(&mut s, v[i]);
        assert(v@.take(i + 1) =~= v@.take(i as int).push(v@[i as int]));
    }
    assert(v@.take(v@.len() as int) =~= v@);
    s
}

/// `s.split(sep)`: the pieces between separators, in order; always at
/// least one (possibly empty) piece.
pub open spec fn split_spec(s: Seq<char>, sep: char) -> Seq<Seq<char>>
    decreases s.len(),
{
    if s.len() == 0 {
        seq![Seq::<char>::empty()]
    } else {
        let f = split_spec(s.drop_last(), sep);
        if s.last() == sep {
            f.push(Seq::<char>::empty())
        } else {
            f.update(f.len() - 1, f.last().push(s.last()))
        }
    }
}

pub proof fn lemma_split_nonempty(s: Seq<char>, sep: char)
    ensures
        split_spec(s, sep).len() >= 1,
    decreases s.len(),
{
    if s.len() > 0 {
        lemma_split_nonempty(s.drop_last(), sep);
    }
}

/// The views of a vector of character vectors.
pub open spec fn views(v: Seq<Vec<char>>) -> Seq<Seq<char>> {
    v.map_values(|x: Vec<char>| x@)
}

/// `s.split(sep)` on characters.
pub fn split_chars(s: &[char], sep: char) -> (out: Vec<Vec<char>>)
    ensures
        views(out@) == split_spec(s@, sep),
        out@.len() >= 1,
{
    let mut out: Vec<Vec<char>> = Vec::new();
    let mut cur: Vec<char> = Vec::new();
    for i in 0..s.len()
        invariant
            views(out@).push(cur@) == split_spec(s@.take(i as int), sep),
    {
        let c = s[i];
        proof {
            let ghost t = s@.take(i + 1);
            assert(t.drop_last() =~= s@.take(i as int));
            assert(t.last() == c);
            lemma_split_nonempty(s@.take(i as int), sep);
        }
        if c == sep {
            let done = cur;
            out.push(done);
            cur = Vec::new();
            proof {
                assert(views(out@) =~= views(old_out(out@)).push(done@)) by {
                    assert(out@.drop_last() == old_out(out@));
                }
                assert(views(out@).push(cur@) =~= split_spec(s@.take(i + 1), sep));
            }
        } else {
            let ghost before = views(out@).push(cur@);
            cur.push(c);
            proof {
                assert(views(out@).push(cur@) =~= before.update(before.len() - 1, before.last().push(c)));
            }
        }
    }
    let ghost pre = views(out@);
    out.push(cur);
    proof {
        assert(views(out@) =~= pre.push(out@.last()@));
        assert(s@.take(s@.len() as int) =~= s@);
        lemma_split_nonempty(s@, sep);
    }
    out
}

/// Everything but the last element (a name for the vector before a push).
pub open spec fn old_out(v: Seq<Vec<char>>) -> Seq<Vec<char>> {
    v.drop_last()
}

/// Field `i` of `parts`, or the empty field when there is none.
pub open spec fn field(parts: Seq<Seq<char>>, i: int) -> Seq<char> {
    if 0 <= i < parts.len() {
        parts[i]
    } else {
        Seq::empty()
    }
}

/// `parts.get(i).unwrap_or("")`.
pub fn field_at(parts: &Vec<Vec<char>>, i: usize) -> (r: Vec<char>)
    ensures
        r@ == field(views(parts@), i as int),
{
    if i < parts.len() {
        parts[i].clone()
    } else {
        Vec::new()
    }
}

/// `a == b` where `b` is a literal.
pub fn eq_str(a: &[char], b: &str) -> (r: bool)
    ensures
        r == (a@ == b@),
{
    let n = b.unicode_len();
    if a.len() != n {
        return false;
    }
    for i in 0..n
        invariant
            n == b@.len(),
            a@.len() == n,
            forall|j: int| 0 <= j < i ==> a@[j] == b@[j],
    {
        if a[i] != b.get_char(i) {
            return false;
        }
    }
    assert(a@ =~= b@);
    true
}

/// `a == b` on character vectors.
pub fn eq_chars(a: &[char], b: &[char]) -> (r: bool)
    ensures
        r == (a@ == b@),
{
    if a.len() != b.len() {
        return false;
    }
    for i in 0..a.len()
        invariant
            a@.len() == b@.len(),
            forall|j: int| 0 <= j < i ==> a@[j] == b@[j],
    {
        if a[i] != b[i] {
            return false;
        }
    }
    assert(a@ =~= b@);
    true
}

/// `s` begins with `p`.
pub open spec fn begins_with(s: Seq<char>, p: Seq<char>) -> bool {
    p.len() <= s.len() && s.take(p.len() as int) == p
}

/// `s.strip_prefix(p)` where `p` is a literal.
pub fn strip_prefix_str(s: &[char], p: &str) -> (r: Option<Vec<char>>)
    ensures
        match r {
            Some(rest) => begins_with(s@, p@) && rest@ == s@.skip(p@.len() as int),
            None => !begins_with(s@, p@),
        },
{
    let n = p.unicode_len();
    if n > s.len() {
        return None;
    }
    for i in 0..n
        invariant
            n == p@.len(),
            n <= s@.len(),
            forall|j: int| 0 <= j < i ==> s@[j] == p@[j],
    {
        if s[i] != p.get_char(i) {
            assert(s@.take(n as int)[i as int] != p@[i as int]);
            return None;
        }
    }
    assert(s@.take(n as int) =~= p@);
    let mut rest: Vec<char> = Vec::new();
    for k in n..s.len()
        invariant
            n <= s@.len(),
            rest@ == s@.subrange(n as int, k as int),
    {
        rest.push(s[k]);
        assert(s@.subrange(n as int, k + 1) =~= s@.subrange(n as int, k as int).push(s@[k as int]));
    }
    assert(s@.subrange(n as int, s@.len() as int) =~= s@.skip(n as int));
    Some(rest)
}

/// `s.contains(p)`.
pub open spec fn contains_seq(s: Seq<char>, p: Seq<char>) -> bool {
    exists|i: int| 0 <= i && i + p.len() <= s.len() && #[trigger] s.subrange(i, i + p.len()) == p
}

/// `s.contains(p)` where `p` is a literal.
pub fn contains_str(s: &[char], p: &str) -> (r: bool)
    ensures
        r == contains_seq(s@, p@),
{
    let n = p.unicode_len();
    let pv = chars_of(p);
    if n > s.len() {
        proof {
            assert forall|i: int| 0 <= i && i + p@.len() <= s@.len() implies #[trigger] s@.subrange(i, i + p@.len()) != p@ by {}
        }
        return false;
    }
    let slen = s.len();
    let mut i: usize = 0;
    while i <= s.len() - n
        invariant
            slen == s@.len(),
            n == p@.len(),
            pv@ == p@,
            n <= s@.len(),
            i <= s@.len() - n + 1,
            forall|k: int| 0 <= k < i ==> #[trigger] s@.subrange(k, k + n) != p@,
        decreases s@.len() - i,
    {
        let mut ok = true;
        let mut j: usize = 0;
        while j < n
            invariant
                slen == s@.len(),
                n == p@.len(),
                pv@ == p@,
                i + n <= s@.len(),
                j <= n,
                ok == (forall|m: int| 0 <= m < j ==> s@[i + m] == p@[m]),
            decreases n - j,
        {
            assert(i + j < s@.len());
            if s[i + j] != pv[j] {
                ok = false;
            }
            j = j + 1;
        }
        if ok {
            assert(s@.subrange(i as int, i + n) =~= p@);
            return true;
        }
        assert(s@.subrange(i as int, i + n) != p@) by {
            let m = choose|m: int| 0 <= m < n && s@[i + m] != p@[m];
            assert(s@.subrange(i as int, i + n)[m] == s@[i + m]);
        }
        i = i + 1;
    }
    proof {
        assert forall|k: int| 0 <= k && k + p@.len() <= s@.len() implies #[trigger] s@.subrange(k, k + p@.len()) != p@ by {
            assert(k < i);
        }
    }
    false
}

/// Unicode `White_Space`, the set `str::trim` removes.
pub open spec fn is_ws(c: char) -> bool {
    ||| '\t' <= c <= '\r'
    ||| c == ' '
    ||| c == '\u{85}'
    ||| c == '\u{a0}'
    ||| c == '\u{1680}'
    ||| '\u{2000}' <= c <= '\u{200a}'
    ||| c == '\u{2028}'
    ||| c == '\u{2029}'
    ||| c == '\u{202f}'
    ||| c == '\u{205f}'
    ||| c == '\u{3000}'
}

fn is_ws_exec(c: char) -> (r: bool)
    ensures
        r == is_ws(c),
{
    ('\t' <= c && c <= '\r') || c == ' ' || c == '\u{85}' || c == '\u{a0}' || c == '\u{1680}' || (
    '\u{2000}' <= c && c <= '\u{200a}') || c == '\u{2028}' || c == '\u{2029}' || c == '\u{202f}'
        || c == '\u{205f}' || c == '\u{3000}'
}

/// `s.trim()`: `s` without its leading and trailing white space.
pub open spec fn trimmed(s: Seq<char>) -> Seq<char> {
    let lo = if exists|i: int| 0 <= i < s.len() && !is_ws(#[trigger] s[i]) {
        choose|i: int| 0 <= i < s.len() && !is_ws(#[trigger] s[i]) && forall|k: int| 0 <= k < i ==> is_ws(#[trigger] s[k])
    } else {
        s.len() as int
    };
    let hi = if exists|i: int| 0 <= i < s.len() && !is_ws(#[trigger] s[i]) {
        choose|i: int| 0 <= i < s.len() && !is_ws(#[trigger] s[i]) && forall|k: int| i < k < s.len() ==> is_ws(#[trigger] s[k])
    } else {
        s.len() as int - 1
    };
    s.subrange(lo, hi + 1)
}

/// `s.trim()`.
pub fn trim_chars(s: &[char]) -> (r: Vec<char>)
    ensures
        r@ == trimmed(s@),
{
    let n = s.len();
    let mut lo: usize = 0;
    while lo < n && is_ws_exec(s[lo])
        invariant
            n == s@.len(),
            lo <= n,
            forall|k: int| 0 <= k < lo ==> is_ws(#[trigger] s@[k]),
        decreases n - lo,
    {
        lo = lo + 1;
    }
    if lo == n {
        proof {
            assert(!exists|i: int| 0 <= i < s@.len() && !is_ws(#[trigger] s@[i]));
            assert(s@.subrange(n as int, n as int) =~= Seq::<char>::empty());
        }
        return Vec::new();
    }
    let mut hi: usize = n - 1;
    while is_ws_exec(s[hi])
        invariant
            n == s@.len(),
            lo <= hi < n,
            !is_ws(s@[lo as int]),
            forall|k: int| hi < k < n ==> is_ws(#[trigger] s@[k]),
        decreases hi,
    {
        hi = hi - 1;
    }
    proof {
        let l = choose|i: int| 0 <= i < s@.len() && !is_ws(#[trigger] s@[i]) && forall|k: int| 0 <= k < i ==> is_ws(#[trigger] s@[k]);
        assert(l == lo as int) by {
            if l < lo {
                assert(is_ws(s@[l]));
            }
            if l > lo {
                assert(is_ws(s@[lo as int]));
            }
        }
        let h = choose|i: int| 0 <= i < s@.len() && !is_ws(#[trigger] s@[i]) && forall|k: int| i < k < s@.len() ==> is_ws(#[trigger] s@[k]);
        assert(h == hi as int) by {
            if h < hi {
                assert(is_ws(s@[hi as int]));
            }
            if h > hi {
                assert(is_ws(s@[h]));
            }
        }
    }
    let mut r: Vec<char> = Vec::new();
    for k in lo..hi + 1
        invariant
            lo <= hi < n,
            n == s@.len(),
            r@ == s@.subrange(lo as int, k as int),
    {
        r.push(s[k]);
        assert(s@.subrange(lo as int, k + 1) =~= s@.subrange(lo as int, k as int).push(s@[k as int]));
    }
    r
}

/// `'0'..='9'`.
pub open spec fn is_digit(c: char) -> bool {
    '0' <= c <= '9'
}

/// Every character of `d` is a decimal digit.
pub open spec fn all_digit_chars(d: Seq<char>) -> bool {
    forall|i: int| 0 <= i < d.len() ==> is_digit(#[trigger] d[i])
}

/// The value of a run of decimal digits.
pub open spec fn digits_value(s: Seq<char>) -> nat
    decreases s.len(),
{
    if s.len() == 0 {
        0
    } else {
        digits_value(s.drop_last()) * 10 + ((s.last() as nat) - 48) as nat
    }
}

/// What the unsigned `str::parse` reads: an optional `+`, then one or more
/// decimal digits (range checks are the caller's).
pub open spec fn unsigned_digits(s: Seq<char>) -> Option<nat> {
    let d = if s.len() > 0 && s[0] == '+' { s.skip(1) } else { s };
    if d.len() > 0 && all_digit_chars(d) {
        Some(digits_value(d))
    } else {
        None
    }
}

/// `s.parse::<u16>()`.
pub open spec fn parse_u16_spec(s: Seq<char>) -> Option<u16> {
    match unsigned_digits(s) {
        Some(v) => if v <= u16::MAX { Some(v as u16) } else { None },
        None => None,
    }
}

/// `s.parse::<i32>()`: an optional sign, then one or more digits, in range.
pub open spec fn parse_i32_spec(s: Seq<char>) -> Option<i32> {
    if s.len() > 0 && s[0] == '-' {
        let d = s.skip(1);
        if d.len() > 0 && all_digit_chars(d) {
            if digits_value(d) <= 0x8000_0000 { Some((-(digits_value(d) as int)) as i32) } else { None }
        } else {
            None
        }
    } else {
        match unsigned_digits(s) {
            Some(v) => if v <= i32::MAX { Some(v as i32) } else { None },
            None => None,
        }
    }
}

/// `s.parse::<i64>()`: an optional sign, then one or more digits, in range.
pub open spec fn parse_i64_spec(s: Seq<char>) -> Option<i64> {
    if s.len() > 0 && s[0] == '-' {
        let d = s.skip(1);
        if d.len() > 0 && all_digit_chars(d) {
            if digits_value(d) <= 0x8000_0000_0000_0000 { Some((-(digits_value(d) as int)) as i64) } else { None }
        } else {
            None
        }
    } else {
        match unsigned_digits(s) {
            Some(v) => if v <= i64::MAX { Some(v as i64) } else { None },
            None => None,
        }
    }
}

proof fn lemma_digits_grow(d: Seq<char>, i: int)
    requires
        0 <= i < d.len(),
        forall|k: int| 0 <= k < d.len() ==> is_digit(#[trigger] d[k]),
    ensures
        digits_value(d.take(i)) <= digits_value(d.take(i + 1)),
        digits_value(d.take(i + 1)) == digits_value(d.take(i)) * 10 + ((d[i] as nat) - 48),
{
    assert(d.take(i + 1).drop_last() =~= d.take(i));
    assert(d.take(i + 1).last() == d[i]);
    assert(is_digit(d[i]));
}

proof fn lemma_digits_mono(d: Seq<char>, i: int, j: int)
    requires
        0 <= i <= j <= d.len(),
        forall|k: int| 0 <= k < d.len() ==> is_digit(#[trigger] d[k]),
    ensures
        digits_value(d.take(i)) <= digits_value(d.take(j)),
    decreases j - i,
{
    if i < j {
        lemma_digits_grow(d, j - 1);
        lemma_digits_mono(d, i, j - 1);
    }
}

/// The value of the digit run `d` (all digits), or `None` past `limit`.
fn digits_upto(d: &[char], limit: u64) -> (r: Option<u64>)
    requires
        forall|k: int| 0 <= k < d@.len() ==> is_digit(#[trigger] d@[k]),
    ensures
        match r {
            Some(v) => v == digits_value(d@) && v <= limit,
            None => digits_value(d@) > limit,
        },
{
    let mut acc: u128 = 0;
    for i in 0..d.len()
        invariant
            forall|k: int| 0 <= k < d@.len() ==> is_digit(#[trigger] d@[k]),
            acc == digits_value(d@.take(i as int)),
            acc <= limit,
    {
        proof {
            lemma_digits_grow(d@, i as int);
        }
        let digit = (d[i] as u32 - 48) as u128;
        acc = acc * 10 + digit;
        if acc > limit as u128 {
            proof {
                lemma_digits_mono(d@, i + 1, d@.len() as int);
                assert(d@.take(d@.len() as int) =~= d@);
            }
            return None;
        }
    }
    assert(d@.take(d@.len() as int) =~= d@);
    Some(acc as u64)
}

fn all_digits(d: &[char]) -> (r: bool)
    ensures
        r == (forall|k: int| 0 <= k < d@.len() ==> is_digit(#[trigger] d@[k])),
{
    for i in 0..d.len()
        invariant
            forall|k: int| 0 <= k < i ==> is_digit(#[trigger] d@[k]),
    {
        if !('0' <= d[i] && d[i] <= '9') {
            return false;
        }
    }
    true
}

fn skip_chars(s: &[char], n: usize) -> (r: Vec<char>)
    requires
        n <= s@.len(),
    ensures
        r@ == s@.skip(n as int),
{
    let mut r: Vec<char> = Vec::new();
    for k in n..s.len()
        invariant
            n <= s@.len(),
            r@ == s@.subrange(n as int, k as int),
    {
        r.push(s[k]);
        assert(s@.subrange(n as int, k + 1) =~= s@.subrange(n as int, k as int).push(s@[k as int]));
    }
    assert(s@.subrange(n as int, s@.len() as int) =~= s@.skip(n as int));
    r
}

/// `s.parse::<u16>().ok()`.
pub fn parse_u16(s: &[char]) -> (r: Option<u16>)
    ensures
        r == parse_u16_spec(s@),
{
    let d = if s.len() > 0 && s[0] == '+' { skip_chars(s, 1) } else { skip_chars(s, 0) };
    assert(s@.skip(0) =~= s@);
    let ghost dd = if s@.len() > 0 && s@[0] == '+' { s@.skip(1) } else { s@ };
    assert(d@ == dd);
    if d.len() == 0 {
        return None;
    }
    if !all_digits(&d) {
        return None;
    }
    match digits_upto(&d, 0xffff) {
        Some(v) => Some(v as u16),
        None => None,
    }
}

/// `s.parse::<i32>().ok()`.
pub fn parse_i32(s: &[char]) -> (r: Option<i32>)
    ensures
        r == parse_i32_spec(s@),
{
    assert(s@.skip(0) =~= s@);
    if s.len() > 0 && s[0] == '-' {
        let d = skip_chars(s, 1);
        if d.len() == 0 || !all_digits(&d) {
            return None;
        }
        match digits_upto(&d, 0x8000_0000) {
            Some(v) => {
                let neg: i64 = -(v as i64);
                Some(neg as i32)
            },
            None => None,
        }
    } else {
        let d = if s.len() > 0 && s[0] == '+' { skip_chars(s, 1) } else { skip_chars(s, 0) };
        if d.len() == 0 || !all_digits(&d) {
            return None;
        }
        match digits_upto(&d, 0x7fff_ffff) {
            Some(v) => Some(v as i32),
            None => None,
        }
    }
}

/// The first field, from index `i` on, that begins with `prefix`, without
/// that prefix (`parts.iter().find_map(|p| p.strip_prefix(prefix))`).
pub open spec fn first_stripped(parts: Seq<Seq<char>>, prefix: Seq<char>, i: int) -> Option<Seq<char>>
    decreases parts.len() - i,
{
    if i < 0 || i >= parts.len() {
        None
    } else if begins_with(parts[i], prefix) {
        Some(parts[i].skip(prefix.len() as int))
    } else {
        first_stripped(parts, prefix, i + 1)
    }
}

/// `parts.iter().find_map(|p| p.strip_prefix(prefix))` for a literal prefix.
pub fn find_stripped(parts: &Vec<Vec<char>>, prefix: &str) -> (r: Option<Vec<char>>)
    ensures
        match r {
            Some(v) => first_stripped(views(parts@), prefix@, 0) == Some(v@),
            None => first_stripped(views(parts@), prefix@, 0) is None,
        },
{
    let ghost pv = views(parts@);
    let mut i: usize = parts.len();
    let mut found: Option<Vec<char>> = None;
    while i > 0
        invariant
            i <= parts@.len(),
            pv == views(parts@),
            match found {
                Some(v) => first_stripped(pv, prefix@, i as int) == Some(v@),
                None => first_stripped(pv, prefix@, i as int) is None,
            },
        decreases i,
    {
        i = i - 1;
        assert(pv[i as int] == parts@[i as int]@);
        match strip_prefix_str(&parts[i], prefix) {
            Some(rest) => {
                found = Some(rest);
            },
            None => {},
        }
    }
    found
}

/// Some field of `parts` equals `lit` (`parts.iter().any(|p| *p == lit)`).
pub fn any_field_is(parts: &Vec<Vec<char>>, lit: &str) -> (r: bool)
    ensures
        r == views(parts@).contains(lit@),
{
    for i in 0..parts.len()
        invariant
            forall|j: int| 0 <= j < i ==> parts@[j]@ != lit@,
    {
        if eq_str(&parts[i], lit) {
            assert(views(parts@)[i as int] == lit@);
            return true;
        }
    }
    assert forall|j: int| 0 <= j < views(parts@).len() implies views(parts@)[j] != lit@ by {
        assert(views(parts@)[j] == parts@[j]@);
    }
    false
}

/// `s.split(", ")`: the pieces between `", "` separators, in order.
pub open spec fn split_comma_space(s: Seq<char>) -> Seq<Seq<char>>
    decreases s.len(),
{
    if s.len() == 0 {
        seq![Seq::<char>::empty()]
    } else if s.len() >= 2 && s[s.len() - 2] == ',' && s[s.len() - 1] == ' ' {
        split_comma_space(s.take(s.len() - 2)).push(Seq::<char>::empty())
    } else {
        let f = split_comma_space(s.drop_last());
        f.update(f.len() - 1, f.last().push(s.last()))
    }
}

pub proof fn lemma_split_comma_space_nonempty(s: Seq<char>)
    ensures
        split_comma_space(s).len() >= 1,
    decreases s.len(),
{
    if s.len() >= 2 && s[s.len() - 2] == ',' && s[s.len() - 1] == ' ' {
        lemma_split_comma_space_nonempty(s.take(s.len() - 2));
    } else if s.len() > 0 {
        lemma_split_comma_space_nonempty(s.drop_last());
    }
}

/// A nonempty last piece ends with the last character, appended to the
/// last piece of the shorter text.
pub proof fn lemma_split_comma_space_last(u: Seq<char>)
    requires
        split_comma_space(u).last().len() > 0,
    ensures
        u.len() > 0,
        split_comma_space(u).last().last() == u.last(),
        !(u.len() >= 2 && u[u.len() - 2] == ',' && u[u.len() - 1] == ' '),
        split_comma_space(u) == split_comma_space(u.drop_last()).update(
            split_comma_space(u.drop_last()).len() - 1,
            split_comma_space(u.drop_last()).last().push(u.last()),
        ),
{
    lemma_split_comma_space_nonempty(u);
    if u.len() == 0 {
        assert(split_comma_space(u).last().len() == 0);
    } else if u.len() >= 2 && u[u.len() - 2] == ',' && u[u.len() - 1] == ' ' {
        lemma_split_comma_space_nonempty(u.take(u.len() - 2));
        assert(split_comma_space(u).last().len() == 0);
    } else {
        lemma_split_comma_space_nonempty(u.drop_last());
    }
}

/// `s.split(", ")` on characters.
pub fn split_comma_space_chars(s: &[char]) -> (out: Vec<Vec<char>>)
    ensures
        views(out@) == split_comma_space(s@),
{
    let mut out: Vec<Vec<char>> = Vec::new();
    let mut cur: Vec<char> = Vec::new();
    for i in 0..s.len()
        invariant
            views(out@).push(cur@) == split_comma_space(s@.take(i as int)),
    {
        let c = s[i];
        let ghost t = s@.take(i + 1);
        proof {
            assert(t.drop_last() =~= s@.take(i as int));
            assert(t.last() == c);
            lemma_split_comma_space_nonempty(s@.take(i as int));
        }
        if c == ' ' && cur.len() > 0 && cur[cur.len() - 1] == ',' {
            proof {
                let u = s@.take(i as int);
                lemma_split_comma_space_nonempty(u);
                assert(split_comma_space(u).last() == cur@);
                lemma_split_comma_space_last(u);
                lemma_split_comma_space_nonempty(u.drop_last());
                assert(u.last() == ',');
                assert(t.len() >= 2 && t[t.len() - 2] == ',' && t[t.len() - 1] == ' ');
                assert(t.take(t.len() - 2) =~= u.drop_last());
            }
            let ghost before = views(out@);
            let ghost old_cur = cur@;
            cur.pop();
            let done = cur;
            out.push(done);
            cur = Vec::new();
            proof {
                let u = s@.take(i as int);
                assert(views(out@) =~= before.push(done@));
                let f = split_comma_space(u.drop_last());
                assert(done@ =~= old_cur.drop_last());
                assert(old_cur == f.last().push(','));
                assert(done@ =~= f.last());
                assert(before.push(old_cur) == f.update(f.len() - 1, f.last().push(',')));
                assert forall|k: int| 0 <= k < before.len() implies before[k] == f[k] by {
                    assert(before.push(old_cur)[k] == before[k]);
                }
                assert(f =~= before.push(done@));
                assert(views(out@).push(cur@) =~= split_comma_space(t));
            }
        } else {
            let ghost before = views(out@).push(cur@);
            cur.push(c);
            proof {
                assert(views(out@).push(cur@) =~= before.update(before.len() - 1, before.last().push(c)));
                if t.len() >= 2 && t[t.len() - 2] == ',' && t[t.len() - 1] == ' ' {
                    // `, ` completes a separator only after a comma that is
                    // still the end of the current piece
                    let u = s@.take(i as int);
                    assert(u.last() == ',');
                    if u.len() >= 2 && u[u.len() - 2] == ',' && u[u.len() - 1] == ' ' {
                        assert(false);
                    }
                    lemma_split_comma_space_nonempty(u.drop_last());
                    assert(split_comma_space(u).last().len() > 0);
                    assert(split_comma_space(u).last().last() == ',');
                    assert(false);
                }
            }
        }
    }
    let ghost pre = views(out@);
    out.push(cur);
    proof {
        assert(views(out@) =~= pre.push(out@.last()@));
        assert(s@.take(s@.len() as int) =~= s@);
    }
    out
}

/// `s.parse::<i64>().ok()`.
pub fn parse_i64(s: &[char]) -> (r: Option<i64>)
    ensures
        r == parse_i64_spec(s@),
{
    assert(s@.skip(0) =~= s@);
    if s.len() > 0 && s[0] == '-' {
        let d = skip_chars(s, 1);
        if d.len() == 0 || !all_digits(&d) {
            return None;
        }
        match digits_upto(&d, 0x8000_0000_0000_0000) {
            Some(v) => {
                let neg: i128 = -(v as i128);
                Some(neg as i64)
            },
            None => None,
        }
    } else {
        let d = if s.len() > 0 && s[0] == '+' { skip_chars(s, 1) } else { skip_chars(s, 0) };
        if d.len() == 0 || !all_digits(&d) {
            return None;
        }
        match digits_upto(&d, 0x7fff_ffff_ffff_ffff) {
            Some(v) => Some(v as i64),
            None => None,
        }
    }
}

} // verus!
