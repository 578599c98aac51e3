//! Protocol import helpers: the arithmetic and string rules that turn the
//! player-visible protocol (HP strings, boost names, the request) into
//! public facts about a battle.

use vstd::prelude::*;

use crate::protocol::{chars_of, eq_str, parse_i32, parse_i32_spec, text_of};
use crate::text::{decimal, push_char, push_decimal};

verus! {

/// NC2000 rule: Max Total Level of the three brought mons.
pub const MAX_TOTAL_LEVEL: i32 = 155;

// ------------------------------------------------------------------- HP

/// `ceil(a / b)` for `a >= 0`, `b > 0`.
pub open spec fn ceil_div(a: int, b: int) -> int {
    (a + b - 1) / b
}

/// What an HP string announces for true HP `hp` of `maxhp` (`hp >= 1`):
/// under HP Percentage Mod (`den == 100`) `ceil(100 hp / maxhp)`, with a
/// not-quite-full 100 knocked down to 99; on a pixel bar of `den` pixels
/// `floor(den hp / maxhp)`, at least 1.
pub open spec fn announced(hp: int, den: int, maxhp: int) -> int {
    if den == 100 {
        if hp == maxhp {
            100
        } else if ceil_div(100 * hp, maxhp) >= 100 {
            99
        } else {
            ceil_div(100 * hp, maxhp)
        }
    } else {
        if (den * hp) / maxhp < 1 {
            1
        } else {
            (den * hp) / maxhp
        }
    }
}

/// The bounds of the true-HP range an announcement `cur / den` admits
/// (before clamping to `maxhp - 1`).
pub open spec fn hp_bucket(cur: int, den: int, maxhp: int) -> (int, int) {
    if den == 100 {
        (((cur - 1) * maxhp) / 100 + 1, if cur == 99 { maxhp - 1 } else { (cur * maxhp) / 100 })
    } else {
        (
            if cur == 1 { 1 } else { ceil_div(cur * maxhp, den) },
            ceil_div((cur + 1) * maxhp, den) - 1,
        )
    }
}

/// The imputed HP: 0 for an empty announcement, `maxhp` for a full one,
/// else the midpoint (rounded up) of the admissible range, clamped to
/// `1..=maxhp`. A non-positive denominator is read as the 48-pixel bar.
pub open spec fn imputed_hp(cur: int, den: int, maxhp: int) -> int {
    let d = if den > 0 { den } else { 48 };
    if cur <= 0 {
        0
    } else if cur >= d {
        maxhp
    } else {
        let lo = hp_bucket(cur, d, maxhp).0;
        let hi0 = hp_bucket(cur, d, maxhp).1;
        let hi1 = if hi0 < maxhp - 1 { hi0 } else { maxhp - 1 };
        let hi = if hi1 > lo { hi1 } else { lo };
        let mid = (lo + hi + 1) / 2;
        if mid < 1 {
            1
        } else if mid > maxhp {
            maxhp
        } else {
            mid
        }
    }
}

/// Impute an HP amount inside the announced bucket: the midpoint of the
/// true-HP range consistent with an announced `cur/den` HP string.
pub fn impute_hp(cur: i32, den: i32, maxhp: i32) -> (r: i32)
    requires
        ({
            let d = if den > 0 { den } else { 48 };
            0 < cur < d ==> maxhp >= 1
        }),
    ensures
        r == imputed_hp(cur as int, den as int, maxhp as int),
{
    let den: i64 = if den > 0 { den as i64 } else { 48 };
    let cur: i64 = cur as i64;
    let maxhp: i64 = maxhp as i64;
    if cur <= 0 {
        return 0;
    }
    if cur >= den {
        return maxhp as i32;
    }
    proof {
        lemma_products_fit(cur as int, den as int, maxhp as int);
        lemma_bucket_bounds(cur as int, den as int, maxhp as int);
    }
    let (lo, hi) = if den == 100 {
        let lo = ((cur - 1) * maxhp) / 100 + 1;
        let hi = if cur == 99 { maxhp - 1 } else { (cur * maxhp) / 100 };
        (lo, hi)
    } else {
        let lo = if cur == 1 { 1 } else { (cur * maxhp + den - 1) / den };
        let hi = ((cur + 1) * maxhp + den - 1) / den - 1;
        (lo, hi)
    };
    assert(lo == hp_bucket(cur as int, den as int, maxhp as int).0);
    assert(hi == hp_bucket(cur as int, den as int, maxhp as int).1);
    let hi = if hi < maxhp - 1 { hi } else { maxhp - 1 };
    let hi = if hi > lo { hi } else { lo };
    let mid = (lo + hi + 1) / 2;
    if mid < 1 {
        1
    } else if mid > maxhp {
        maxhp as i32
    } else {
        mid as i32
    }
}

proof fn lemma_div_bounds(x: int, d: int)
    requires
        0 <= x,
        1 <= d,
    ensures
        0 <= x / d <= x,
{
    assert(0 <= x / d <= x) by (nonlinear_arith)
        requires
            0 <= x,
            1 <= d,
    ;
}

proof fn lemma_products_fit(cur: int, den: int, maxhp: int)
    requires
        0 < cur < den,
        den <= i32::MAX,
        1 <= maxhp <= i32::MAX,
    ensures
        0 <= (cur - 1) * maxhp <= cur * maxhp <= (cur + 1) * maxhp <= 0x4000_0000_0000_0000,
{
    assert(0 <= (cur - 1) * maxhp) by (nonlinear_arith)
        requires
            cur >= 1,
            maxhp >= 1,
    ;
    assert((cur - 1) * maxhp <= cur * maxhp <= (cur + 1) * maxhp) by (nonlinear_arith)
        requires
            maxhp >= 1,
    ;
    assert((cur + 1) * maxhp <= 0x8000_0000 * 0x8000_0000) by (nonlinear_arith)
        requires
            0 <= cur + 1 <= 0x8000_0000,
            1 <= maxhp <= 0x8000_0000,
    ;
}

proof fn lemma_bucket_bounds(cur: int, den: int, maxhp: int)
    requires
        0 < cur < den,
        den <= i32::MAX,
        1 <= maxhp <= i32::MAX,
    ensures
        0 <= hp_bucket(cur, den, maxhp).0 <= maxhp,
        -1 <= hp_bucket(cur, den, maxhp).1 <= 0x4000_0000_8000_0000,
{
    if den == 100 {
        assert((cur - 1) * maxhp / 100 < maxhp) by (nonlinear_arith)
            requires
                1 <= cur <= 99,
                maxhp >= 1,
        ;
    } else if cur != 1 {
        assert((cur * maxhp + den - 1) / den <= maxhp) by (nonlinear_arith)
            requires
                1 <= cur <= den - 1,
                maxhp >= 1,
        ;
    }
    lemma_products_fit(cur, den, maxhp);
    lemma_div_bounds((cur - 1) * maxhp, 100);
    lemma_div_bounds(cur * maxhp, 100);
    lemma_div_bounds(cur * maxhp + den - 1, den);
    lemma_div_bounds((cur + 1) * maxhp + den - 1, den);
}

proof fn lemma_floor(x: int, d: int)
    requires
        d > 0,
    ensures
        (x / d) * d <= x < (x / d) * d + d,
{
    assert((x / d) * d <= x < (x / d) * d + d) by (nonlinear_arith)
        requires
            d > 0,
    ;
}

proof fn lemma_floor_unique(x: int, d: int, q: int)
    requires
        d > 0,
        q * d <= x < q * d + d,
    ensures
        x / d == q,
{
    lemma_floor(x, d);
    let r = x / d;
    assert(r == q) by (nonlinear_arith)
        requires
            d > 0,
            q * d <= x < q * d + d,
            r * d <= x < r * d + d,
    ;
}

/// Every HP the percentage mod can announce as `cur` lies in the bucket,
/// and every HP in the bucket below `maxhp` announces `cur`.
proof fn lemma_percent_bucket(hp: int, maxhp: int)
    requires
        1 <= hp < maxhp,
    ensures
        ({
            let cur = announced(hp, 100, maxhp);
            let b = hp_bucket(cur, 100, maxhp);
            &&& 1 <= cur <= 99
            &&& b.0 <= hp <= b.1
            &&& forall|h: int| b.0 <= h <= b.1 && h < maxhp ==> #[trigger] announced(h, 100, maxhp) == cur
        }),
{
    let c = ceil_div(100 * hp, maxhp);
    lemma_floor(100 * hp + maxhp - 1, maxhp);
    assert((c - 1) * maxhp < 100 * hp <= c * maxhp) by (nonlinear_arith)
        requires
            c * maxhp <= 100 * hp + maxhp - 1 < c * maxhp + maxhp,
    ;
    assert(c >= 1) by (nonlinear_arith)
        requires
            100 * hp <= c * maxhp,
            hp >= 1,
            maxhp >= 1,
    ;
    let cur = announced(hp, 100, maxhp);
    assert(cur == if c >= 100 { 99 } else { c });
    assert((cur - 1) * maxhp < 100 * hp) by (nonlinear_arith)
        requires
            (c - 1) * maxhp < 100 * hp,
            1 <= cur <= c,
            maxhp >= 1,
    ;
    let lo = ((cur - 1) * maxhp) / 100 + 1;
    lemma_floor((cur - 1) * maxhp, 100);
    assert(lo <= hp);
    let hi = hp_bucket(cur, 100, maxhp).1;
    if cur != 99 {
        lemma_floor(cur * maxhp, 100);
        assert(hp <= hi);
    }
    assert forall|h: int| lo <= h <= hi && h < maxhp implies #[trigger] announced(h, 100, maxhp) == cur by {
        let ch = ceil_div(100 * h, maxhp);
        assert((cur - 1) * maxhp < 100 * h);
        if cur != 99 {
            lemma_floor(cur * maxhp, 100);
            assert(100 * h <= cur * maxhp);
            assert(cur * maxhp <= 100 * h + maxhp - 1 < cur * maxhp + maxhp) by (nonlinear_arith)
                requires
                    (cur - 1) * maxhp < 100 * h,
                    100 * h <= cur * maxhp,
            ;
            lemma_floor_unique(100 * h + maxhp - 1, maxhp, cur);
        } else {
            lemma_floor(100 * h + maxhp - 1, maxhp);
            assert(ch >= 99) by (nonlinear_arith)
                requires
                    98 * maxhp < 100 * h,
                    100 * h + maxhp - 1 < ch * maxhp + maxhp,
                    maxhp >= 1,
            ;
        }
    }
}

/// The same for a pixel bar of `den` pixels.
proof fn lemma_pixel_bucket(hp: int, den: int, maxhp: int)
    requires
        1 <= hp < maxhp,
        1 < den,
        den != 100,
    ensures
        ({
            let cur = announced(hp, den, maxhp);
            let b = hp_bucket(cur, den, maxhp);
            &&& 1 <= cur < den
            &&& 1 <= b.0 <= hp <= b.1
            &&& forall|h: int| b.0 <= h <= b.1 && 1 <= h < maxhp ==> #[trigger] announced(h, den, maxhp) == cur
        }),
{
    let f = (den * hp) / maxhp;
    lemma_floor(den * hp, maxhp);
    assert(den * hp < den * maxhp) by (nonlinear_arith)
        requires
            hp < maxhp,
            den > 0,
    ;
    assert(f < den) by (nonlinear_arith)
        requires
            f * maxhp < den * maxhp,
            maxhp > 0,
    ;
    assert(f >= 0) by (nonlinear_arith)
        requires
            den * hp < f * maxhp + maxhp,
            hp >= 1,
            den >= 1,
            maxhp >= 1,
    ;
    let cur = announced(hp, den, maxhp);
    let lo = hp_bucket(cur, den, maxhp).0;
    let hi = hp_bucket(cur, den, maxhp).1;
    // den * h < (cur + 1) * maxhp  <=>  h <= hi
    lemma_floor((cur + 1) * maxhp + den - 1, den);
    assert((hi + 1) * den >= (cur + 1) * maxhp && hi * den < (cur + 1) * maxhp) by (nonlinear_arith)
        requires
            hi == ((cur + 1) * maxhp + den - 1) / den - 1,
            (hi + 1) * den <= (cur + 1) * maxhp + den - 1 < (hi + 1) * den + den,
    ;
    assert(den * hp < (cur + 1) * maxhp) by (nonlinear_arith)
        requires
            den * hp < f * maxhp + maxhp,
            f <= cur,
            maxhp >= 1,
    ;
    assert(hp <= hi) by (nonlinear_arith)
        requires
            den * hp < (cur + 1) * maxhp,
            (cur + 1) * maxhp <= (hi + 1) * den,
            den > 0,
    ;
    if cur != 1 {
        lemma_floor(cur * maxhp + den - 1, den);
        assert(lo * den >= cur * maxhp && (lo - 1) * den < cur * maxhp) by (nonlinear_arith)
            requires
                lo * den <= cur * maxhp + den - 1 < lo * den + den,
        ;
        assert(lo <= hp) by (nonlinear_arith)
            requires
                cur * maxhp <= den * hp,
                (lo - 1) * den < cur * maxhp,
                den > 0,
        ;
        assert(lo >= 1) by (nonlinear_arith)
            requires
                lo * den >= cur * maxhp,
                cur >= 1,
                maxhp >= 1,
                den >= 1,
        ;
    }
    assert forall|h: int| lo <= h <= hi && 1 <= h < maxhp implies #[trigger] announced(h, den, maxhp) == cur by {
        let fh = (den * h) / maxhp;
        lemma_floor(den * h, maxhp);
        assert(den * h < (cur + 1) * maxhp) by (nonlinear_arith)
            requires
                h <= hi,
                hi * den < (cur + 1) * maxhp,
                den > 0,
        ;
        assert(fh <= cur) by (nonlinear_arith)
            requires
                fh * maxhp <= den * h,
                den * h < (cur + 1) * maxhp,
                maxhp >= 1,
        ;
        if cur != 1 {
            assert(cur * maxhp <= den * h) by (nonlinear_arith)
                requires
                    lo <= h,
                    lo * den >= cur * maxhp,
                    den > 0,
            ;
            assert(fh >= cur) by (nonlinear_arith)
                requires
                    den * h < fh * maxhp + maxhp,
                    cur * maxhp <= den * h,
                    maxhp >= 1,
            ;
        } else {
            assert(fh >= 0) by (nonlinear_arith)
                requires
                    den * h < fh * maxhp + maxhp,
                    h >= 1,
                    den >= 1,
                    maxhp >= 1,
            ;
        }
    }
}

/// Imputation is faithful to the announcement: the HP it imputes for what
/// a true HP announces lies in `1..=maxhp` and announces the same thing.
pub proof fn lemma_impute_hp_roundtrip(hp: int, den: int, maxhp: int)
    requires
        1 <= hp <= maxhp,
        0 < den,
    ensures
        1 <= imputed_hp(announced(hp, den, maxhp), den, maxhp) <= maxhp,
        announced(imputed_hp(announced(hp, den, maxhp), den, maxhp), den, maxhp)
            == announced(hp, den, maxhp),
{
    let cur = announced(hp, den, maxhp);
    if hp == maxhp {
        if den != 100 {
            lemma_floor_unique(den * hp, maxhp, den);
        }
        assert(cur == if den == 100 { 100 } else { den });
        assert(imputed_hp(cur, den, maxhp) == maxhp);
    } else if den == 1 {
        lemma_floor_unique(1 * hp, maxhp, 0);
        lemma_floor_unique(1 * maxhp, maxhp, 1);
        assert(cur == 1);
        assert(imputed_hp(cur, den, maxhp) == maxhp);
    } else {
        if den == 100 {
            lemma_percent_bucket(hp, maxhp);
        } else {
            lemma_pixel_bucket(hp, den, maxhp);
        }
        let lo = hp_bucket(cur, den, maxhp).0;
        let hi0 = hp_bucket(cur, den, maxhp).1;
        let hi1 = if hi0 < maxhp - 1 { hi0 } else { maxhp - 1 };
        let hi = if hi1 > lo { hi1 } else { lo };
        assert(lo <= hp <= hi1);
        assert(hi == hi1);
        let mid = (lo + hi + 1) / 2;
        assert(lo <= mid <= hi);
        assert(1 <= mid < maxhp);
        assert(imputed_hp(cur, den, maxhp) == mid);
        assert(announced(mid, den, maxhp) == cur);
    }
}

// ---------------------------------------------------------------- names

/// The boost table order: atk, def, spa, spd, spe, accuracy, evasion.
pub open spec fn boost_names() -> Seq<Seq<char>> {
    seq!["atk"@, "def"@, "spa"@, "spd"@, "spe"@, "accuracy"@, "evasion"@]
}

/// Position of a boost name in the boost table.
pub fn boost_index(name: &str) -> (r: Option<usize>)
    ensures
        match r {
            Some(i) => i < 7 && boost_names()[i as int] == name@ && forall|j: int|
                0 <= j < i ==> boost_names()[j] != name@,
            None => forall|j: int| 0 <= j < 7 ==> boost_names()[j] != name@,
        },
{
    let names: [&str; 7] = ["atk", "def", "spa", "spd", "spe", "accuracy", "evasion"];
    assert(names@.map_values(|n: &str| n@) =~= boost_names());
    for i in 0..7usize
        invariant
            names@.map_values(|n: &str| n@) == boost_names(),
            forall|j: int| 0 <= j < i ==> boost_names()[j] != name@,
    {
        assert(names@.map_values(|n: &str| n@)[i as int] == names@[i as int]@);
        if crate::text::same_text(names[i], name) {
            return Some(i);
        }
    }
    None
}

/// The level at a 1-based roster position (0 for an empty pick or a
/// position past the roster).
pub open spec fn level_at(levels: Seq<i32>, slot: u8) -> int {
    if slot != 0 && (slot as int) <= levels.len() {
        levels[slot as int - 1] as int
    } else {
        0
    }
}

/// Sum of the levels at the three picked roster positions.
pub open spec fn total_level(levels: Seq<i32>, slots: [u8; 3]) -> int {
    level_at(levels, slots[0]) + level_at(levels, slots[1]) + level_at(levels, slots[2])
}

fn slot_level(levels: &[i32], slot: u8) -> (r: i64)
    ensures
        r == level_at(levels@, slot),
{
    if slot != 0 && (slot as usize) <= levels.len() {
        levels[slot as usize - 1] as i64
    } else {
        0
    }
}

/// Total level of a preview pick (the Max Total Level rule adds these up).
pub fn team_total_level(levels: &[i32], slots: &[u8; 3]) -> (r: i32)
    requires
        i32::MIN <= total_level(levels@, *slots) <= i32::MAX,
    ensures
        r == total_level(levels@, *slots),
{
    let sum: i64 = slot_level(levels, slots[0]) + slot_level(levels, slots[1]) + slot_level(levels, slots[2]);
    sum as i32
}


// ------------------------------------------------------------ HP fields

/// The position of the first `c` in `s`.
pub open spec fn first_index(s: Seq<char>, c: char) -> Option<int>
    decreases s.len(),
{
    if s.len() == 0 {
        None
    } else {
        match first_index(s.drop_last(), c) {
            Some(i) => Some(i),
            None => if s.last() == c {
                Some(s.len() - 1)
            } else {
                None
            },
        }
    }
}

proof fn lemma_first_index(s: Seq<char>, c: char, i: int)
    requires
        0 <= i < s.len(),
        s[i] == c,
        forall|k: int| 0 <= k < i ==> s[k] != c,
    ensures
        first_index(s, c) == Some(i),
    decreases s.len(),
{
    if i < s.len() - 1 {
        lemma_first_index(s.drop_last(), c, i);
    } else {
        lemma_no_index(s.drop_last(), c);
    }
}

proof fn lemma_no_index(s: Seq<char>, c: char)
    requires
        forall|k: int| 0 <= k < s.len() ==> s[k] != c,
    ensures
        first_index(s, c) is None,
    decreases s.len(),
{
    if s.len() > 0 {
        lemma_no_index(s.drop_last(), c);
    }
}

/// `s.split_once(c)`: the text before the first `c` and the text after it.
pub open spec fn split_once_spec(s: Seq<char>, c: char) -> Option<(Seq<char>, Seq<char>)> {
    match first_index(s, c) {
        Some(i) => Some((s.take(i), s.skip(i + 1))),
        None => None,
    }
}

fn split_once_chars(s: &[char], c: char) -> (r: Option<(Vec<char>, Vec<char>)>)
    ensures
        match r {
            Some((a, b)) => split_once_spec(s@, c) == Some((a@, b@)),
            None => split_once_spec(s@, c) is None,
        },
{
    let mut i: usize = 0;
    while i < s.len()
        invariant
            i <= s@.len(),
            forall|k: int| 0 <= k < i ==> s@[k] != c,
        decreases s@.len() - i,
    {
        if s[i] == c {
            proof {
                lemma_first_index(s@, c, i as int);
            }
            let mut a: Vec<char> = Vec::new();
            for k in 0..i
                invariant
                    i < s@.len(),
                    a@ == s@.take(k as int),
            {
                a.push(s[k]);
                assert(s@.take(k + 1) =~= s@.take(k as int).push(s@[k as int]));
            }
            let mut b: Vec<char> = Vec::new();
            for k in i + 1..s.len()
                invariant
                    i < s@.len(),
                    b@ == s@.subrange(i + 1, k as int),
            {
                b.push(s[k]);
                assert(s@.subrange(i + 1, k + 1) =~= s@.subrange(i + 1, k as int).push(s@[k as int]));
            }
            assert(s@.subrange(i + 1, s@.len() as int) =~= s@.skip(i + 1));
            return Some((a, b));
        }
        i = i + 1;
    }
    proof {
        lemma_no_index(s@, c);
    }
    None
}

/// `text.parse::<i32>().unwrap_or(0)`.
pub open spec fn int_or_zero(text: Seq<char>) -> i32 {
    match parse_i32_spec(text) {
        Some(v) => v,
        None => 0,
    }
}

/// An HP-status field read as `(current, max, status)`: `"137/211 par"`
/// gives `(137, 211, "par")`, a bare number has max 0, `"0 fnt"` gives
/// `(0, 0, "fnt")`; what does not parse reads as 0.
pub open spec fn hp_field(s: Seq<char>) -> (i32, i32, Seq<char>) {
    let (hp_part, status) = match split_once_spec(s, ' ') {
        Some((h, st)) => (h, st),
        None => (s, Seq::empty()),
    };
    if hp_part == "0"@ {
        (0, 0, status)
    } else {
        match split_once_spec(hp_part, '/') {
            Some((c, m)) => (int_or_zero(c), int_or_zero(m), status),
            None => (int_or_zero(hp_part), 0, status),
        }
    }
}

fn int_or_zero_exec(v: &[char]) -> (r: i32)
    ensures
        r == int_or_zero(v@),
{
    match parse_i32(v) {
        Some(x) => x,
        None => 0,
    }
}

/// Parse an HP-status field.
pub fn parse_hp(s: &str) -> (r: (i32, i32, String))
    ensures
        (r.0, r.1, r.2@) == hp_field(s@),
{
    let chars = chars_of(s);
    let (hp_part, status) = match split_once_chars(&chars, ' ') {
        Some((h, st)) => (h, st),
        None => (chars, Vec::new()),
    };
    if eq_str(&hp_part, "0") {
        return (0, 0, text_of(&status));
    }
    match split_once_chars(&hp_part, '/') {
        Some((c, m)) => (int_or_zero_exec(&c), int_or_zero_exec(&m), text_of(&status)),
        None => (int_or_zero_exec(&hp_part), 0, text_of(&status)),
    }
}

// ---------------------------------------------------------------- request

/// One move of the active mon, as the request lists it.
#[derive(Clone, Debug)]
pub struct ReqMove {
    pub id: String,
    pub pp: Option<i32>,
    pub maxpp: Option<i32>,
    pub disabled: bool,
}

/// One mon of our side, as the request lists it.
#[derive(Clone, Debug)]
pub struct ReqMon {
    /// The details string ("Species, L50, M").
    pub details: String,
    pub hp: i32,
    pub maxhp: i32,
    pub status: String,
    pub fainted: bool,
    pub active: bool,
    pub item: String,
}

/// The request: the player-visible own-side truth at a decision point.
#[derive(Clone, Debug)]
pub struct Request {
    pub team_preview: bool,
    pub force_switch: bool,
    pub wait: bool,
    pub trapped: bool,
    pub active_moves: Vec<ReqMove>,
    pub pokemon: Vec<ReqMon>,
}

/// `move <id>` for each usable move (not disabled, PP not known to be 0).
pub open spec fn move_inputs(ms: Seq<ReqMove>) -> Seq<Seq<char>>
    decreases ms.len(),
{
    if ms.len() == 0 {
        Seq::empty()
    } else {
        let rest = move_inputs(ms.drop_last());
        let m = ms.last();
        if !m.disabled && m.pp != Some(0i32) {
            rest.push("move "@ + m.id@)
        } else {
            rest
        }
    }
}

/// `switch <position>` (1-based) for each benched, unfainted mon.
pub open spec fn switch_inputs(mons: Seq<ReqMon>) -> Seq<Seq<char>>
    decreases mons.len(),
{
    if mons.len() == 0 {
        Seq::empty()
    } else {
        let rest = switch_inputs(mons.drop_last());
        let m = mons.last();
        if !m.active && !m.fainted {
            rest.push("switch "@ + decimal(mons.len()))
        } else {
            rest
        }
    }
}

/// The choice inputs a request admits in battle: none at team preview or
/// while waiting; the usable moves unless switching is forced; the legal
/// switches when switching is forced, or when the mon is not trapped and
/// has moves; `pass` when a forced switch has nothing else.
pub open spec fn legal_inputs_spec(r: Request) -> Seq<Seq<char>> {
    if r.team_preview || r.wait {
        Seq::empty()
    } else {
        let moves = if !r.force_switch { move_inputs(r.active_moves@) } else { Seq::empty() };
        let can_switch = r.force_switch || (!r.trapped && r.active_moves@.len() > 0);
        let all = moves + if can_switch { switch_inputs(r.pokemon@) } else { Seq::empty() };
        if r.force_switch && all.len() == 0 {
            seq!["pass"@]
        } else {
            all
        }
    }
}

pub open spec fn texts_of(v: Seq<String>) -> Seq<Seq<char>> {
    v.map_values(|s: String| s@)
}

impl Request {
    /// The inputs this request admits (team preview legality is decided by
    /// the level rule instead).
    pub fn legal_inputs(&self) -> (out: Vec<String>)
        requires
            self.pokemon@.len() < u64::MAX,
        ensures
            texts_of(out@) == legal_inputs_spec(*self),
    {
        let mut out: Vec<String> = Vec::new();
        if self.team_preview || self.wait {
            assert(texts_of(out@) =~= Seq::<Seq<char>>::empty());
            return out;
        }
        if !self.force_switch {
            for i in 0..self.active_moves.len()
                invariant
                    texts_of(out@) == move_inputs(self.active_moves@.take(i as int)),
            {
                let m = &self.active_moves[i];
                assert(self.active_moves@.take(i + 1).drop_last() =~= self.active_moves@.take(i as int));
                let usable = !m.disabled && match m.pp {
                    Some(p) => p != 0,
                    None => true,
                };
                if usable {
                    let mut t = String::from_str("move ");
                    t.append(m.id.as_str());
                    let ghost before = texts_of(out@);
                    out.push(t);
                    assert(texts_of(out@) =~= before.push("move "@ + m.id@));
                }
            }
            assert(self.active_moves@.take(self.active_moves@.len() as int) =~= self.active_moves@);
        } else {
            assert(texts_of(out@) =~= Seq::<Seq<char>>::empty());
        }
        let ghost moves = texts_of(out@);
        let can_switch = self.force_switch || (!self.trapped && self.active_moves.len() > 0);
        if can_switch {
            for pos in 0..self.pokemon.len()
                invariant
                    self.pokemon@.len() < u64::MAX,
                    texts_of(out@) == moves + switch_inputs(self.pokemon@.take(pos as int)),
            {
                let mon = &self.pokemon[pos];
                assert(self.pokemon@.take(pos + 1).drop_last() =~= self.pokemon@.take(pos as int));
                if !mon.active && !mon.fainted {
                    let mut t = String::from_str("switch ");
                    push_decimal(&mut t, pos as u64 + 1);
                    let ghost before = texts_of(out@);
                    out.push(t);
                    assert(texts_of(out@) =~= before.push("switch "@ + decimal((pos + 1) as nat)));
                    assert(moves + switch_inputs(self.pokemon@.take(pos + 1)) =~= (moves + switch_inputs(self.pokemon@.take(pos as int))).push("switch "@ + decimal((pos + 1) as nat)));
                }
            }
            assert(self.pokemon@.take(self.pokemon@.len() as int) =~= self.pokemon@);
        } else {
            assert(moves + Seq::<Seq<char>>::empty() =~= moves);
        }
        if self.force_switch && out.len() == 0 {
            out.push(String::from_str("pass"));
            assert(texts_of(out@) =~= seq!["pass"@]);
        }
        out
    }
}

} // verus!
