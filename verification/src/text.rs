//! Text helpers: decimal and fixed-width hexadecimal renderings of
//! integers, and appending to a `String`.

use vstd::prelude::*;

verus! {

/// The ASCII digit for `d` (`d < 10`).
pub open spec fn dec_char(d: nat) -> char {
    (d + 48) as char
}

/// The lowercase ASCII hex digit for `d` (`d < 16`).
pub open spec fn hex_char(d: nat) -> char {
    if d < 10 {
        (d + 48) as char
    } else {
        (d + 87) as char
    }
}

/// Shortest decimal rendering of `n` (what `{}` prints for an unsigned
/// integer): no leading zeros, `"0"` for zero.
pub open spec fn decimal(n: nat) -> Seq<char>
    decreases n,
{
    if n < 10 {
        seq![dec_char(n)]
    } else {
        decimal(n / 10).push(dec_char(n % 10))
    }
}

/// The low `width` hex digits of `n`, most significant first, zero padded
/// (what `{:016x}` prints for a `u64` when `width == 16`).
pub open spec fn hex_fixed(n: nat, width: nat) -> Seq<char>
    decreases width,
{
    if width == 0 {
        Seq::empty()
    } else {
        hex_fixed(n / 16, (width - 1) as nat).push(hex_char(n % 16))
    }
}

/// Appends one character (std `String::push`).
#[verifier::external_body]
pub(crate) fn push_char(s: &mut String, c: char)
    ensures
        final(s)@ == old(s)@.push(c),
{
    s.push(c);
}

/// Appends the decimal rendering of `n`.
pub fn push_decimal(s: &mut String, n: u64)
    ensures
        final(s)@ == old(s)@ + decimal(n as nat),
    decreases n,
{
    if n >= 10 {
        push_decimal(s, n / 10);
    }
    let d = (n % 10) as u32;
    let c = char_from_digit(d);
    push_char(s, c);
    proof {
        assert(old(s)@ + decimal(n as nat) =~= (old(s)@ + (if n >= 10 { decimal(n as nat / 10) } else { Seq::empty() })).push(dec_char(n as nat % 10)));
    }
}

/// Appends exactly `width` lowercase hex digits of `n`.
pub fn push_hex_fixed(s: &mut String, n: u64, width: u32)
    ensures
        final(s)@ == old(s)@ + hex_fixed(n as nat, width as nat),
    decreases width,
{
    if width > 0 {
        push_hex_fixed(s, n / 16, width - 1);
        let d = (n % 16) as u32;
        let c = hex_digit(d);
        push_char(s, c);
        proof {
            assert(old(s)@ + hex_fixed(n as nat, width as nat) =~= (old(s)@ + hex_fixed(n as nat / 16, (width - 1) as nat)).push(hex_char(n as nat % 16)));
        }
    } else {
        proof {
            assert(old(s)@ + hex_fixed(n as nat, 0) =~= old(s)@);
        }
    }
}

fn char_from_digit(d: u32) -> (c: char)
    requires
        d < 10,
    ensures
        c == dec_char(d as nat),
{
    let v: u32 = d + 48;
    let b: u8 = v as u8;
    b as char
}

fn hex_digit(d: u32) -> (c: char)
    requires
        d < 16,
    ensures
        c == hex_char(d as nat),
{
    if d < 10 {
        let b: u8 = (d + 48) as u8;
        b as char
    } else {
        let b: u8 = (d + 87) as u8;
        b as char
    }
}

} // verus!

verus! {

/// ASCII bytes of `decimal(n)`.
pub open spec fn dec_bytes(n: nat) -> Seq<u8>
    decreases n,
{
    if n < 10 {
        seq![(n + 48) as u8]
    } else {
        dec_bytes(n / 10).push((n % 10 + 48) as u8)
    }
}

/// ASCII bytes of `hex_fixed(n, width)`.
pub open spec fn hex_bytes(n: nat, width: nat) -> Seq<u8>
    decreases width,
{
    if width == 0 {
        Seq::empty()
    } else {
        hex_bytes(n / 16, (width - 1) as nat).push(
            if n % 16 < 10 {
                (n % 16 + 48) as u8
            } else {
                (n % 16 + 87) as u8
            },
        )
    }
}

/// The decimal rendering of `n` as ASCII bytes (`n.to_string().into_bytes()`).
pub fn decimal_bytes(n: u64) -> (v: Vec<u8>)
    ensures
        v@ == dec_bytes(n as nat),
{
    let mut v: Vec<u8> = Vec::new();
    push_decimal_bytes(&mut v, n);
    assert(v@ =~= dec_bytes(n as nat));
    v
}

fn push_decimal_bytes(v: &mut Vec<u8>, n: u64)
    ensures
        final(v)@ == old(v)@ + dec_bytes(n as nat),
    decreases n,
{
    if n >= 10 {
        push_decimal_bytes(v, n / 10);
    }
    let d: u8 = (n % 10) as u8;
    v.push(d + 48);
    proof {
        assert(old(v)@ + dec_bytes(n as nat) =~= (old(v)@ + (if n >= 10 {
            dec_bytes(n as nat / 10)
        } else {
            Seq::empty()
        })).push((n as nat % 10 + 48) as u8));
    }
}

/// Exactly `width` lowercase hex digits of `n` as ASCII bytes.
pub fn hex_fixed_bytes(n: u64, width: u32) -> (v: Vec<u8>)
    ensures
        v@ == hex_bytes(n as nat, width as nat),
{
    let mut v: Vec<u8> = Vec::new();
    push_hex_bytes(&mut v, n, width);
    assert(v@ =~= hex_bytes(n as nat, width as nat));
    v
}

fn push_hex_bytes(v: &mut Vec<u8>, n: u64, width: u32)
    ensures
        final(v)@ == old(v)@ + hex_bytes(n as nat, width as nat),
    decreases width,
{
    if width > 0 {
        push_hex_bytes(v, n / 16, width - 1);
        let d: u8 = (n % 16) as u8;
        if d < 10 {
            v.push(d + 48);
        } else {
            v.push(d + 87);
        }
        proof {
            assert(old(v)@ + hex_bytes(n as nat, width as nat) =~= (old(v)@ + hex_bytes(
                n as nat / 16,
                (width - 1) as nat,
            )).push(
                if n as nat % 16 < 10 {
                    (n as nat % 16 + 48) as u8
                } else {
                    (n as nat % 16 + 87) as u8
                },
            ));
        }
    } else {
        assert(old(v)@ + hex_bytes(n as nat, 0) =~= old(v)@);
    }
}

/// Character-wise equality of two strings.
pub fn same_text(a: &str, b: &str) -> (r: bool)
    ensures
        r == (a@ == b@),
{
    let n = a.unicode_len();
    let m = b.unicode_len();
    if n != m {
        return false;
    }
    for i in 0..n
        invariant
            n == a@.len(),
            m == b@.len(),
            n == m,
            forall|j: int| 0 <= j < i ==> a@[j] == b@[j],
    {
        if a.get_char(i) != b.get_char(i) {
            return false;
        }
    }
    assert(a@ =~= b@);
    true
}

} // verus!

verus! {

/// `prefix` is a prefix of `s`.
pub open spec fn has_prefix(s: Seq<char>, prefix: Seq<char>) -> bool {
    prefix.len() <= s.len() && s.take(prefix.len() as int) == prefix
}

/// `s.starts_with(prefix)`.
pub fn starts_with(s: &str, prefix: &str) -> (r: bool)
    ensures
        r == has_prefix(s@, prefix@),
{
    let n = s.unicode_len();
    let m = prefix.unicode_len();
    if m > n {
        return false;
    }
    for i in 0..m
        invariant
            n == s@.len(),
            m == prefix@.len(),
            m <= n,
            forall|j: int| 0 <= j < i ==> s@[j] == prefix@[j],
    {
        if s.get_char(i) != prefix.get_char(i) {
            assert(s@.take(m as int)[i as int] != prefix@[i as int]);
            return false;
        }
    }
    assert(s@.take(m as int) =~= prefix@);
    true
}

/// The id form of one character: lowercase ASCII letters and digits are
/// kept, uppercase ASCII letters are lowered, everything else is dropped.
pub open spec fn id_char(c: char) -> Option<char> {
    if ('a' <= c <= 'z') || ('0' <= c <= '9') {
        Some(c)
    } else if 'A' <= c <= 'Z' {
        Some(((c as u32) + 32) as char)
    } else {
        None
    }
}

/// PS `toID`: the id characters of `s`, in order.
pub open spec fn to_id(s: Seq<char>) -> Seq<char>
    decreases s.len(),
{
    if s.len() == 0 {
        s
    } else {
        match id_char(s.last()) {
            Some(c) => to_id(s.drop_last()).push(c),
            None => to_id(s.drop_last()),
        }
    }
}

/// `toid`: lowercase ASCII alphanumerics of `s`, everything else removed.
pub fn toid(s: &str) -> (r: String)
    ensures
        r@ == to_id(s@),
{
    let n = s.unicode_len();
    let mut out = String::new();
    for i in 0..n
        invariant
            n == s@.len(),
            out@ == to_id(s@.take(i as int)),
    {
        let c = s.get_char(i);
        assert(s@.take(i + 1).drop_last() =~= s@.take(i as int));
        assert(s@.take(i + 1).last() == c);
        if ('a' <= c && c <= 'z') || ('0' <= c && c <= '9') {
            push_char(&mut out, c);
        } else if 'A' <= c && c <= 'Z' {
            let lower = ((c as u32) + 32) as u8;
            push_char(&mut out, lower as char);
        }
    }
    assert(s@.take(n as int) =~= s@);
    out
}

/// PS normalizes typed hidden powers to the plain id.
pub open spec fn plain_id(key: Seq<char>) -> Seq<char> {
    if has_prefix(key, "hiddenpower"@) {
        "hiddenpower"@
    } else {
        key
    }
}

} // verus!
