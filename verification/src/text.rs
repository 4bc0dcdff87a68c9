//! Character-level helpers on strings, with their meaning stated over the
//! `Seq<char>` view of `str` and `String`.

use vstd::prelude::*;
use vstd::std_specs::iter::IteratorSpec;
use vstd::string::StringExecFns;

verus! {

/// The characters of `s`, in order.
pub fn chars_of(s: &str) -> (v: Vec<char>)
    ensures
        v@ == s@,
{
    let mut v: Vec<char> = Vec::new();
    let it = s.chars();
    for c in iter: it
        invariant
            v@ == iter.seq().take(iter.index() as int),
    {
        v.push(c);
    }
    v
}

/// Appends one character (std's `String::push`).
#[verifier::external_body]
pub(crate) fn push_char(s: &mut String, c: char)
    ensures
        final(s)@ == old(s)@.push(c),
{
    s.push(c);
}

/// Appends a string slice.
pub fn push_str(s: &mut String, t: &str)
    ensures
        final(s)@ == old(s)@ + t@,
{
    s.append(t);
}

/// The string made of the characters of `v`.
pub fn string_of(v: &[char]) -> (s: String)
    ensures
        s@ == v@,
{
    let s = string_of_range(v, 0, v.len());
    assert(v@.subrange(0, v@.len() as int) == v@);
    s
}

/// The string made of the characters `v[lo..hi]`.
pub fn string_of_range(v: &[char], lo: usize, hi: usize) -> (s: String)
    requires
        lo <= hi <= v@.len(),
    ensures
        s@ == v@.subrange(lo as int, hi as int),
{
    let mut s = String::new();
    let mut i: usize = lo;
    while i < hi
        invariant
            lo <= i <= hi <= v@.len(),
            s@ == v@.subrange(lo as int, i as int),
        decreases hi - i,
    {
        push_char(&mut s, v[i]);
        i += 1;
        assert(v@.subrange(lo as int, i as int) == v@.subrange(lo as int, (i - 1) as int).push(
            v@[i - 1],
        ));
    }
    s
}

/// The decimal digit character for `d < 10`.
pub open spec fn digit_char(d: nat) -> char {
    ((d + 48) as u8) as char
}

/// Decimal representation of a natural number, without leading zeros.
pub open spec fn dec(n: nat) -> Seq<char>
    decreases n,
{
    if n < 10 {
        seq![digit_char(n)]
    } else {
        dec(n / 10).push(digit_char(n % 10))
    }
}

/// Decimal representation of an integer, with `-` for negative numbers.
pub open spec fn idec(n: int) -> Seq<char> {
    if n < 0 {
        seq!['-'] + dec((-n) as nat)
    } else {
        dec(n as nat)
    }
}

/// Appends the decimal representation of `n`.
pub fn push_dec(s: &mut String, n: u64)
    ensures
        final(s)@ == old(s)@ + dec(n as nat),
    decreases n,
{
    if n >= 10 {
        push_dec(s, n / 10);
    }
    let d: u8 = (n % 10) as u8;
    push_char(s, (d + 48u8) as char);
    assert(dec(n as nat) == (if n < 10 { seq![digit_char(n as nat)] } else { dec((n / 10) as nat).push(digit_char((n % 10) as nat)) }));
}

/// Appends the decimal representation of a signed number.
pub fn push_idec(s: &mut String, n: i64)
    ensures
        final(s)@ == old(s)@ + idec(n as int),
{
    if n < 0 {
        push_char(s, '-');
        let m: u64 = if n == i64::MIN { 9223372036854775808u64 } else { (-n) as u64 };
        push_dec(s, m);
        assert(s@ == old(s)@ + (seq!['-'] + dec((-n) as nat)));
    } else {
        push_dec(s, n as u64);
    }
}

/// Decimal representation of `n` as a new string.
pub fn dec_string(n: u64) -> (s: String)
    ensures
        s@ == dec(n as nat),
{
    let mut s = String::new();
    push_dec(&mut s, n);
    assert(s@ == Seq::<char>::empty() + dec(n as nat));
    s
}


/// `c` has the Unicode White_Space property (std's `char::is_whitespace`).
pub open spec fn is_ws(c: char) -> bool {
    ||| ('\u{9}' <= c && c <= '\u{d}')
    ||| c == ' '
    ||| c == '\u{85}'
    ||| c == '\u{a0}'
    ||| c == '\u{1680}'
    ||| ('\u{2000}' <= c && c <= '\u{200a}')
    ||| c == '\u{2028}'
    ||| c == '\u{2029}'
    ||| c == '\u{202f}'
    ||| c == '\u{205f}'
    ||| c == '\u{3000}'
}

/// True when `c` is Unicode white space.
pub fn is_whitespace(c: char) -> (res: bool)
    ensures
        res == is_ws(c),
{
    ('\u{9}' <= c && c <= '\u{d}') || c == ' ' || c == '\u{85}' || c == '\u{a0}' || c
        == '\u{1680}' || ('\u{2000}' <= c && c <= '\u{200a}') || c == '\u{2028}' || c
        == '\u{2029}' || c == '\u{202f}' || c == '\u{205f}' || c == '\u{3000}'
}

/// `s` without its leading white space.
pub open spec fn trim_start(s: Seq<char>) -> Seq<char>
    decreases s.len(),
{
    if s.len() > 0 && is_ws(s[0]) {
        trim_start(s.drop_first())
    } else {
        s
    }
}

/// `s` without its trailing white space.
pub open spec fn trim_end(s: Seq<char>) -> Seq<char>
    decreases s.len(),
{
    if s.len() > 0 && is_ws(s.last()) {
        trim_end(s.drop_last())
    } else {
        s
    }
}

/// `s` without leading and trailing white space.
pub open spec fn trim(s: Seq<char>) -> Seq<char> {
    trim_end(trim_start(s))
}

/// Index of the first character of `v[from..]` that is not white space.
fn skip_ws_forward(v: &Vec<char>, from: usize) -> (i: usize)
    requires
        from <= v@.len(),
    ensures
        from <= i <= v@.len(),
        trim_start(v@.skip(from as int)) == v@.skip(i as int),
    decreases v@.len() - from,
{
    if from < v.len() && is_whitespace(v[from]) {
        assert(v@.skip(from as int).drop_first() == v@.skip(from + 1));
        skip_ws_forward(v, from + 1)
    } else {
        from
    }
}

/// `s` without leading white space.
pub fn trim_start_str(s: &str) -> (r: String)
    ensures
        r@ == trim_start(s@),
{
    let v = chars_of(s);
    let i = skip_ws_forward(&v, 0);
    assert(v@.skip(0) == v@);
    assert(v@.skip(i as int) == v@.subrange(i as int, v@.len() as int));
    string_of_range(v.as_slice(), i, v.len())
}

/// `s` without leading and trailing white space.
pub fn trim_str(s: &str) -> (r: String)
    ensures
        r@ == trim(s@),
{
    let v = chars_of(s);
    let i = skip_ws_forward(&v, 0);
    assert(v@.skip(0) == v@);
    let j = skip_ws_backward_from(&v, i, v.len());
    assert(v@.subrange(i as int, v@.len() as int) == v@.skip(i as int));
    string_of_range(v.as_slice(), i, j)
}

/// Index just after the last character of `v[lo..to]` that is not white space.
fn skip_ws_backward_from(v: &Vec<char>, lo: usize, to: usize) -> (j: usize)
    requires
        lo <= to <= v@.len(),
    ensures
        lo <= j <= to,
        trim_end(v@.subrange(lo as int, to as int)) == v@.subrange(lo as int, j as int),
    decreases to,
{
    if to > lo && is_whitespace(v[to - 1]) {
        assert(v@.subrange(lo as int, to as int).drop_last() == v@.subrange(lo as int, to - 1));
        skip_ws_backward_from(v, lo, to - 1)
    } else {
        to
    }
}

/// `a` and `b` hold the same characters.
pub fn same_text(a: &str, b: &str) -> (res: bool)
    ensures
        res == (a@ == b@),
{
    let va = chars_of(a);
    let vb = chars_of(b);
    if va.len() != vb.len() {
        return false;
    }
    let mut i: usize = 0;
    while i < va.len()
        invariant
            va@ == a@,
            vb@ == b@,
            va@.len() == vb@.len(),
            i <= va@.len(),
            forall|k: int| 0 <= k < i ==> va@[k] == vb@[k],
        decreases va@.len() - i,
    {
        if va[i] != vb[i] {
            assert(va@[i as int] != vb@[i as int]);
            assert(va@ != vb@);
            return false;
        }
        i += 1;
    }
    assert(va@ =~= vb@);
    true
}

/// `p` is a prefix of `s`.
pub open spec fn has_prefix(s: Seq<char>, p: Seq<char>) -> bool {
    p.len() <= s.len() && s.subrange(0, p.len() as int) == p
}

/// True when `s` starts with `p`.
pub fn starts_with(s: &str, p: &str) -> (res: bool)
    ensures
        res == has_prefix(s@, p@),
{
    let vs = chars_of(s);
    let vp = chars_of(p);
    if vp.len() > vs.len() {
        return false;
    }
    let mut i: usize = 0;
    while i < vp.len()
        invariant
            vs@ == s@,
            vp@ == p@,
            vp@.len() <= vs@.len(),
            i <= vp@.len(),
            forall|k: int| 0 <= k < i ==> vs@[k] == vp@[k],
        decreases vp@.len() - i,
    {
        if vs[i] != vp[i] {
            let ghost sub = vs@.subrange(0, vp@.len() as int);
            assert(sub[i as int] == vs@[i as int]);
            assert(sub != vp@);
            return false;
        }
        i += 1;
    }
    assert(vs@.subrange(0, vp@.len() as int) =~= vp@);
    true
}

/// The optional string is present and equal to `lit`.
pub open spec fn opt_is(o: Option<String>, lit: Seq<char>) -> bool {
    o is Some && o->0@ == lit
}

/// True when `o` holds exactly the text `lit`.
pub fn opt_equals(o: &Option<String>, lit: &str) -> (res: bool)
    ensures
        res == opt_is(*o, lit@),
{
    match o {
        Some(s) => same_text(s.as_str(), lit),
        None => false,
    }
}

/// The optional string is present and starts with `p`.
pub open spec fn opt_has_prefix(o: Option<String>, p: Seq<char>) -> bool {
    o is Some && has_prefix(o->0@, p)
}

/// True when `o` is present and starts with `p`.
pub fn opt_starts_with(o: &Option<String>, p: &str) -> (res: bool)
    ensures
        res == opt_has_prefix(*o, p@),
{
    match o {
        Some(s) => starts_with(s.as_str(), p),
        None => false,
    }
}


/// `c` is an ASCII decimal digit.
pub open spec fn is_digit(c: char) -> bool {
    '0' <= c && c <= '9'
}

/// Value of a string of decimal digits.
pub open spec fn digits_value(s: Seq<char>) -> nat
    decreases s.len(),
{
    if s.len() == 0 {
        0
    } else {
        digits_value(s.drop_last()) * 10 + (s.last() as u32 - 48) as nat
    }
}

/// `s` is a non-empty string of decimal digits.
pub open spec fn all_digits(s: Seq<char>) -> bool {
    s.len() > 0 && forall|i: int| 0 <= i < s.len() ==> is_digit(#[trigger] s[i])
}

/// What std's `str::parse::<u32>` accepts: an optional `+` and decimal
/// digits whose value fits in 32 bits.
pub open spec fn parse_u32_spec(s: Seq<char>) -> Option<u32> {
    let body = if s.len() > 0 && s[0] == '+' { s.drop_first() } else { s };
    if all_digits(body) && digits_value(body) <= u32::MAX {
        Some(digits_value(body) as u32)
    } else {
        None
    }
}

/// What std's `str::parse::<i32>` accepts: an optional sign and decimal
/// digits whose signed value fits in 32 bits.
pub open spec fn parse_i32_spec(s: Seq<char>) -> Option<i32> {
    let neg = s.len() > 0 && s[0] == '-';
    let body = if s.len() > 0 && (s[0] == '+' || s[0] == '-') { s.drop_first() } else { s };
    let v: int = if neg { -(digits_value(body) as int) } else { digits_value(body) as int };
    if all_digits(body) && i32::MIN <= v && v <= i32::MAX {
        Some(v as i32)
    } else {
        None
    }
}

/// Checks `v[lo..]` for digits; returns whether all are digits (and there
/// is at least one) and their value capped at 2^32.
fn scan_digits(v: &Vec<char>, lo: usize) -> (r: (bool, u64))
    requires
        lo <= v@.len(),
    ensures
        r.0 == all_digits(v@.skip(lo as int)),
        r.0 ==> r.1 == (if digits_value(v@.skip(lo as int)) < 0x1_0000_0000 {
            digits_value(v@.skip(lo as int))
        } else {
            0x1_0000_0000
        }),
{
    let cap: u64 = 0x1_0000_0000;
    let mut acc: u64 = 0;
    let mut i: usize = lo;
    if lo == v.len() {
        return (false, 0);
    }
    while i < v.len()
        invariant
            cap == 0x1_0000_0000,
            acc <= cap,
            lo <= i <= v@.len(),
            forall|k: int| lo <= k < i ==> is_digit(#[trigger] v@[k]),
            acc == (if digits_value(v@.subrange(lo as int, i as int)) < cap {
                digits_value(v@.subrange(lo as int, i as int))
            } else {
                cap as nat
            }),
        decreases v@.len() - i,
    {
        let c = v[i];
        if !('0' <= c && c <= '9') {
            assert(v@.skip(lo as int)[i - lo] == c);
            return (false, 0);
        }
        let d: u64 = ((c as u32) - 48) as u64;
        assert(v@.subrange(lo as int, i + 1).drop_last() == v@.subrange(lo as int, i as int));
        assert(v@.subrange(lo as int, i + 1).last() == c);
        if acc < cap {
            let next = acc * 10 + d;
            acc = if next < cap { next } else { cap };
        }
        i += 1;
    }
    assert(v@.subrange(lo as int, v@.len() as int) == v@.skip(lo as int));
    (true, acc)
}

/// std's `str::parse::<u32>`, `None` where it fails.
pub fn parse_u32(s: &str) -> (r: Option<u32>)
    ensures
        r == parse_u32_spec(s@),
{
    let v = chars_of(s);
    let lo: usize = if v.len() > 0 && v[0] == '+' { 1 } else { 0 };
    assert(v@.skip(lo as int) == (if v@.len() > 0 && v@[0] == '+' { v@.drop_first() } else { v@ }));
    let (ok, val) = scan_digits(&v, lo);
    if ok && val <= 0xFFFF_FFFF {
        Some(val as u32)
    } else {
        None
    }
}

/// std's `str::parse::<i32>`, `None` where it fails.
pub fn parse_i32(s: &str) -> (r: Option<i32>)
    ensures
        r == parse_i32_spec(s@),
{
    let v = chars_of(s);
    let neg = v.len() > 0 && v[0] == '-';
    let lo: usize = if v.len() > 0 && (v[0] == '+' || v[0] == '-') { 1 } else { 0 };
    assert(v@.skip(lo as int) == (if v@.len() > 0 && (v@[0] == '+' || v@[0] == '-') {
        v@.drop_first()
    } else {
        v@
    }));
    let (ok, val) = scan_digits(&v, lo);
    if !ok {
        return None;
    }
    if neg {
        if val <= 0x8000_0000 {
            Some((0i64 - val as i64) as i32)
        } else {
            None
        }
    } else if val <= 0x7FFF_FFFF {
        Some(val as i32)
    } else {
        None
    }
}


/// std's `str::to_uppercase`: the Unicode upper case of a string.
pub uninterp spec fn unicode_upper(s: Seq<char>) -> Seq<char>;

/// std's `str::to_lowercase`: the Unicode lower case of a string.
pub uninterp spec fn unicode_lower(s: Seq<char>) -> Seq<char>;

/// The text is all ASCII.
pub open spec fn is_ascii_text(s: Seq<char>) -> bool {
    forall|i: int| 0 <= i < s.len() ==> (#[trigger] s[i]) as u32 <= 0x7f
}

/// ASCII upper case of one character.
pub open spec fn upper_ascii_char(c: char) -> char {
    if 'a' <= c && c <= 'z' {
        ((c as u32) - 32) as char
    } else {
        c
    }
}

/// ASCII upper case of a string.
pub open spec fn ascii_upper(s: Seq<char>) -> Seq<char> {
    s.map_values(|c: char| upper_ascii_char(c))
}

/// Upper case of `s` (`str::to_uppercase`). Its value is named; for ASCII
/// text std documents it: letters `a`..`z` become `A`..`Z`, every other
/// character stays as it is.
#[verifier::external_body]
pub(crate) fn to_uppercase(s: &str) -> (r: String)
    ensures
        r@ == unicode_upper(s@),
        is_ascii_text(s@) ==> r@ == ascii_upper(s@),
{
    s.to_uppercase()
}

/// Lower case of `s` (`str::to_lowercase`). Its value is named; for ASCII
/// text std documents it: letters `A`..`Z` become `a`..`z`, every other
/// character stays as it is.
#[verifier::external_body]
pub(crate) fn to_lowercase(s: &str) -> (r: String)
    ensures
        r@ == unicode_lower(s@),
        is_ascii_text(s@) ==> r@ == crate::package::ascii_lower(s@),
{
    s.to_lowercase()
}

/// The decimal representation of `n` consists of digits and reads back
/// as `n`.
pub proof fn lemma_dec_value(n: nat)
    ensures
        all_digits(dec(n)),
        digits_value(dec(n)) == n,
    decreases n,
{
    let d = digit_char(n % 10);
    assert((((n % 10) + 48) as u8) as char as u32 == (n % 10) + 48) by {
        let b: u8 = ((n % 10) + 48) as u8;
        assert(b == (n % 10) + 48);
        assert((b as char) as u32 == b as u32);
    }
    assert(dec(n).last() == d);
    assert((d as u32 - 48) as nat == n % 10);
    if n < 10 {
        assert(dec(n).drop_last() =~= Seq::<char>::empty());
        assert(digits_value(dec(n)) == digits_value(dec(n).drop_last()) * 10 + (d as u32 - 48) as nat);
    } else {
        lemma_dec_value(n / 10);
        assert(dec(n).drop_last() == dec(n / 10));
        assert(digits_value(dec(n)) == digits_value(dec(n / 10)) * 10 + (d as u32 - 48) as nat);
        assert forall|i: int| 0 <= i < dec(n).len() implies is_digit(#[trigger] dec(n)[i]) by {
            if i < dec(n / 10).len() {
                assert(dec(n)[i] == dec(n / 10)[i]);
            }
        }
    }
}

/// Different numbers have different decimal representations.
pub proof fn lemma_dec_injective(a: nat, b: nat)
    requires
        dec(a) == dec(b),
    ensures
        a == b,
{
    lemma_dec_value(a);
    lemma_dec_value(b);
}

} // verus!
