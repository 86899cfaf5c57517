//! Textual codec: a flat key-value object format for broker payloads.
//!
//! A payload is a single `{`...`}` frame holding zero or more
//! comma-separated members, each a quoted key, a colon, and a value that is
//! either a quoted string or a raw token running to the next comma.  No
//! nesting, no escapes and no surrounding whitespace are admitted; the
//! address alphabet (decimal digits and `/`) needs none of them.
//!
//! Decoding is tolerant on the field level by design, so partial or
//! older-schema payloads do not break the bridge: unknown keys are
//! ignored, keys may appear in any order, a repeated key keeps its last
//! value, and a missing key falls back to a documented zero value (empty
//! address, `false`, `0`) rather than failing the decode.  A decoded
//! value does not record whether a member was present or defaulted: the
//! two read alike, a deliberate choice so that partial payloads and
//! payloads written with explicit defaults stay interchangeable.

use vstd::prelude::*;

use crate::errors::DecodeError;

verus! {

pub const QUOTE: u8 = 34;

pub const COMMA: u8 = 44;

pub const COLON: u8 = 58;

pub const LBRACE: u8 = 123;

pub const RBRACE: u8 = 125;

pub const MINUS: u8 = 45;

pub const DOT: u8 = 46;

/// The least index in `[i, hi)` where byte `b` occurs in `s`, or `hi`
/// when it does not occur there.
pub open spec fn find_in(s: Seq<u8>, i: int, hi: int, b: u8) -> int
    decreases hi - i,
{
    if i >= hi {
        hi
    } else if s[i] == b {
        i
    } else {
        find_in(s, i + 1, hi, b)
    }
}

pub proof fn lemma_find_in_bounds(s: Seq<u8>, i: int, hi: int, b: u8)
    requires
        i <= hi,
    ensures
        i <= find_in(s, i, hi, b) <= hi,
    decreases hi - i,
{
    if i < hi && s[i] != b {
        lemma_find_in_bounds(s, i + 1, hi, b);
    }
}

pub proof fn lemma_find_in(s: Seq<u8>, i: int, hi: int, b: u8)
    requires
        0 <= i <= hi <= s.len(),
    ensures
        i <= find_in(s, i, hi, b) <= hi,
        find_in(s, i, hi, b) < hi ==> s[find_in(s, i, hi, b)] == b,
        forall|k: int| i <= k < find_in(s, i, hi, b) ==> s[k] != b,
    decreases hi - i,
{
    if i < hi && s[i] != b {
        lemma_find_in(s, i + 1, hi, b);
    }
}

/// The key/value members of an object interior `s[i..hi)`, or `None` when
/// that range is not a well-formed member list.  A key is the bytes
/// between its quotes; a value is kept exactly as written, quotes
/// included for string values.
pub open spec fn parse_members(s: Seq<u8>, i: int, hi: int) -> Option<Seq<(Seq<u8>, Seq<u8>)>>
    decreases hi - i,
    via parse_members_dec
{
    if i >= hi {
        Some(Seq::empty())
    } else if s[i] != QUOTE {
        None
    } else {
        let kend = find_in(s, i + 1, hi, QUOTE);
        if kend + 2 >= hi || s[kend + 1] != COLON {
            None
        } else {
            let key = s.subrange(i + 1, kend);
            let vstart = kend + 2;
            let vend = if s[vstart] == QUOTE {
                find_in(s, vstart + 1, hi, QUOTE) + 1
            } else {
                find_in(s, vstart, hi, COMMA)
            };
            if vend > hi {
                None
            } else {
                let val = s.subrange(vstart, vend);
                if vend == hi {
                    Some(seq![(key, val)])
                } else if s[vend] == COMMA && vend + 1 < hi {
                    match parse_members(s, vend + 1, hi) {
                        Some(rest) => Some(seq![(key, val)] + rest),
                        None => None,
                    }
                } else {
                    None
                }
            }
        }
    }
}

#[via_fn]
proof fn parse_members_dec(s: Seq<u8>, i: int, hi: int) {
    if i < hi {
        lemma_find_in_bounds(s, i + 1, hi, QUOTE);
        let kend = find_in(s, i + 1, hi, QUOTE);
        if kend + 2 < hi {
            lemma_find_in_bounds(s, kend + 3, hi, QUOTE);
            lemma_find_in_bounds(s, kend + 2, hi, COMMA);
        }
    }
}

/// The member list of a full textual payload: a `{`...`}` frame around a
/// member list, with no bytes outside the frame.
pub open spec fn spec_parse_object(data: Seq<u8>) -> Option<Seq<(Seq<u8>, Seq<u8>)>> {
    if data.len() >= 2 && data[0] == LBRACE && data[data.len() - 1] == RBRACE {
        parse_members(data, 1, data.len() - 1)
    } else {
        None
    }
}

/// The value of the last member carrying `key`, if any: a repeated key
/// keeps its last value, as a sequence of assignments would.
pub open spec fn lookup(members: Seq<(Seq<u8>, Seq<u8>)>, key: Seq<u8>) -> Option<Seq<u8>>
    decreases members.len(),
{
    if members.len() == 0 {
        None
    } else if members.last().0 == key {
        Some(members.last().1)
    } else {
        lookup(members.drop_last(), key)
    }
}

/// A value written as a quoted string yields its content; any other shape
/// is taken as it stands.
pub open spec fn unquote(v: Seq<u8>) -> Seq<u8> {
    if v.len() >= 2 && v[0] == QUOTE && v[v.len() - 1] == QUOTE {
        v.subrange(1, v.len() - 1)
    } else {
        v
    }
}

/// The bytes of the key `address`.
pub open spec fn key_address() -> Seq<u8> {
    seq![97u8, 100u8, 100u8, 114u8, 101u8, 115u8, 115u8]
}

/// The bytes of the key `is_on`.
pub open spec fn key_is_on() -> Seq<u8> {
    seq![105u8, 115u8, 95u8, 111u8, 110u8]
}

/// The bytes of the key `timestamp`.
pub open spec fn key_timestamp() -> Seq<u8> {
    seq![116u8, 105u8, 109u8, 101u8, 115u8, 116u8, 97u8, 109u8, 112u8]
}

/// The bytes of the key `celsius`.
pub open spec fn key_celsius() -> Seq<u8> {
    seq![99u8, 101u8, 108u8, 115u8, 105u8, 117u8, 115u8]
}

/// The bytes of the boolean literal `true`.
pub open spec fn lit_true() -> Seq<u8> {
    seq![116u8, 114u8, 117u8, 101u8]
}

/// The bytes of the boolean literal `false`.
pub open spec fn lit_false() -> Seq<u8> {
    seq![102u8, 97u8, 108u8, 115u8, 101u8]
}

/// A boolean member is on exactly when its value is the literal `true`;
/// every other value reads as off.
pub open spec fn spec_parse_bool(v: Seq<u8>) -> bool {
    v == lit_true()
}

pub open spec fn is_digit(b: u8) -> bool {
    48 <= b <= 57
}

pub open spec fn all_digits(v: Seq<u8>) -> bool {
    forall|k: int| 0 <= k < v.len() ==> is_digit(v[k])
}

/// The numeric value of a digit string, most significant digit first.
pub open spec fn dec_val(v: Seq<u8>) -> int
    decreases v.len(),
{
    if v.len() == 0 {
        0
    } else {
        dec_val(v.drop_last()) * 10 + (v.last() - 48)
    }
}

pub proof fn lemma_dec_val_nonneg(v: Seq<u8>)
    requires
        all_digits(v),
    ensures
        dec_val(v) >= 0,
    decreases v.len(),
{
    if v.len() > 0 {
        assert(all_digits(v.drop_last()));
        lemma_dec_val_nonneg(v.drop_last());
    }
}

/// Tolerant unsigned parse: a nonempty digit string whose value fits in a
/// `u64` reads as that value; anything else defaults to zero.
pub open spec fn spec_parse_u64(v: Seq<u8>) -> u64 {
    if v.len() > 0 && all_digits(v) && dec_val(v) <= u64::MAX {
        dec_val(v) as u64
    } else {
        0
    }
}

/// The decimal digit string of a non-negative number, without leading
/// zeros (except for the number zero itself).
pub open spec fn dec_digits(n: int) -> Seq<u8>
    decreases n,
    when n >= 0
    via dec_digits_dec
{
    if n < 10 {
        seq![(48 + n) as u8]
    } else {
        dec_digits(n / 10).push((48 + n % 10) as u8)
    }
}

#[via_fn]
proof fn dec_digits_dec(n: int) {
    if n >= 10 {
        vstd::arithmetic::div_mod::lemma_div_decreases(n, 10);
        vstd::arithmetic::div_mod::lemma_div_pos_is_pos(n, 10);
    }
}

/// Law: formatting a non-negative number yields a pure digit string that
/// reads back as the same number.
pub proof fn lemma_dec_digits_val(n: int)
    requires
        n >= 0,
    ensures
        all_digits(dec_digits(n)),
        dec_val(dec_digits(n)) == n,
        dec_digits(n).len() >= 1,
    decreases n,
{
    if n < 10 {
        let s = dec_digits(n);
        assert(s =~= seq![(48 + n) as u8]);
        assert(s.drop_last() =~= Seq::<u8>::empty());
        assert(dec_val(s.drop_last()) == 0);
        assert(dec_val(s) == dec_val(s.drop_last()) * 10 + (s.last() - 48));
    } else {
        vstd::arithmetic::div_mod::lemma_div_decreases(n, 10);
        vstd::arithmetic::div_mod::lemma_div_pos_is_pos(n, 10);
        lemma_dec_digits_val(n / 10);
        vstd::arithmetic::div_mod::lemma_mod_division_less_than_divisor(n, 10);
        vstd::arithmetic::div_mod::lemma_fundamental_div_mod(n, 10);
        let d = dec_digits(n / 10);
        assert(dec_digits(n) == d.push((48 + n % 10) as u8));
        assert(dec_digits(n).drop_last() =~= d);
        assert(dec_val(dec_digits(n)) == dec_val(d) * 10 + n % 10);
        assert forall|k: int| 0 <= k < dec_digits(n).len() implies is_digit(
            dec_digits(n)[k],
        ) by {
            if k < d.len() {
                assert(is_digit(d[k]));
            }
        }
    }
}

/// The canonical textual form of a non-negative temperature in hundredths
/// of a degree: integer part, a dot, and exactly two fraction digits.
pub open spec fn centi_digits_abs(c: int) -> Seq<u8> {
    dec_digits(c / 100) + seq![DOT, (48 + (c % 100) / 10) as u8, (48 + (c % 100) % 10) as u8]
}

/// The canonical textual form of a temperature in hundredths of a degree,
/// with a leading minus sign when negative.
pub open spec fn centi_digits(c: int) -> Seq<u8> {
    if c < 0 {
        seq![MINUS] + centi_digits_abs(-c)
    } else {
        centi_digits_abs(c)
    }
}

/// Every byte of a formatted temperature is a minus sign, a dot or a
/// digit — in particular ASCII.
pub proof fn lemma_centi_digits_ascii(c: int)
    ensures
        forall|i: int|
            0 <= i < centi_digits(c).len() ==> (#[trigger] centi_digits(c)[i] == MINUS
                || centi_digits(c)[i] == DOT || is_digit(centi_digits(c)[i])),
        forall|i: int| 0 <= i < centi_digits(c).len() ==> #[trigger] centi_digits(c)[i] < 128,
{
    let a = if c < 0 {
        -c
    } else {
        c
    };
    vstd::arithmetic::div_mod::lemma_div_pos_is_pos(a, 100);
    lemma_dec_digits_val(a / 100);
    vstd::arithmetic::div_mod::lemma_mod_bound(a, 100);
    vstd::arithmetic::div_mod::lemma_mod_bound(a % 100, 10);
    assert(0 <= (a % 100) / 10 <= 9) by {
        vstd::arithmetic::div_mod::lemma_div_pos_is_pos(a % 100, 10);
        vstd::arithmetic::div_mod::lemma_div_is_ordered(a % 100, 99, 10);
        vstd::arithmetic::div_mod::lemma_fundamental_div_mod_converse(99, 10, 9, 9);
    }
    let abs_part = centi_digits_abs(a);
    assert forall|i: int| 0 <= i < abs_part.len() implies (abs_part[i] == MINUS || abs_part[i]
        == DOT || is_digit(#[trigger] abs_part[i])) by {
        if i < dec_digits(a / 100).len() {
            assert(is_digit(dec_digits(a / 100)[i]));
        }
    }
    assert forall|i: int| 0 <= i < centi_digits(c).len() implies (#[trigger] centi_digits(c)[i]
        == MINUS || centi_digits(c)[i] == DOT || is_digit(centi_digits(c)[i])) by {
        if c < 0 {
            if i > 0 {
                assert(centi_digits(c)[i] == abs_part[i - 1]);
            }
        } else {
            assert(centi_digits(c)[i] == abs_part[i]);
        }
    }
    assert forall|i: int| 0 <= i < centi_digits(c).len() implies #[trigger] centi_digits(c)[i]
        < 128 by {
        assert(centi_digits(c)[i] == MINUS || centi_digits(c)[i] == DOT || is_digit(
            centi_digits(c)[i],
        ));
    }
}

/// Law: a formatted timestamp reads back as itself under the tolerant
/// parse.
pub proof fn lemma_u64_round_trip(n: u64)
    ensures
        spec_parse_u64(dec_digits(n as int)) == n,
{
    lemma_dec_digits_val(n as int);
}

/// Law: a formatted temperature reads back as itself under the tolerant
/// parse.
#[verifier::rlimit(80)]
pub proof fn lemma_centi_round_trip(c: i32)
    ensures
        spec_parse_centi(centi_digits(c as int)) == c,
{
    let a: int = if c < 0 {
        -(c as int)
    } else {
        c as int
    };
    vstd::arithmetic::div_mod::lemma_div_pos_is_pos(a, 100);
    lemma_dec_digits_val(a / 100);
    vstd::arithmetic::div_mod::lemma_mod_bound(a, 100);
    vstd::arithmetic::div_mod::lemma_fundamental_div_mod(a, 100);
    vstd::arithmetic::div_mod::lemma_mod_bound(a % 100, 10);
    vstd::arithmetic::div_mod::lemma_fundamental_div_mod(a % 100, 10);
    assert(0 <= (a % 100) / 10 <= 9) by {
        vstd::arithmetic::div_mod::lemma_div_pos_is_pos(a % 100, 10);
        vstd::arithmetic::div_mod::lemma_div_is_ordered(a % 100, 99, 10);
        vstd::arithmetic::div_mod::lemma_fundamental_div_mod_converse(99, 10, 9, 9);
    }
    let d = dec_digits(a / 100);
    let f0 = (48 + (a % 100) / 10) as u8;
    let f1 = (48 + (a % 100) % 10) as u8;
    let w = centi_digits(c as int);
    let abs_part = centi_digits_abs(a);
    assert(abs_part == d + seq![DOT, f0, f1]);
    let lo: int = if c < 0 {
        1
    } else {
        0
    };
    assert(w.len() > 0);
    if c < 0 {
        assert(w == seq![MINUS] + abs_part);
        assert(w[0] == MINUS);
    } else {
        assert(w[0] == d[0]);
        assert(is_digit(d[0]));
        assert(w[0] != MINUS);
    }
    // the dot stands right after the integer digits
    let dotpos = lo + d.len();
    assert forall|k: int| 0 <= k < w.len() implies w[k] == (seq![MINUS].subrange(
        0,
        lo,
    ) + abs_part)[k] by {}
    assert(w =~= seq![MINUS].subrange(0, lo) + abs_part);
    assert(w[dotpos] == DOT);
    assert forall|k: int| lo <= k < dotpos implies w[k] != DOT by {
        assert(w[k] == d[k - lo]);
        assert(is_digit(d[k - lo]));
    }
    lemma_find_in_is(w, lo, w.len() as int, DOT, dotpos);
    let ip = w.subrange(lo, dotpos);
    assert(ip =~= d);
    let fp = w.subrange(dotpos + 1, w.len() as int);
    assert(fp =~= seq![f0, f1]);
    assert(all_digits(fp)) by {
        assert(is_digit(fp[0]) && is_digit(fp[1]));
    }
    assert(dec_val(fp) == (a % 100)) by {
        let s1 = seq![f0];
        assert(fp.drop_last() =~= s1);
        assert(s1.drop_last() =~= Seq::<u8>::empty());
        assert(dec_val(s1) == dec_val(s1.drop_last()) * 10 + (s1.last() - 48));
        assert(dec_val(fp) == dec_val(s1) * 10 + (fp.last() - 48));
    }
    assert(spec_parse_centi_mag(w, lo) == Some(dec_val(d) * 100 + (a % 100)));
    assert(dec_val(d) * 100 + (a % 100) == a);
}

/// The least index carrying `b` is `j` when `s[j] == b` and nothing
/// before it in the window does.
pub proof fn lemma_find_in_is(s: Seq<u8>, i: int, hi: int, b: u8, j: int)
    requires
        0 <= i <= j < hi <= s.len(),
        s[j] == b,
        forall|k: int| i <= k < j ==> s[k] != b,
    ensures
        find_in(s, i, hi, b) == j,
    decreases j - i,
{
    if i < j {
        lemma_find_in_is(s, i + 1, hi, b, j);
    }
}

/// The magnitude, in hundredths, of the unsigned decimal written at
/// `v[lo..]`: a digit string with an optional dot and one or two fraction
/// digits; `None` for any other shape.
pub open spec fn spec_parse_centi_mag(v: Seq<u8>, lo: int) -> Option<int> {
    let dot = find_in(v, lo, v.len() as int, DOT);
    let ip = v.subrange(lo, dot);
    if ip.len() == 0 || !all_digits(ip) {
        None
    } else if dot == v.len() {
        Some(dec_val(ip) * 100)
    } else {
        let fp = v.subrange(dot + 1, v.len() as int);
        if fp.len() == 1 && all_digits(fp) {
            Some(dec_val(ip) * 100 + (fp[0] - 48) * 10)
        } else if fp.len() == 2 && all_digits(fp) {
            Some(dec_val(ip) * 100 + dec_val(fp))
        } else {
            None
        }
    }
}

/// Tolerant signed parse in hundredths of a degree: an optional minus
/// sign, a digit string, and optionally a dot with one or two fraction
/// digits; any other shape, or a value outside the `i32` range, defaults
/// to zero.
pub open spec fn spec_parse_centi(v: Seq<u8>) -> i32 {
    let neg = v.len() > 0 && v[0] == MINUS;
    let lo: int = if neg {
        1
    } else {
        0
    };
    match spec_parse_centi_mag(v, lo) {
        None => 0,
        Some(mag) => {
            let val = if neg {
                -mag
            } else {
                mag
            };
            if i32::MIN <= val <= i32::MAX {
                val as i32
            } else {
                0
            }
        },
    }
}

/// Find the least index in `[lo, hi)` where `b` occurs, or `hi`.
pub fn find_byte(data: &[u8], lo: usize, hi: usize, b: u8) -> (r: usize)
    requires
        lo <= hi <= data@.len(),
    ensures
        r == find_in(data@, lo as int, hi as int, b),
{
    let mut i: usize = lo;
    while i < hi
        invariant
            lo <= i <= hi <= data@.len(),
            find_in(data@, lo as int, hi as int, b) == find_in(data@, i as int, hi as int, b),
        decreases hi - i,
    {
        if data[i] == b {
            return i;
        }
        proof {
            assert(find_in(data@, i as int, hi as int, b) == find_in(
                data@,
                i as int + 1,
                hi as int,
                b,
            ));
        }
        i = i + 1;
    }
    i
}

/// Copy the byte range `data[lo..hi)` into a fresh vector.
pub fn copy_range(data: &[u8], lo: usize, hi: usize) -> (r: Vec<u8>)
    requires
        lo <= hi <= data@.len(),
    ensures
        r@ == data@.subrange(lo as int, hi as int),
{
    let mut v: Vec<u8> = Vec::new();
    let mut i: usize = lo;
    while i < hi
        invariant
            lo <= i <= hi <= data@.len(),
            v@ == data@.subrange(lo as int, i as int),
        decreases hi - i,
    {
        v.push(data[i]);
        i = i + 1;
        proof {
            assert(v@ =~= data@.subrange(lo as int, i as int));
        }
    }
    v
}

/// Append the bytes of `src` to `dst`.
pub fn append_bytes(dst: &mut Vec<u8>, src: &[u8])
    ensures
        final(dst)@ == old(dst)@ + src@,
{
    let mut i: usize = 0;
    while i < src.len()
        invariant
            i <= src@.len(),
            dst@ == old(dst)@ + src@.subrange(0, i as int),
        decreases src@.len() - i,
    {
        dst.push(src[i]);
        i = i + 1;
        proof {
            assert(dst@ =~= old(dst)@ + src@.subrange(0, i as int));
        }
    }
    proof {
        assert(old(dst)@ + src@.subrange(0, src@.len() as int) =~= old(dst)@ + src@);
    }
}

/// Compare two byte strings for equality of content.
pub fn bytes_eq(a: &[u8], b: &[u8]) -> (r: bool)
    ensures
        r == (a@ == b@),
{
    if a.len() != b.len() {
        return false;
    }
    let mut i: usize = 0;
    while i < a.len()
        invariant
            i <= a@.len(),
            a@.len() == b@.len(),
            forall|k: int| 0 <= k < i ==> a@[k] == b@[k],
        decreases a@.len() - i,
    {
        if a[i] != b[i] {
            return false;
        }
        i = i + 1;
    }
    proof {
        assert(a@ =~= b@);
    }
    true
}

proof fn lemma_dec_val_take_step(v: Seq<u8>, k: int)
    requires
        0 <= k < v.len(),
    ensures
        dec_val(v.take(k + 1)) == dec_val(v.take(k)) * 10 + (v[k] - 48),
{
    assert(v.take(k + 1).drop_last() =~= v.take(k));
    assert(v.take(k + 1).last() == v[k]);
}

/// Once a digit prefix exceeds the range, every all-digit extension does.
proof fn lemma_dec_val_grows(v: Seq<u8>, k: int)
    requires
        0 <= k <= v.len(),
        all_digits(v),
        dec_val(v.take(k)) > u64::MAX as int,
    ensures
        dec_val(v) > u64::MAX as int,
    decreases v.len() - k,
{
    if k < v.len() {
        lemma_dec_val_take_step(v, k);
        lemma_dec_val_grows(v, k + 1);
    } else {
        assert(v.take(k) =~= v);
    }
}

/// The value of the digit run `v[lo..hi)`, or `None` when a byte there is
/// not a digit or the value does not fit in a `u64`.
fn digit_run_value(v: &[u8], lo: usize, hi: usize) -> (r: Option<u64>)
    requires
        lo <= hi <= v@.len(),
    ensures
        match r {
            Some(x) => all_digits(v@.subrange(lo as int, hi as int)) && x as int == dec_val(
                v@.subrange(lo as int, hi as int),
            ),
            None => !(all_digits(v@.subrange(lo as int, hi as int)) && dec_val(
                v@.subrange(lo as int, hi as int),
            ) <= u64::MAX),
        },
{
    let ghost sub = v@.subrange(lo as int, hi as int);
    let mut acc: u64 = 0;
    let mut i: usize = lo;
    while i < hi
        invariant
            lo <= i <= hi <= v@.len(),
            sub == v@.subrange(lo as int, hi as int),
            all_digits(sub.take(i - lo)),
            acc as int == dec_val(sub.take(i - lo)),
        decreases hi - i,
    {
        let b = v[i];
        if b < 48 || b > 57 {
            proof {
                assert(sub[i - lo] == b);
                assert(!is_digit(sub[i - lo]));
            }
            return None;
        }
        let d = (b - 48) as u64;
        proof {
            lemma_dec_val_take_step(sub, i - lo);
            assert(sub[i - lo] == b);
        }
        let step = match acc.checked_mul(10) {
            Some(t) => t.checked_add(d),
            None => None,
        };
        match step {
            Some(nacc) => {
                acc = nacc;
            },
            None => {
                proof {
                    assert(dec_val(sub.take(i - lo + 1)) > u64::MAX as int);
                    assert((all_digits(sub) && dec_val(sub) <= u64::MAX) ==> false) by {
                        if all_digits(sub) {
                            lemma_dec_val_grows(sub, i - lo + 1);
                        }
                    }
                }
                return None;
            },
        }
        i = i + 1;
    }
    proof {
        assert(sub.take(hi - lo) =~= sub);
    }
    Some(acc)
}

/// Read a member value as a `u64`, with the tolerant zero default.
pub fn parse_u64(v: &[u8]) -> (r: u64)
    ensures
        r == spec_parse_u64(v@),
{
    if v.len() == 0 {
        return 0;
    }
    proof {
        assert(v@.subrange(0, v@.len() as int) =~= v@);
    }
    match digit_run_value(v, 0, v.len()) {
        Some(x) => {
            proof {
                lemma_dec_val_nonneg(v@);
            }
            x
        },
        None => 0,
    }
}

/// Write a number as its decimal digit string.
pub fn format_u64(n: u64) -> (r: Vec<u8>)
    ensures
        r@ == dec_digits(n as int),
    decreases n,
{
    if n < 10 {
        let mut v: Vec<u8> = Vec::new();
        v.push(48 + (n as u8));
        proof {
            assert(v@ =~= dec_digits(n as int));
        }
        v
    } else {
        proof {
            vstd::arithmetic::div_mod::lemma_div_decreases(n as int, 10);
            vstd::arithmetic::div_mod::lemma_div_pos_is_pos(n as int, 10);
        }
        let mut v = format_u64(n / 10);
        v.push(48 + ((n % 10) as u8));
        proof {
            assert(n as int / 10 == (n / 10) as int);
            assert(v@ =~= dec_digits(n as int / 10).push((48 + n as int % 10) as u8));
        }
        v
    }
}

/// Write a temperature in hundredths of a degree in its canonical decimal
/// form: optional minus sign, integer part, dot, two fraction digits.
pub fn format_centi(c: i32) -> (r: Vec<u8>)
    ensures
        r@ == centi_digits(c as int),
{
    let neg = c < 0;
    let mag: u64 = if c < 0 {
        (-(c as i64)) as u64
    } else {
        c as u64
    };
    let ip = format_u64(mag / 100);
    let f = mag % 100;
    let mut v: Vec<u8> = Vec::new();
    if neg {
        v.push(MINUS);
    }
    append_bytes(&mut v, ip.as_slice());
    v.push(DOT);
    v.push(48 + ((f / 10) as u8));
    v.push(48 + ((f % 10) as u8));
    proof {
        let m = mag as int;
        assert(m == if c < 0 { -(c as int) } else { c as int });
        assert(m / 100 == (mag / 100) as int);
        assert(m % 100 == f as int);
        assert(centi_digits_abs(m) == dec_digits(m / 100) + seq![
            DOT,
            (48 + (m % 100) / 10) as u8,
            (48 + (m % 100) % 10) as u8,
        ]);
        if neg {
            assert(v@ =~= seq![MINUS] + centi_digits_abs(m));
        } else {
            assert(v@ =~= centi_digits_abs(m));
        }
    }
    v
}

/// Read a member value as a temperature in hundredths of a degree, with
/// the tolerant zero default.
pub fn parse_centi(v: &[u8]) -> (r: i32)
    ensures
        r == spec_parse_centi(v@),
{
    let n = v.len();
    let neg = n > 0 && v[0] == MINUS;
    let lo: usize = if neg {
        1
    } else {
        0
    };
    let dot = find_byte(v, lo, n, DOT);
    proof {
        lemma_find_in(v@, lo as int, n as int, DOT);
    }
    if dot == lo {
        proof {
            assert(v@.subrange(lo as int, dot as int).len() == 0);
        }
        return 0;
    }
    let ghost ip = v@.subrange(lo as int, dot as int);
    let ipv = match digit_run_value(v, lo, dot) {
        Some(x) => x,
        None => {
            proof {
                if all_digits(ip) {
                    lemma_dec_val_nonneg(ip);
                    match spec_parse_centi_mag(v@, lo as int) {
                        None => {},
                        Some(mag) => {
                            let fp = v@.subrange(dot as int + 1, n as int);
                            if dot < n && fp.len() == 1 && all_digits(fp) {
                                assert(is_digit(fp[0]));
                            }
                            if dot < n && fp.len() == 2 && all_digits(fp) {
                                lemma_dec_val_nonneg(fp);
                            }
                            assert(mag >= dec_val(ip) * 100);
                            assert(mag > i32::MAX);
                        },
                    }
                }
            }
            return 0;
        },
    };
    proof {
        lemma_dec_val_nonneg(ip);
    }
    let frac: u64;
    if dot == n {
        frac = 0;
    } else {
        let flen = n - dot - 1;
        let ghost fp = v@.subrange(dot as int + 1, n as int);
        if flen == 1 && v[dot + 1] >= 48 && v[dot + 1] <= 57 {
            frac = ((v[dot + 1] - 48) as u64) * 10;
            proof {
                assert(fp[0] == v@[dot as int + 1]);
                assert(all_digits(fp));
            }
        } else if flen == 2 && v[dot + 1] >= 48 && v[dot + 1] <= 57 && v[dot + 2] >= 48 && v[dot
            + 2] <= 57 {
            frac = ((v[dot + 1] - 48) as u64) * 10 + ((v[dot + 2] - 48) as u64);
            proof {
                assert(fp[0] == v@[dot as int + 1]);
                assert(fp[1] == v@[dot as int + 2]);
                assert(all_digits(fp));
                let s1 = seq![v@[dot as int + 1]];
                assert(fp.drop_last() =~= s1);
                assert(s1.drop_last() =~= Seq::<u8>::empty());
                assert(dec_val(Seq::<u8>::empty()) == 0);
                assert(dec_val(s1) == dec_val(s1.drop_last()) * 10 + (s1.last() - 48));
                assert(dec_val(fp) == dec_val(s1) * 10 + (fp.last() - 48));
                assert(fp.last() == fp[1]);
                assert(dec_val(fp) == (fp[0] - 48) * 10 + (fp[1] - 48));
            }
        } else {
            proof {
                if flen == 1 {
                    assert(!is_digit(fp[0]));
                } else if flen == 2 {
                    assert(fp[0] == v@[dot as int + 1] && fp[1] == v@[dot as int + 2]);
                    assert(!(all_digits(fp)));
                }
            }
            return 0;
        }
    }
    let mag = match ipv.checked_mul(100) {
        Some(m) => match m.checked_add(frac) {
            Some(mm) => mm,
            None => {
                return 0;
            },
        },
        None => {
            return 0;
        },
    };
    if neg {
        if mag <= 2147483648u64 {
            let r = (-(mag as i64)) as i32;
            return r;
        } else {
            return 0;
        }
    } else {
        if mag <= 2147483647u64 {
            return mag as i32;
        } else {
            return 0;
        }
    }
}

/// One key/value member of a parsed textual object.  The key is the bytes
/// between its quotes; the value is kept exactly as written.
pub struct Member {
    pub key: Vec<u8>,
    pub value: Vec<u8>,
}

/// The members of `ms` as key/value byte sequences.
pub open spec fn members_view(ms: Seq<Member>) -> Seq<(Seq<u8>, Seq<u8>)> {
    ms.map_values(|m: Member| (m.key@, m.value@))
}

/// Parse a full textual payload into its member list.
pub fn parse_object(data: &[u8]) -> (r: Result<Vec<Member>, DecodeError>)
    ensures
        (r is Ok) == (spec_parse_object(data@) is Some),
        r matches Ok(ms) ==> Some(members_view(ms@)) == spec_parse_object(data@),
        r matches Err(e) ==> e == DecodeError::Malformed,
{
    let n = data.len();
    if n < 2 || data[0] != LBRACE || data[n - 1] != RBRACE {
        return Err(DecodeError::Malformed);
    }
    let hi = n - 1;
    let mut ms: Vec<Member> = Vec::new();
    let mut i: usize = 1;
    while i < hi
        invariant
            1 <= i <= hi,
            hi == data@.len() - 1,
            data@.len() >= 2,
            data@[0] == LBRACE,
            data@[data@.len() - 1] == RBRACE,
            match parse_members(data@, i as int, hi as int) {
                Some(rest) => parse_members(data@, 1, hi as int) == Some(
                    members_view(ms@) + rest,
                ),
                None => parse_members(data@, 1, hi as int) is None,
            },
        decreases hi - i,
    {
        let ghost i0 = i as int;
        if data[i] != QUOTE {
            return Err(DecodeError::Malformed);
        }
        let kend = find_byte(data, i + 1, hi, QUOTE);
        proof {
            lemma_find_in(data@, i as int + 1, hi as int, QUOTE);
        }
        if kend >= hi || kend + 1 >= hi || data[kend + 1] != COLON || kend + 2 >= hi {
            return Err(DecodeError::Malformed);
        }
        let vstart = kend + 2;
        let vend: usize;
        if data[vstart] == QUOTE {
            let vq = find_byte(data, vstart + 1, hi, QUOTE);
            proof {
                lemma_find_in(data@, vstart as int + 1, hi as int, QUOTE);
            }
            if vq >= hi {
                return Err(DecodeError::Malformed);
            }
            vend = vq + 1;
        } else {
            vend = find_byte(data, vstart, hi, COMMA);
            proof {
                lemma_find_in(data@, vstart as int, hi as int, COMMA);
            }
        }
        let key = copy_range(data, i + 1, kend);
        let value = copy_range(data, vstart, vend);
        let ghost kv = (data@.subrange(i0 + 1, kend as int), data@.subrange(
            vstart as int,
            vend as int,
        ));
        let ghost old_ms = ms@;
        ms.push(Member { key, value });
        proof {
            assert(members_view(ms@) =~= members_view(old_ms).push(kv));
        }
        if vend == hi {
            i = hi;
            proof {
                assert(parse_members(data@, i0, hi as int) == Some(seq![kv]));
                assert(parse_members(data@, hi as int, hi as int) == Some(
                    Seq::<(Seq<u8>, Seq<u8>)>::empty(),
                ));
                assert(members_view(old_ms) + seq![kv] =~= members_view(ms@) + Seq::<(
                    Seq<u8>,
                    Seq<u8>,
                )>::empty());
            }
        } else if data[vend] == COMMA && vend + 1 < hi {
            i = vend + 1;
            proof {
                match parse_members(data@, i as int, hi as int) {
                    Some(rest) => {
                        assert(parse_members(data@, i0, hi as int) == Some(seq![kv] + rest));
                        assert(members_view(old_ms) + (seq![kv] + rest) =~= members_view(ms@)
                            + rest);
                    },
                    None => {
                        assert(parse_members(data@, i0, hi as int) is None);
                    },
                }
            }
        } else {
            return Err(DecodeError::Malformed);
        }
    }
    proof {
        assert(parse_members(data@, i as int, hi as int) == Some(
            Seq::<(Seq<u8>, Seq<u8>)>::empty(),
        ));
        assert(members_view(ms@) + Seq::<(Seq<u8>, Seq<u8>)>::empty() =~= members_view(ms@));
    }
    Ok(ms)
}

/// The value of the last member carrying `key`, as a fresh copy.
pub fn lookup_value(ms: &Vec<Member>, key: &[u8]) -> (r: Option<Vec<u8>>)
    ensures
        match r {
            Some(v) => lookup(members_view(ms@), key@) == Some(v@),
            None => lookup(members_view(ms@), key@) is None,
        },
{
    let mut j: usize = ms.len();
    proof {
        assert(ms@.take(ms@.len() as int) =~= ms@);
    }
    while j > 0
        invariant
            j <= ms@.len(),
            lookup(members_view(ms@), key@) == lookup(members_view(ms@.take(j as int)), key@),
        decreases j,
    {
        j = j - 1;
        let m = &ms[j];
        proof {
            let mv = members_view(ms@.take(j as int + 1));
            assert(mv.last() == (ms@[j as int].key@, ms@[j as int].value@));
            assert(mv.drop_last() =~= members_view(ms@.take(j as int)));
        }
        if bytes_eq(m.key.as_slice(), key) {
            let value = copy_range(m.value.as_slice(), 0, m.value.len());
            proof {
                assert(value@ =~= ms@[j as int].value@);
            }
            return Some(value);
        }
    }
    proof {
        assert(members_view(ms@.take(0)) =~= Seq::<(Seq<u8>, Seq<u8>)>::empty());
    }
    None
}

/// When nothing in the window carries `b`, the search runs to `hi`.
pub proof fn lemma_find_in_none(s: Seq<u8>, i: int, hi: int, b: u8)
    requires
        0 <= i <= hi <= s.len(),
        forall|k: int| i <= k < hi ==> s[k] != b,
    ensures
        find_in(s, i, hi, b) == hi,
    decreases hi - i,
{
    if i < hi {
        lemma_find_in_none(s, i + 1, hi, b);
    }
}

/// Parsing one well-shaped member at `i`: a quoted clean key, a colon, a
/// value that is either a quoted string with clean content or a raw token
/// free of commas, and after it either the end of the interior or a comma
/// with at least one more byte.
pub proof fn lemma_parse_member_step(s: Seq<u8>, i: int, hi: int, key: Seq<u8>, val: Seq<u8>)
    requires
        0 <= i < hi <= s.len(),
        s[i] == QUOTE,
        s.subrange(i + 1, i + 1 + key.len()) == key,
        forall|k: int| 0 <= k < key.len() ==> key[k] != QUOTE,
        s[i + 1 + key.len()] == QUOTE,
        s[i + 2 + key.len()] == COLON,
        val.len() > 0,
        s.subrange(i + 3 + key.len(), i + 3 + key.len() + val.len()) == val,
        i + 3 + key.len() + val.len() <= hi,
        if val[0] == QUOTE {
            val.len() >= 2 && val[val.len() - 1] == QUOTE && (forall|k: int|
                1 <= k < val.len() - 1 ==> val[k] != QUOTE)
        } else {
            forall|k: int| 0 <= k < val.len() ==> val[k] != COMMA
        },
        ({
            let vend = i + 3 + key.len() + val.len();
            vend == hi || (s[vend] == COMMA && vend + 1 < hi)
        }),
    ensures
        ({
            let vend = i + 3 + key.len() + val.len();
            if vend == hi {
                parse_members(s, i, hi) == Some(seq![(key, val)])
            } else {
                parse_members(s, i, hi) == (match parse_members(s, vend + 1, hi) {
                    Some(rest) => Some(seq![(key, val)] + rest),
                    None => None,
                })
            }
        }),
{
    let kend = i + 1 + key.len();
    let vstart = kend + 2;
    let vend = vstart + val.len();
    assert forall|k: int| i + 1 <= k < kend implies s[k] != QUOTE by {
        assert(s[k] == s.subrange(i + 1, i + 1 + key.len())[k - (i + 1)]);
    }
    lemma_find_in_is(s, i + 1, hi, QUOTE, kend);
    assert forall|k: int| vstart <= k < vend implies s[k] == val[k - vstart] by {
        assert(s.subrange(vstart, vend)[k - vstart] == val[k - vstart]);
    }
    if val[0] == QUOTE {
        assert(s[vstart] == QUOTE);
        assert(s[vend - 1] == QUOTE);
        assert forall|k: int| vstart + 1 <= k < vend - 1 implies s[k] != QUOTE by {
            assert(s[k] == val[k - vstart]);
        }
        lemma_find_in_is(s, vstart + 1, hi, QUOTE, vend - 1);
        assert(s.subrange(vstart, vend) == val);
    } else {
        assert(s[vstart] != QUOTE);
        if vend == hi {
            assert forall|k: int| vstart <= k < hi implies s[k] != COMMA by {
                assert(s[k] == val[k - vstart]);
            }
            lemma_find_in_none(s, vstart, hi, COMMA);
        } else {
            assert(s[vend] == COMMA);
            assert forall|k: int| vstart <= k < vend implies s[k] != COMMA by {
                assert(s[k] == val[k - vstart]);
            }
            lemma_find_in_is(s, vstart, hi, COMMA, vend);
        }
        assert(s.subrange(vstart, vend) == val);
    }
}

/// The shared shape of a record's textual payload: the device address,
/// one record-specific member, and the timestamp.
pub open spec fn three_member_payload(
    ab: Seq<u8>,
    key2: Seq<u8>,
    val2: Seq<u8>,
    td: Seq<u8>,
) -> Seq<u8> {
    seq![LBRACE, QUOTE] + key_address() + seq![QUOTE, COLON, QUOTE] + ab + seq![
        QUOTE,
        COMMA,
        QUOTE,
    ] + key2 + seq![QUOTE, COLON] + val2 + seq![COMMA, QUOTE] + key_timestamp() + seq![
        QUOTE,
        COLON,
    ] + td + seq![RBRACE]
}

/// A well-formed three-member payload parses to exactly its members:
/// quoted address first, the record-specific member second, the
/// timestamp last.
#[verifier::rlimit(80)]
pub proof fn lemma_parse_three_member_payload(
    ab: Seq<u8>,
    key2: Seq<u8>,
    val2: Seq<u8>,
    td: Seq<u8>,
)
    requires
        forall|k: int| 0 <= k < ab.len() ==> ab[k] != QUOTE,
        forall|k: int| 0 <= k < key2.len() ==> key2[k] != QUOTE,
        val2.len() > 0,
        val2[0] != QUOTE,
        forall|k: int| 0 <= k < val2.len() ==> val2[k] != COMMA,
        td.len() > 0,
        td[0] != QUOTE,
        forall|k: int| 0 <= k < td.len() ==> td[k] != COMMA,
    ensures
        spec_parse_object(three_member_payload(ab, key2, val2, td)) == Some(
            seq![
                (key_address(), seq![QUOTE] + ab + seq![QUOTE]),
                (key2, val2),
                (key_timestamp(), td),
            ],
        ),
{
    let s = three_member_payload(ab, key2, val2, td);
    let a = ab.len() as int;
    let k2 = key2.len() as int;
    let v = val2.len() as int;
    let d = td.len() as int;
    let hi = 30 + a + k2 + v + d;
    assert(s.len() == hi + 1);
    assert(s[0] == LBRACE);
    assert(s[hi] == RBRACE);
    assert forall|j: int| 0 <= j < 7 implies key_address()[j] != QUOTE by {}
    assert forall|j: int| 0 <= j < 9 implies key_timestamp()[j] != QUOTE by {}
    // third member: the timestamp, running to the end of the interior
    let i3 = 18 + a + k2 + v;
    assert(s[i3] == QUOTE);
    assert(s.subrange(i3 + 1, i3 + 10) =~= key_timestamp());
    assert(s[i3 + 10] == QUOTE);
    assert(s[i3 + 11] == COLON);
    assert(s.subrange(i3 + 12, i3 + 12 + d) =~= td);
    lemma_parse_member_step(s, i3, hi, key_timestamp(), td);
    assert(parse_members(s, i3, hi) == Some(seq![(key_timestamp(), td)]));
    // second member
    let i2 = 14 + a;
    assert(s[i2] == QUOTE);
    assert(s.subrange(i2 + 1, i2 + 1 + k2) =~= key2);
    assert(s[i2 + 1 + k2] == QUOTE);
    assert(s[i2 + 2 + k2] == COLON);
    assert(s.subrange(i2 + 3 + k2, i2 + 3 + k2 + v) =~= val2);
    assert(s[i2 + 3 + k2 + v] == COMMA);
    lemma_parse_member_step(s, i2, hi, key2, val2);
    assert(parse_members(s, i2, hi) == Some(
        seq![(key2, val2)] + seq![(key_timestamp(), td)],
    ));
    // first member: the quoted address
    let val1 = seq![QUOTE] + ab + seq![QUOTE];
    assert(val1[0] == QUOTE && val1[val1.len() - 1] == QUOTE);
    assert forall|k: int| 1 <= k < val1.len() - 1 implies val1[k] != QUOTE by {
        assert(val1[k] == ab[k - 1]);
    }
    assert(s[1] == QUOTE);
    assert(s.subrange(2, 9) =~= key_address());
    assert(s[9] == QUOTE);
    assert(s[10] == COLON);
    assert(s.subrange(11, 13 + a) =~= val1);
    assert(s[13 + a] == COMMA);
    lemma_parse_member_step(s, 1, hi, key_address(), val1);
    assert(parse_members(s, 1, hi) == Some(
        seq![(key_address(), val1)] + (seq![(key2, val2)] + seq![(key_timestamp(), td)]),
    ));
    assert(seq![(key_address(), val1)] + (seq![(key2, val2)] + seq![(key_timestamp(), td)])
        =~= seq![(key_address(), val1), (key2, val2), (key_timestamp(), td)]);
}

/// A three-member payload over ASCII parts is ASCII throughout, hence
/// valid UTF-8.
pub proof fn lemma_three_member_payload_ascii(
    ab: Seq<u8>,
    key2: Seq<u8>,
    val2: Seq<u8>,
    td: Seq<u8>,
)
    requires
        forall|k: int| 0 <= k < ab.len() ==> #[trigger] ab[k] < 128,
        forall|k: int| 0 <= k < key2.len() ==> #[trigger] key2[k] < 128,
        forall|k: int| 0 <= k < val2.len() ==> #[trigger] val2[k] < 128,
        forall|k: int| 0 <= k < td.len() ==> #[trigger] td[k] < 128,
    ensures
        vstd::utf8::valid_utf8(three_member_payload(ab, key2, val2, td)),
        vstd::utf8::decode_utf8(three_member_payload(ab, key2, val2, td))
            == three_member_payload(ab, key2, val2, td).map_values(|x: u8| x as char),
{
    let s = three_member_payload(ab, key2, val2, td);
    assert forall|j: int| 0 <= j < 7 implies key_address()[j] < 128 by {}
    assert forall|j: int| 0 <= j < 9 implies key_timestamp()[j] < 128 by {}
    assert forall|k: int| 0 <= k < s.len() implies #[trigger] s[k] < 128 by {}
    lemma_ascii_bytes_utf8(s);
}

/// Strip one pair of surrounding quotes, if present.
pub fn unquote_vec(v: Vec<u8>) -> (r: Vec<u8>)
    ensures
        r@ == unquote(v@),
{
    let n = v.len();
    if n >= 2 && v[0] == QUOTE && v[n - 1] == QUOTE {
        copy_range(v.as_slice(), 1, n - 1)
    } else {
        v
    }
}

pub fn key_address_vec() -> (r: Vec<u8>)
    ensures
        r@ == key_address(),
{
    let mut v: Vec<u8> = Vec::new();
    v.push(97);
    v.push(100);
    v.push(100);
    v.push(114);
    v.push(101);
    v.push(115);
    v.push(115);
    proof {
        assert(v@ =~= key_address());
    }
    v
}

pub fn key_is_on_vec() -> (r: Vec<u8>)
    ensures
        r@ == key_is_on(),
{
    let mut v: Vec<u8> = Vec::new();
    v.push(105);
    v.push(115);
    v.push(95);
    v.push(111);
    v.push(110);
    proof {
        assert(v@ =~= key_is_on());
    }
    v
}

pub fn key_timestamp_vec() -> (r: Vec<u8>)
    ensures
        r@ == key_timestamp(),
{
    let mut v: Vec<u8> = Vec::new();
    v.push(116);
    v.push(105);
    v.push(109);
    v.push(101);
    v.push(115);
    v.push(116);
    v.push(97);
    v.push(109);
    v.push(112);
    proof {
        assert(v@ =~= key_timestamp());
    }
    v
}

pub fn key_celsius_vec() -> (r: Vec<u8>)
    ensures
        r@ == key_celsius(),
{
    let mut v: Vec<u8> = Vec::new();
    v.push(99);
    v.push(101);
    v.push(108);
    v.push(115);
    v.push(105);
    v.push(117);
    v.push(115);
    proof {
        assert(v@ =~= key_celsius());
    }
    v
}

pub fn lit_true_vec() -> (r: Vec<u8>)
    ensures
        r@ == lit_true(),
{
    let mut v: Vec<u8> = Vec::new();
    v.push(116);
    v.push(114);
    v.push(117);
    v.push(101);
    proof {
        assert(v@ =~= lit_true());
    }
    v
}

pub fn lit_false_vec() -> (r: Vec<u8>)
    ensures
        r@ == lit_false(),
{
    let mut v: Vec<u8> = Vec::new();
    v.push(102);
    v.push(97);
    v.push(108);
    v.push(115);
    v.push(101);
    proof {
        assert(v@ =~= lit_false());
    }
    v
}

/// A device address drawn from the address alphabet, as encoded bytes:
/// decimal digits (48 to 57) and `/` (47).
pub open spec fn valid_address_bytes(b: Seq<u8>) -> bool {
    forall|k: int| 0 <= k < b.len() ==> 47 <= #[trigger] b[k] <= 57
}

/// A sequence of bytes below 128 is valid UTF-8 and decodes to one
/// character per byte.
pub proof fn lemma_ascii_bytes_utf8(b: Seq<u8>)
    requires
        forall|i: int| 0 <= i < b.len() ==> #[trigger] b[i] < 128,
    ensures
        vstd::utf8::valid_utf8(b),
        vstd::utf8::decode_utf8(b) == b.map_values(|x: u8| x as char),
{
    let chars = b.map_values(|x: u8| x as char);
    assert forall|i: int| 0 <= i < chars.len() implies '\0' <= #[trigger] chars[i]
        <= '\u{7f}' by {
        assert(b[i] < 128);
    }
    assert(vstd::utf8::is_ascii_chars(chars));
    vstd::utf8::is_ascii_chars_encode_utf8(chars);
    assert forall|i: int| 0 <= i < chars.len() implies #[trigger] vstd::utf8::encode_utf8(
        chars,
    )[i] == b[i] by {
        assert(chars[i] as u8 == vstd::utf8::encode_utf8(chars)[i]);
        assert(chars[i] == b[i] as char);
    }
    assert(vstd::utf8::encode_utf8(chars) =~= b);
    vstd::utf8::encode_utf8_valid_utf8(chars);
    vstd::utf8::encode_utf8_decode_utf8(chars);
}

/// What a member read as a device address yields: the unquoted value's
/// characters when they are valid UTF-8, the empty address otherwise or
/// when the member is missing.
pub open spec fn spec_field_address(ms: Seq<(Seq<u8>, Seq<u8>)>) -> Seq<char> {
    match lookup(ms, key_address()) {
        None => Seq::empty(),
        Some(v) => {
            let b = unquote(v);
            if vstd::utf8::valid_utf8(b) {
                vstd::utf8::decode_utf8(b)
            } else {
                Seq::empty()
            }
        },
    }
}

/// What a member read as a boolean yields; a missing member reads as off.
pub open spec fn spec_field_bool(ms: Seq<(Seq<u8>, Seq<u8>)>, key: Seq<u8>) -> bool {
    match lookup(ms, key) {
        None => false,
        Some(v) => spec_parse_bool(v),
    }
}

/// What a member read as a timestamp yields; a missing member reads as zero.
pub open spec fn spec_field_u64(ms: Seq<(Seq<u8>, Seq<u8>)>, key: Seq<u8>) -> u64 {
    match lookup(ms, key) {
        None => 0,
        Some(v) => spec_parse_u64(v),
    }
}

/// What a member read as a temperature in hundredths yields; a missing
/// member reads as zero.
pub open spec fn spec_field_centi(ms: Seq<(Seq<u8>, Seq<u8>)>, key: Seq<u8>) -> i32 {
    match lookup(ms, key) {
        None => 0,
        Some(v) => spec_parse_centi(v),
    }
}

/// Compare two strings for equality of content.
pub fn str_eq(a: &str, b: &str) -> (r: bool)
    ensures
        r == (a@ == b@),
{
    let r = bytes_eq(a.as_bytes(), b.as_bytes());
    proof {
        vstd::utf8::encode_utf8_decode_utf8(a@);
        vstd::utf8::encode_utf8_decode_utf8(b@);
    }
    r
}

/// Relies on `core::str::from_utf8`, which succeeds exactly on the byte
/// sequences that are valid UTF-8.
#[verifier::external_body]
pub(crate) fn utf8_valid(data: &[u8]) -> (r: bool)
    ensures
        r == vstd::utf8::valid_utf8(data@),
{
    core::str::from_utf8(data).is_ok()
}

/// Relies on `String::from_utf8`: it succeeds exactly on valid UTF-8 and
/// yields the decoded characters.
#[verifier::external_body]
pub(crate) fn string_from_bytes(data: Vec<u8>) -> (r: Option<String>)
    ensures
        (r is Some) == vstd::utf8::valid_utf8(data@),
        r matches Some(s) ==> s@ == vstd::utf8::decode_utf8(data@),
{
    String::from_utf8(data).ok()
}

} // verus!
