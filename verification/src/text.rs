//! Byte-level text helpers for the wire format: decimal integers as the
//! protocol writes them, ASCII case folding, lexicographic byte order, and
//! the textual shape of a double payload.
use vstd::prelude::*;

verus! {

// ---------------------------------------------------------------------------
// Decimal digit runs
// ---------------------------------------------------------------------------
pub open spec fn is_digit_byte(b: u8) -> bool {
    48 <= b && b <= 57
}

pub open spec fn all_digit_bytes(s: Seq<u8>) -> bool {
    forall|i: int| 0 <= i < s.len() ==> is_digit_byte(#[trigger] s[i])
}

/// Numeric value of a digit run, most significant digit first.
pub open spec fn digits_val(s: Seq<u8>) -> int
    decreases s.len(),
{
    if s.len() == 0 {
        0
    } else {
        digits_val(s.drop_last()) * 10 + (s.last() - 48)
    }
}

pub proof fn lemma_digits_val_nonneg(s: Seq<u8>)
    requires
        all_digit_bytes(s),
    ensures
        digits_val(s) >= 0,
    decreases s.len(),
{
    if s.len() > 0 {
        assert(all_digit_bytes(s.drop_last())) by {
            assert(forall|i: int|
                0 <= i < s.len() - 1 ==> s.drop_last()[i] == #[trigger] s[i]);
        }
        lemma_digits_val_nonneg(s.drop_last());
    }
}

/// A digit run is worth at least any of its prefixes.
pub proof fn lemma_digits_val_prefix(s: Seq<u8>, i: int)
    requires
        all_digit_bytes(s),
        0 <= i <= s.len(),
    ensures
        digits_val(s.take(i)) <= digits_val(s),
    decreases s.len(),
{
    if i < s.len() {
        assert(all_digit_bytes(s.drop_last())) by {
            assert(forall|j: int|
                0 <= j < s.len() - 1 ==> s.drop_last()[j] == #[trigger] s[j]);
        }
        assert(s.take(i) =~= s.drop_last().take(i));
        lemma_digits_val_prefix(s.drop_last(), i);
        lemma_digits_val_nonneg(s.drop_last());
        assert(is_digit_byte(s.last()));
    } else {
        assert(s.take(i) =~= s);
    }
}

/// Canonical decimal rendering of a natural number (no leading zeros).
pub open spec fn dec_digits(n: nat) -> Seq<u8>
    decreases n,
{
    if n < 10 {
        seq![(n + 48) as u8]
    } else {
        dec_digits(n / 10).push((n % 10 + 48) as u8)
    }
}

pub proof fn lemma_dec_digits(n: nat)
    ensures
        dec_digits(n).len() >= 1,
        all_digit_bytes(dec_digits(n)),
        digits_val(dec_digits(n)) == n,
    decreases n,
{
    if n < 10 {
        assert(digits_val(dec_digits(n)) == digits_val(Seq::<u8>::empty()) * 10 + n) by {
            assert(dec_digits(n).drop_last() =~= Seq::<u8>::empty());
        }
    } else {
        lemma_dec_digits(n / 10);
        let d = (n % 10 + 48) as u8;
        let w = dec_digits(n / 10).push(d);
        assert(w.drop_last() =~= dec_digits(n / 10));
        assert(w.last() == d);
        assert(n == (n / 10) * 10 + n % 10) by {
            vstd::arithmetic::div_mod::lemma_fundamental_div_mod(n as int, 10);
        }
        assert(forall|i: int| 0 <= i < w.len() ==> is_digit_byte(#[trigger] w[i]));
    }
}

/// Appends the decimal rendering of `n` to `out`.
pub fn push_decimal_u64(out: &mut Vec<u8>, n: u64)
    ensures
        final(out)@ == old(out)@ + dec_digits(n as nat),
    decreases n,
{
    if n >= 10 {
        push_decimal_u64(out, n / 10);
    }
    let d: u8 = (n % 10) as u8 + 48;
    out.push(d);
    proof {
        assert(final(out)@ =~= old(out)@ + dec_digits(n as nat));
    }
}

/// Appends the decimal rendering of `n` to `out`.
pub fn push_decimal_usize(out: &mut Vec<u8>, n: usize)
    ensures
        final(out)@ == old(out)@ + dec_digits(n as nat),
    decreases n,
{
    if n >= 10 {
        push_decimal_usize(out, n / 10);
    }
    let d: u8 = (n % 10) as u8 + 48;
    out.push(d);
    proof {
        assert(final(out)@ =~= old(out)@ + dec_digits(n as nat));
    }
}

// ---------------------------------------------------------------------------
// Parsing digit runs with an upper bound, as Rust's integer parsing does
// ---------------------------------------------------------------------------
/// Parses a digit run worth at most `limit`; anything else gives `None`.
pub fn parse_digits_u64(s: &[u8], limit: u64) -> (r: Option<u64>)
    ensures
        match r {
            Some(v) => s@.len() > 0 && all_digit_bytes(s@) && digits_val(s@) == v && v <= limit,
            None => !(s@.len() > 0 && all_digit_bytes(s@) && digits_val(s@) <= limit),
        },
{
    if s.len() == 0 {
        return None;
    }
    let mut acc: u64 = 0;
    let mut i: usize = 0;
    proof {
        vstd::arithmetic::div_mod::lemma_fundamental_div_mod(limit as int, 10);
    }
    while i < s.len()
        invariant
            0 <= i <= s@.len(),
            all_digit_bytes(s@.take(i as int)),
            acc == digits_val(s@.take(i as int)),
            acc <= limit,
            limit == 10 * (limit / 10) + limit % 10,
        decreases s@.len() - i,
    {
        let b = s[i];
        if b < 48 || b > 57 {
            assert(!all_digit_bytes(s@));
            return None;
        }
        let d: u64 = (b - 48) as u64;
        if acc > limit / 10 || (acc == limit / 10 && d > limit % 10) {
            proof {
                assert(s@.take(i as int + 1).drop_last() =~= s@.take(i as int));
                assert(digits_val(s@.take(i as int + 1)) == acc * 10 + d);
                assert(acc * 10 + d > limit);
                if all_digit_bytes(s@) {
                    lemma_digits_val_prefix(s@, i as int + 1);
                }
            }
            return None;
        }
        proof {
            assert(acc * 10 + d <= limit);
            assert(s@.take(i as int + 1).drop_last() =~= s@.take(i as int));
            assert(forall|j: int|
                0 <= j < i as int + 1 ==> is_digit_byte(#[trigger] s@.take(i as int + 1)[j]));
        }
        acc = acc * 10 + d;
        i += 1;
    }
    proof {
        assert(s@.take(i as int) =~= s@);
    }
    Some(acc)
}

/// Parses a digit run worth at most `limit`; anything else gives `None`.
pub fn parse_digits_usize(s: &[u8], limit: usize) -> (r: Option<usize>)
    ensures
        match r {
            Some(v) => s@.len() > 0 && all_digit_bytes(s@) && digits_val(s@) == v && v <= limit,
            None => !(s@.len() > 0 && all_digit_bytes(s@) && digits_val(s@) <= limit),
        },
{
    if s.len() == 0 {
        return None;
    }
    let mut acc: usize = 0;
    let mut i: usize = 0;
    proof {
        vstd::arithmetic::div_mod::lemma_fundamental_div_mod(limit as int, 10);
    }
    while i < s.len()
        invariant
            0 <= i <= s@.len(),
            all_digit_bytes(s@.take(i as int)),
            acc == digits_val(s@.take(i as int)),
            acc <= limit,
            limit == 10 * (limit / 10) + limit % 10,
        decreases s@.len() - i,
    {
        let b = s[i];
        if b < 48 || b > 57 {
            assert(!all_digit_bytes(s@));
            return None;
        }
        let d: usize = (b - 48) as usize;
        if acc > limit / 10 || (acc == limit / 10 && d > limit % 10) {
            proof {
                assert(s@.take(i as int + 1).drop_last() =~= s@.take(i as int));
                assert(digits_val(s@.take(i as int + 1)) == acc * 10 + d);
                assert(acc * 10 + d > limit);
                if all_digit_bytes(s@) {
                    lemma_digits_val_prefix(s@, i as int + 1);
                }
            }
            return None;
        }
        proof {
            assert(acc * 10 + d <= limit);
            assert(s@.take(i as int + 1).drop_last() =~= s@.take(i as int));
            assert(forall|j: int|
                0 <= j < i as int + 1 ==> is_digit_byte(#[trigger] s@.take(i as int + 1)[j]));
        }
        acc = acc * 10 + d;
        i += 1;
    }
    proof {
        assert(s@.take(i as int) =~= s@);
    }
    Some(acc)
}

// ---------------------------------------------------------------------------
// Integer payload texts, as Rust's FromStr accepts them
// ---------------------------------------------------------------------------
pub open spec fn is_sign_byte(b: u8) -> bool {
    b == 43 || b == 45
}

/// The digit run of an integer payload, the optional sign stripped.
pub open spec fn strip_sign(s: Seq<u8>) -> Seq<u8> {
    if s.len() > 0 && is_sign_byte(s[0]) {
        s.drop_first()
    } else {
        s
    }
}

pub open spec fn text_is_negative(s: Seq<u8>) -> bool {
    s.len() > 0 && s[0] == 45
}

/// Texts that parse as a usize: an optional `+`, then digits, within range.
pub open spec fn is_usize_text(s: Seq<u8>) -> bool {
    let d = if s.len() > 0 && s[0] == 43 {
        s.drop_first()
    } else {
        s
    };
    &&& !text_is_negative(s)
    &&& d.len() > 0
    &&& all_digit_bytes(d)
    &&& digits_val(d) <= usize::MAX
}

pub open spec fn usize_text_val(s: Seq<u8>) -> int {
    if s.len() > 0 && s[0] == 43 {
        digits_val(s.drop_first())
    } else {
        digits_val(s)
    }
}

/// Parses a length payload the way `str::parse::<usize>` would.
pub fn parse_usize_text(s: &[u8]) -> (r: Option<usize>)
    ensures
        match r {
            Some(v) => is_usize_text(s@) && v == usize_text_val(s@),
            None => !is_usize_text(s@),
        },
{
    if s.len() > 0 && s[0] == 43 {
        let rest = vstd::slice::slice_subrange(s, 1, s.len());
        proof {
            assert(rest@ =~= s@.drop_first());
        }
        parse_digits_usize(rest, usize::MAX)
    } else {
        parse_digits_usize(s, usize::MAX)
    }
}

/// Texts that parse as an i64: optional sign, then digits, within range.
pub open spec fn is_i64_text(s: Seq<u8>) -> bool {
    let d = strip_sign(s);
    &&& d.len() > 0
    &&& all_digit_bytes(d)
    &&& if text_is_negative(s) {
        digits_val(d) <= 0x8000_0000_0000_0000
    } else {
        digits_val(d) <= 0x7fff_ffff_ffff_ffff
    }
}

pub open spec fn i64_text_val(s: Seq<u8>) -> int {
    if text_is_negative(s) {
        -digits_val(strip_sign(s))
    } else {
        digits_val(strip_sign(s))
    }
}

/// Parses an integer payload the way `str::parse::<i64>` would.
pub fn parse_i64_text(s: &[u8]) -> (r: Option<i64>)
    ensures
        match r {
            Some(v) => is_i64_text(s@) && v == i64_text_val(s@),
            None => !is_i64_text(s@),
        },
{
    let negative = s.len() > 0 && s[0] == 45;
    let digits: &[u8] = if s.len() > 0 && (s[0] == 43 || s[0] == 45) {
        let rest = vstd::slice::slice_subrange(s, 1, s.len());
        proof {
            assert(rest@ =~= s@.drop_first());
        }
        rest
    } else {
        s
    };
    let limit: u64 = if negative {
        0x8000_0000_0000_0000
    } else {
        0x7fff_ffff_ffff_ffff
    };
    match parse_digits_u64(digits, limit) {
        Some(mag) => {
            if negative {
                if mag == 0x8000_0000_0000_0000 {
                    Some(i64::MIN)
                } else {
                    Some(-(mag as i64))
                }
            } else {
                Some(mag as i64)
            }
        },
        None => None,
    }
}

/// Sign byte plus decimal magnitude: the integer payload this library emits.
pub open spec fn int_wire(n: int) -> Seq<u8> {
    if n >= 0 {
        seq![43u8] + dec_digits(n as nat)
    } else {
        seq![45u8] + dec_digits((-n) as nat)
    }
}

/// Appends the signed wire text of `n` to `out`.
pub fn push_int_wire(out: &mut Vec<u8>, n: i64)
    ensures
        final(out)@ == old(out)@ + int_wire(n as int),
{
    if n >= 0 {
        out.push(43);
        push_decimal_u64(out, n as u64);
        proof {
            assert(final(out)@ =~= old(out)@ + int_wire(n as int));
        }
    } else {
        let mag: u64 = (-(n + 1)) as u64 + 1;
        assert(mag == -(n as int));
        out.push(45);
        push_decimal_u64(out, mag);
        proof {
            assert(final(out)@ =~= old(out)@ + int_wire(n as int));
        }
    }
}

/// The emitted integer payload parses back to the same value.
pub proof fn lemma_int_wire_roundtrip(n: int)
    requires
        i64::MIN <= n <= i64::MAX,
    ensures
        is_i64_text(int_wire(n)),
        i64_text_val(int_wire(n)) == n,
        int_wire(n).len() >= 2,
        is_sign_byte(int_wire(n)[0]),
{
    let mag: nat = if n >= 0 {
        n as nat
    } else {
        (-n) as nat
    };
    lemma_dec_digits(mag);
    let w = int_wire(n);
    assert(w.drop_first() =~= dec_digits(mag));
}

// ---------------------------------------------------------------------------
// ASCII case folding
// ---------------------------------------------------------------------------
pub open spec fn lower_byte(b: u8) -> u8 {
    if 65 <= b && b <= 90 {
        (b + 32) as u8
    } else {
        b
    }
}

pub open spec fn lower_bytes(s: Seq<u8>) -> Seq<u8> {
    s.map_values(|b: u8| lower_byte(b))
}

pub fn to_lower_byte(b: u8) -> (r: u8)
    ensures
        r == lower_byte(b),
{
    if 65 <= b && b <= 90 {
        b + 32
    } else {
        b
    }
}

/// ASCII-lowercases every byte.
pub fn to_lower_bytes(s: &[u8]) -> (r: Vec<u8>)
    ensures
        r@ == lower_bytes(s@),
{
    let mut out: Vec<u8> = Vec::new();
    let mut i: usize = 0;
    while i < s.len()
        invariant
            0 <= i <= s@.len(),
            out@.len() == i as int,
            forall|j: int| 0 <= j < i ==> out@[j] == lower_byte(#[trigger] s@[j]),
        decreases s@.len() - i,
    {
        out.push(to_lower_byte(s[i]));
        i += 1;
    }
    proof {
        assert(out@ =~= lower_bytes(s@));
    }
    out
}

pub proof fn lemma_lower_bytes_idempotent(s: Seq<u8>)
    ensures
        lower_bytes(lower_bytes(s)) == lower_bytes(s),
{
    assert(lower_bytes(lower_bytes(s)) =~= lower_bytes(s));
}

// ---------------------------------------------------------------------------
// Byte equality and lexicographic order
// ---------------------------------------------------------------------------
/// Slice equality with an exact contract.
pub fn bytes_eq(a: &[u8], b: &[u8]) -> (r: bool)
    ensures
        r == (a@ == b@),
{
    if a.len() != b.len() {
        return false;
    }
    let mut i: usize = 0;
    while i < a.len()
        invariant
            0 <= i <= a@.len(),
            a@.len() == b@.len(),
            forall|j: int| 0 <= j < i ==> a@[j] == b@[j],
        decreases a@.len() - i,
    {
        if a[i] != b[i] {
            return false;
        }
        i += 1;
    }
    proof {
        assert(a@ =~= b@);
    }
    true
}

/// Strict lexicographic order on byte sequences.
pub open spec fn bytes_lt(a: Seq<u8>, b: Seq<u8>) -> bool
    decreases a.len(),
{
    if b.len() == 0 {
        false
    } else if a.len() == 0 {
        true
    } else if a[0] < b[0] {
        true
    } else if a[0] > b[0] {
        false
    } else {
        bytes_lt(a.drop_first(), b.drop_first())
    }
}

pub fn bytes_less(a: &[u8], b: &[u8]) -> (r: bool)
    ensures
        r == bytes_lt(a@, b@),
    decreases a@.len(),
{
    if b.len() == 0 {
        false
    } else if a.len() == 0 {
        true
    } else if a[0] < b[0] {
        true
    } else if a[0] > b[0] {
        false
    } else {
        let ar = vstd::slice::slice_subrange(a, 1, a.len());
        let br = vstd::slice::slice_subrange(b, 1, b.len());
        proof {
            assert(ar@ =~= a@.drop_first());
            assert(br@ =~= b@.drop_first());
        }
        bytes_less(ar, br)
    }
}

pub proof fn lemma_bytes_lt_total(a: Seq<u8>, b: Seq<u8>)
    ensures
        bytes_lt(a, b) || bytes_lt(b, a) || a == b,
    decreases a.len(),
{
    if b.len() == 0 {
        if a.len() == 0 {
            assert(a =~= b);
        }
    } else if a.len() > 0 && a[0] == b[0] {
        lemma_bytes_lt_total(a.drop_first(), b.drop_first());
        if a.drop_first() == b.drop_first() {
            assert(a.drop_first().len() == a.len() - 1);
            assert(b.drop_first().len() == b.len() - 1);
            assert(a.len() == b.len());
            assert forall|i: int| 0 <= i < a.len() implies a[i] == b[i] by {
                if i > 0 {
                    assert(a.drop_first()[i - 1] == a[i]);
                    assert(b.drop_first()[i - 1] == b[i]);
                }
            }
            assert(a =~= b);
        }
    }
}

pub proof fn lemma_bytes_lt_trans(a: Seq<u8>, b: Seq<u8>, c: Seq<u8>)
    requires
        bytes_lt(a, b),
        bytes_lt(b, c),
    ensures
        bytes_lt(a, c),
    decreases a.len(),
{
    if a.len() == 0 {
        assert(c.len() > 0);
    } else {
        assert(b.len() > 0 && c.len() > 0);
        if a[0] == b[0] && b[0] == c[0] {
            lemma_bytes_lt_trans(a.drop_first(), b.drop_first(), c.drop_first());
        }
    }
}

// ---------------------------------------------------------------------------
// Double payload texts
// ---------------------------------------------------------------------------
pub open spec fn is_e_byte(b: u8) -> bool {
    b == 101 || b == 69
}

pub open spec fn is_mantissa_byte(b: u8) -> bool {
    is_digit_byte(b) || b == 46
}

pub open spec fn dot_count(s: Seq<u8>) -> int
    decreases s.len(),
{
    if s.len() == 0 {
        0
    } else {
        dot_count(s.drop_last()) + if s.last() == 46 {
            1int
        } else {
            0int
        }
    }
}

pub open spec fn has_digit(s: Seq<u8>) -> bool {
    exists|i: int| 0 <= i < s.len() && is_digit_byte(#[trigger] s[i])
}

/// Digits with at most one dot somewhere, and at least one digit.
pub open spec fn is_mantissa(s: Seq<u8>) -> bool {
    &&& s.len() > 0
    &&& forall|i: int| 0 <= i < s.len() ==> is_mantissa_byte(#[trigger] s[i])
    &&& dot_count(s) <= 1
    &&& has_digit(s)
}

/// An exponent part: optional sign, then at least one digit.
pub open spec fn is_exp_part(s: Seq<u8>) -> bool {
    let d = strip_sign(s);
    d.len() > 0 && all_digit_bytes(d)
}

/// Index of the first exponent marker, or the length when there is none.
pub open spec fn first_e(s: Seq<u8>) -> int
    decreases s.len(),
{
    if s.len() == 0 {
        0
    } else if is_e_byte(s[0]) {
        0
    } else {
        1 + first_e(s.drop_first())
    }
}

pub proof fn lemma_first_e(s: Seq<u8>)
    ensures
        0 <= first_e(s) <= s.len(),
        first_e(s) < s.len() ==> is_e_byte(s[first_e(s)]),
        forall|i: int| 0 <= i < first_e(s) ==> !is_e_byte(#[trigger] s[i]),
    decreases s.len(),
{
    if s.len() > 0 && !is_e_byte(s[0]) {
        lemma_first_e(s.drop_first());
        if first_e(s) < s.len() {
            assert(s.drop_first()[first_e(s.drop_first())] == s[first_e(s)]);
        }
        assert forall|i: int| 0 <= i < first_e(s) implies !is_e_byte(#[trigger] s[i]) by {
            if i > 0 {
                assert(s.drop_first()[i - 1] == s[i]);
            }
        }
    }
}

/// A number: a mantissa, optionally followed by an exponent marker and part.
pub open spec fn is_number_text(s: Seq<u8>) -> bool {
    let i = first_e(s);
    if i == s.len() {
        is_mantissa(s)
    } else {
        is_mantissa(s.take(i)) && is_exp_part(s.skip(i + 1))
    }
}

pub open spec fn inf_bytes() -> Seq<u8> {
    seq![105u8, 110u8, 102u8]
}

pub open spec fn infinity_bytes() -> Seq<u8> {
    seq![105u8, 110u8, 102u8, 105u8, 110u8, 105u8, 116u8, 121u8]
}

pub open spec fn nan_bytes() -> Seq<u8> {
    seq![110u8, 97u8, 110u8]
}

pub open spec fn is_special_float(s: Seq<u8>) -> bool {
    ||| lower_bytes(s) == inf_bytes()
    ||| lower_bytes(s) == infinity_bytes()
    ||| lower_bytes(s) == nan_bytes()
}

/// The payload texts a double frame accepts: what `str::parse::<f64>` takes.
pub open spec fn is_float_text(s: Seq<u8>) -> bool {
    let body = strip_sign(s);
    is_special_float(body) || is_number_text(body)
}

fn check_mantissa(s: &[u8]) -> (r: bool)
    ensures
        r == is_mantissa(s@),
{
    if s.len() == 0 {
        return false;
    }
    let mut i: usize = 0;
    let mut dots: usize = 0;
    let mut digit_seen = false;
    while i < s.len()
        invariant
            0 <= i <= s@.len(),
            forall|j: int| 0 <= j < i ==> is_mantissa_byte(#[trigger] s@[j]),
            dots == dot_count(s@.take(i as int)),
            dots <= i,
            digit_seen == has_digit(s@.take(i as int)),
        decreases s@.len() - i,
    {
        let b = s[i];
        proof {
            assert(s@.take(i as int + 1).drop_last() =~= s@.take(i as int));
        }
        if b == 46 {
            dots += 1;
        } else if b >= 48 && b <= 57 {
            proof {
                assert(is_digit_byte(s@.take(i as int + 1)[i as int]));
            }
            digit_seen = true;
        } else {
            assert(!is_mantissa_byte(s@[i as int]));
            return false;
        }
        proof {
            if has_digit(s@.take(i as int)) {
                let w = choose|j: int|
                    0 <= j < i as int && is_digit_byte(#[trigger] s@.take(i as int)[j]);
                assert(is_digit_byte(s@.take(i as int + 1)[w]));
            }
            if has_digit(s@.take(i as int + 1)) && !has_digit(s@.take(i as int)) {
                let w = choose|j: int|
                    0 <= j < i as int + 1 && is_digit_byte(#[trigger] s@.take(i as int + 1)[j]);
                assert(w == i as int || is_digit_byte(s@.take(i as int)[w]));
            }
        }
        i += 1;
    }
    proof {
        assert(s@.take(i as int) =~= s@);
    }
    dots <= 1 && digit_seen
}

fn check_exp_part(s: &[u8]) -> (r: bool)
    ensures
        r == is_exp_part(s@),
{
    let d: &[u8] = if s.len() > 0 && (s[0] == 43 || s[0] == 45) {
        let rest = vstd::slice::slice_subrange(s, 1, s.len());
        proof {
            assert(rest@ =~= s@.drop_first());
        }
        rest
    } else {
        s
    };
    proof {
        assert(d@ == strip_sign(s@));
    }
    if d.len() == 0 {
        return false;
    }
    let mut i: usize = 0;
    while i < d.len()
        invariant
            0 <= i <= d@.len(),
            d@ == strip_sign(s@),
            d@.len() > 0,
            forall|j: int| 0 <= j < i ==> is_digit_byte(#[trigger] d@[j]),
        decreases d@.len() - i,
    {
        let b = d[i];
        if b < 48 || b > 57 {
            assert(!is_digit_byte(d@[i as int]));
            return false;
        }
        i += 1;
    }
    true
}

/// Index of the first exponent marker, or the length when there is none.
fn find_first_e(s: &[u8]) -> (r: usize)
    ensures
        r as int == first_e(s@),
        r <= s@.len(),
{
    let mut i: usize = 0;
    while i < s.len()
        invariant
            0 <= i <= s@.len(),
            forall|j: int| 0 <= j < i ==> !is_e_byte(#[trigger] s@[j]),
        decreases s@.len() - i,
    {
        let b = s[i];
        if b == 101 || b == 69 {
            proof {
                lemma_first_e(s@);
                if first_e(s@) < i as int {
                    assert(!is_e_byte(s@[first_e(s@)]));
                }
                if first_e(s@) > i as int {
                    assert(!is_e_byte(s@[i as int]));
                }
            }
            return i;
        }
        i += 1;
    }
    proof {
        lemma_first_e(s@);
        if first_e(s@) < s@.len() {
            assert(!is_e_byte(s@[first_e(s@)]));
        }
    }
    i
}

fn check_special_float(s: &[u8]) -> (r: bool)
    ensures
        r == is_special_float(s@),
{
    let low = to_lower_bytes(s);
    if low.len() == 3 {
        let is_inf = low[0] == 105 && low[1] == 110 && low[2] == 102;
        let is_nan = low[0] == 110 && low[1] == 97 && low[2] == 110;
        proof {
            if is_inf {
                assert(low@ =~= inf_bytes());
            }
            if is_nan {
                assert(low@ =~= nan_bytes());
            }
            if !is_inf && !is_nan {
                assert(low@ != inf_bytes());
                assert(low@ != nan_bytes());
                assert(low@.len() != infinity_bytes().len());
            }
        }
        is_inf || is_nan
    } else if low.len() == 8 {
        let ok = low[0] == 105 && low[1] == 110 && low[2] == 102 && low[3] == 105 && low[4] == 110
            && low[5] == 105 && low[6] == 116 && low[7] == 121;
        proof {
            if ok {
                assert(low@ =~= infinity_bytes());
            } else {
                assert(low@ != infinity_bytes());
            }
            assert(low@.len() != inf_bytes().len());
            assert(low@.len() != nan_bytes().len());
        }
        ok
    } else {
        proof {
            assert(low@.len() != inf_bytes().len());
            assert(low@.len() != infinity_bytes().len());
            assert(low@.len() != nan_bytes().len());
        }
        false
    }
}

/// Accepts exactly the double payload texts.
pub fn check_float_text(s: &[u8]) -> (r: bool)
    ensures
        r == is_float_text(s@),
{
    let body: &[u8] = if s.len() > 0 && (s[0] == 43 || s[0] == 45) {
        let rest = vstd::slice::slice_subrange(s, 1, s.len());
        proof {
            assert(rest@ =~= s@.drop_first());
        }
        rest
    } else {
        s
    };
    if check_special_float(body) {
        return true;
    }
    let i = find_first_e(body);
    if i == body.len() {
        check_mantissa(body)
    } else {
        let mant = vstd::slice::slice_subrange(body, 0, i);
        let expo = vstd::slice::slice_subrange(body, i + 1, body.len());
        proof {
            assert(mant@ =~= body@.take(i as int));
            assert(expo@ =~= body@.skip(i as int + 1));
        }
        let m_ok = check_mantissa(mant);
        let e_ok = check_exp_part(expo);
        m_ok && e_ok
    }
}

/// No byte of a double payload is a carriage return or line feed.
pub proof fn lemma_float_text_no_crlf(s: Seq<u8>)
    requires
        is_float_text(s),
    ensures
        forall|i: int| 0 <= i < s.len() ==> s[i] != 13 && s[i] != 10,
{
    let body = strip_sign(s);
    assert forall|i: int| 0 <= i < s.len() implies s[i] != 13 && s[i] != 10 by {
        if s.len() > 0 && is_sign_byte(s[0]) && i == 0 {
        } else {
            let k = if s.len() > 0 && is_sign_byte(s[0]) {
                i - 1
            } else {
                i
            };
            assert(body[k] == s[i]);
            lemma_body_byte_ok(body, k);
        }
    }
}

proof fn lemma_body_byte_ok(body: Seq<u8>, k: int)
    requires
        is_special_float(body) || is_number_text(body),
        0 <= k < body.len(),
    ensures
        body[k] != 13 && body[k] != 10,
{
    if is_special_float(body) {
        assert(lower_bytes(body).len() == body.len());
        assert(lower_bytes(body)[k] == lower_byte(body[k]));
        assert(lower_byte(13u8) == 13 && lower_byte(10u8) == 10);
        if lower_bytes(body) == inf_bytes() {
            assert(inf_bytes()[0] == 105 && inf_bytes()[1] == 110 && inf_bytes()[2] == 102);
        } else if lower_bytes(body) == nan_bytes() {
            assert(nan_bytes()[0] == 110 && nan_bytes()[1] == 97 && nan_bytes()[2] == 110);
        } else {
            assert(infinity_bytes()[0] == 105 && infinity_bytes()[1] == 110 && infinity_bytes()[2]
                == 102 && infinity_bytes()[3] == 105 && infinity_bytes()[4] == 110
                && infinity_bytes()[5] == 105 && infinity_bytes()[6] == 116 && infinity_bytes()[7]
                == 121);
        }
        assert(lower_byte(body[k]) != 13 && lower_byte(body[k]) != 10);
    } else {
        let i = first_e(body);
        lemma_first_e(body);
        if i == body.len() {
            assert(is_mantissa_byte(body[k]));
        } else {
            if k < i {
                assert(is_mantissa_byte(body.take(i)[k]));
            } else if k == i {
                assert(is_e_byte(body[k]));
            } else {
                let e = body.skip(i + 1);
                let d = strip_sign(e);
                assert(e[k - i - 1] == body[k]);
                if e.len() > 0 && is_sign_byte(e[0]) && k == i + 1 {
                } else {
                    let j = if e.len() > 0 && is_sign_byte(e[0]) {
                        k - i - 2
                    } else {
                        k - i - 1
                    };
                    assert(d[j] == e[k - i - 1]);
                    assert(is_digit_byte(d[j]));
                }
            }
        }
    }
}

} // verus!
