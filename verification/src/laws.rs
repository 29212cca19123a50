//! The codec laws: a well-formed frame's encoding decodes back to the same
//! frame, consuming exactly its length; the expected length agrees; and any
//! strict prefix of an encoding is reported incomplete.
use crate::decode::spec_find_crlf;
use crate::decode::lemma_spec_find_crlf;
use crate::decode::spec_line;
use crate::decode::spec_parse_len;
use crate::decode::spec_scan;
use crate::decode::spec_scan_entries;
use crate::decode::spec_scan_items;
use crate::decode::spec_value;
use crate::decode::spec_bulk;
use crate::decode::spec_container_entries;
use crate::decode::spec_container_items;
use crate::decode::spec_entries;
use crate::decode::spec_fixed;
use crate::decode::spec_items;
use crate::decode::Parsed;
use crate::encode::crlf;
use crate::encode::encode_entries;
use crate::encode::encode_items;
use crate::encode::encode_line;
use crate::encode::null_array_wire;
use crate::encode::null_bulk_wire;
use crate::encode::spec_encode;
use crate::frame::line_text_ok;
use crate::frame::lemma_encode_utf8_no_crlf;
use crate::frame::wf_entries;
use crate::frame::wf_frame;
use crate::frame::wf_frames;
use crate::frame::FrameV;
use crate::text::all_digit_bytes;
use crate::text::dec_digits;
use crate::text::digits_val;
use crate::text::int_wire;
use crate::text::is_usize_text;
use crate::text::is_sign_byte;
use crate::text::lemma_dec_digits;
use crate::text::lemma_float_text_no_crlf;
use crate::text::lemma_int_wire_roundtrip;
use crate::text::usize_text_val;
use vstd::prelude::*;
use vstd::utf8::encode_utf8;

verus! {

/// Byte sequences free of carriage returns and line feeds.
pub open spec fn crlf_free(s: Seq<u8>) -> bool {
    forall|i: int| 0 <= i < s.len() ==> #[trigger] s[i] != 13 && s[i] != 10
}

proof fn lemma_digits_crlf_free(n: nat)
    ensures
        crlf_free(dec_digits(n)),
        all_digit_bytes(dec_digits(n)),
        dec_digits(n).len() >= 1,
        digits_val(dec_digits(n)) == n,
{
    lemma_dec_digits(n);
}

proof fn lemma_int_wire_crlf_free(n: int)
    requires
        i64::MIN <= n <= i64::MAX,
    ensures
        crlf_free(int_wire(n)),
{
    let mag: nat = if n >= 0 {
        n as nat
    } else {
        (-n) as nat
    };
    lemma_dec_digits(mag);
    let w = int_wire(n);
    assert forall|i: int| 0 <= i < w.len() implies #[trigger] w[i] != 13 && w[i] != 10 by {
        if i > 0 {
            assert(w[i] == dec_digits(mag)[i - 1]);
        }
    }
}

spec fn pow10(k: nat) -> int
    decreases k,
{
    if k == 0 {
        1
    } else {
        10 * pow10((k - 1) as nat)
    }
}

proof fn lemma_dec_digits_len(n: nat, k: nat)
    requires
        k >= 1,
        n < pow10(k),
    ensures
        dec_digits(n).len() <= k,
    decreases k,
{
    if n >= 10 {
        assert(k >= 2) by {
            if k == 1 {
                assert(pow10(1) == 10) by {
                    reveal_with_fuel(pow10, 3);
                }
            }
        }
        assert(n / 10 < pow10((k - 1) as nat)) by {
            vstd::arithmetic::div_mod::lemma_fundamental_div_mod(n as int, 10);
            if n / 10 >= pow10((k - 1) as nat) {
                assert(10 * (n as int / 10) >= 10 * pow10((k - 1) as nat)) by (nonlinear_arith)
                    requires
                        n as int / 10 >= pow10((k - 1) as nat);
            }
        }
        lemma_dec_digits_len(n / 10, (k - 1) as nat);
    }
}

proof fn lemma_dec_digits_len20(n: nat)
    requires
        n <= 0xFFFF_FFFF_FFFF_FFFF,
    ensures
        dec_digits(n).len() <= 20,
{
    assert(pow10(20) == 100000000000000000000int) by {
        reveal_with_fuel(pow10, 21);
    }
    lemma_dec_digits_len(n, 20);
}

/// A line-terminated wire form with a clean payload parses completely.
proof fn lemma_line_complete(c: u8, payload: Seq<u8>, rest: Seq<u8>)
    requires
        c != 13,
        crlf_free(payload),
    ensures
        spec_line(seq![c] + payload + crlf() + rest, c) == Parsed::Found(
            payload,
            payload.len() + 3int,
        ),
{
    let s = seq![c] + payload + crlf() + rest;
    let e0 = 1 + payload.len() as int;
    assert(s.len() == payload.len() + 3 + rest.len());
    assert(s[0] == c);
    assert(s[e0] == 13);
    assert(s[e0 + 1] == 10);
    assert(s.len() >= 3);
    lemma_spec_find_crlf(s, 0);
    match spec_find_crlf(s, 0) {
        None => {
            assert(false);
        },
        Some(e) => {
            if e < e0 {
                assert(s[e] == 13);
                if e == 0 {
                    assert(false);
                } else {
                    assert(s[e] == payload[e - 1]);
                    assert(false);
                }
            }
            if e > e0 {
                assert(!(s[e0] == 13 && s[e0 + 1] == 10));
                assert(false);
            }
            assert(e == e0);
            assert(s.subrange(1, e0) =~= payload);
        },
    }
}

/// A strict prefix of a line-terminated wire form stays pending.
proof fn lemma_line_prefix(c: u8, payload: Seq<u8>, k: int)
    requires
        c != 13,
        crlf_free(payload),
        0 <= k < payload.len() + 3,
    ensures
        spec_line((seq![c] + payload + crlf()).take(k), c) == Parsed::<Seq<u8>>::Pending,
{
    let w = seq![c] + payload + crlf();
    let s = w.take(k);
    assert(s.len() == k);
    if k >= 3 {
        assert(s[0] == c);
        lemma_spec_find_crlf(s, 0);
        match spec_find_crlf(s, 0) {
            None => {},
            Some(e) => {
                assert(s[e] == 13 && e + 1 < k);
                assert(s[e] == w[e]);
                if e == 0 {
                    assert(false);
                } else if e <= payload.len() {
                    assert(w[e] == payload[e - 1]);
                    assert(false);
                } else {
                    assert(e >= payload.len() + 1);
                    assert(e + 1 < k <= payload.len() + 2);
                    assert(false);
                }
            },
        }
    }
}

/// A complete length header parses to its count.
proof fn lemma_header_complete(c: u8, n: nat, rest: Seq<u8>)
    requires
        c != 13,
        c < 48 || c > 57,
        c != 43,
        n <= usize::MAX,
    ensures
        spec_parse_len(seq![c] + dec_digits(n) + crlf() + rest, c) == Parsed::Found(
            n as int,
            dec_digits(n).len() + 3int,
        ),
{
    lemma_digits_crlf_free(n);
    lemma_line_complete(c, dec_digits(n), rest);
    let d = dec_digits(n);
    assert(is_digit_byte_first(d));
    assert(is_usize_text(d)) by {
        assert(d[0] != 43 && d[0] != 45);
    }
    assert(usize_text_val(d) == n) by {
        assert(d[0] != 43);
    }
}

spec fn is_digit_byte_first(d: Seq<u8>) -> bool {
    d.len() >= 1 && 48 <= d[0] <= 57
}

/// Every encoding is at least three bytes.
proof fn lemma_enc_len_pos(f: FrameV)
    ensures
        spec_encode(f).len() >= 3,
{
    match f {
        FrameV::BulkString(b) => {
            lemma_digits_crlf_free(b.len());
        },
        FrameV::Array(items) => {
            lemma_digits_crlf_free(items.len());
        },
        FrameV::MapFrame(entries) => {
            lemma_digits_crlf_free(entries.len());
        },
        FrameV::SetFrame(items) => {
            lemma_digits_crlf_free(items.len());
        },
        _ => {},
    }
}

/// The structural scan of a well-formed frame's encoding finds exactly its
/// length, whatever follows it.
pub proof fn lemma_scan_complete(f: FrameV, rest: Seq<u8>)
    requires
        wf_frame(f),
    ensures
        spec_scan(spec_encode(f) + rest) == Parsed::<()>::Found((), spec_encode(f).len() as int),
    decreases spec_encode(f).len(), 0int,
{
    let s = spec_encode(f) + rest;
    match f {
        FrameV::SimpleString(t) => {
            lemma_encode_utf8_no_crlf(t);
            lemma_line_complete(43, encode_utf8(t), rest);
            assert(s[0] == 43);
        },
        FrameV::SimpleError(t) => {
            lemma_encode_utf8_no_crlf(t);
            lemma_line_complete(45, encode_utf8(t), rest);
            assert(s[0] == 45);
        },
        FrameV::Integer(n) => {
            lemma_int_wire_crlf_free(n);
            lemma_line_complete(58, int_wire(n), rest);
            assert(s[0] == 58);
        },
        FrameV::Double(t) => {
            lemma_float_text_no_crlf(encode_utf8(t));
            lemma_line_complete(44, encode_utf8(t), rest);
            assert(s[0] == 44);
        },
        FrameV::Null => {
            assert(s[0] == 95);
        },
        FrameV::Boolean(b) => {
            assert(s[0] == 35);
        },
        FrameV::NullBulkString => {
            assert(s[0] == 36);
            assert(s.len() >= 5);
            assert(s.subrange(0, 5) =~= null_bulk_wire());
        },
        FrameV::NullArray => {
            assert(s[0] == 42);
            assert(s.len() >= 5);
            assert(s.subrange(0, 5) =~= null_array_wire());
        },
        FrameV::BulkString(b) => {
            let d = dec_digits(b.len());
            lemma_digits_crlf_free(b.len());
            lemma_dec_digits_len20(b.len());
            let rest2 = b + crlf() + rest;
            assert(s =~= seq![36u8] + d + crlf() + rest2);
            lemma_header_complete(36, b.len(), rest2);
            let used = d.len() + 3int;
            assert(s[0] == 36);
            assert(s.len() >= 6);
            if s.len() >= 5 {
                assert(s[1] == d[0]);
                assert(48 <= d[0] <= 57);
                assert(s.subrange(0, 5)[1] == s[1]);
                assert(null_bulk_wire()[1] == 45);
                assert(s.subrange(0, 5) != null_bulk_wire());
            }
            assert(used + b.len() + 2 <= usize::MAX);
            assert(spec_encode(f).len() == used + b.len() + 2);
        },
        FrameV::Array(items) => {
            let d = dec_digits(items.len());
            lemma_digits_crlf_free(items.len());
            let body = encode_items(items);
            let rest2 = body + rest;
            assert(s =~= seq![42u8] + d + crlf() + rest2);
            lemma_header_complete(42, items.len(), rest2);
            let used = d.len() + 3int;
            assert(s[0] == 42);
            if s.len() >= 5 {
                assert(s[1] == d[0]);
                assert(48 <= d[0] <= 57);
                assert(s.subrange(0, 5)[1] == s[1]);
                assert(null_array_wire()[1] == 45);
                assert(s.subrange(0, 5) != null_array_wire());
            }
            assert(s.skip(used) =~= body + rest);
            lemma_scan_items_complete(items, rest);
            assert(spec_encode(f).len() == used + body.len());
        },
        FrameV::SetFrame(items) => {
            let d = dec_digits(items.len());
            lemma_digits_crlf_free(items.len());
            let body = encode_items(items);
            let rest2 = body + rest;
            assert(s =~= seq![126u8] + d + crlf() + rest2);
            lemma_header_complete(126, items.len(), rest2);
            let used = d.len() + 3int;
            assert(s[0] == 126);
            assert(s.skip(used) =~= body + rest);
            lemma_scan_items_complete(items, rest);
            assert(spec_encode(f).len() == used + body.len());
        },
        FrameV::MapFrame(entries) => {
            let d = dec_digits(entries.len());
            lemma_digits_crlf_free(entries.len());
            let body = encode_entries(entries);
            let rest2 = body + rest;
            assert(s =~= seq![37u8] + d + crlf() + rest2);
            lemma_header_complete(37, entries.len(), rest2);
            let used = d.len() + 3int;
            assert(s[0] == 37);
            assert(s.skip(used) =~= body + rest);
            lemma_scan_entries_complete(entries, rest);
            assert(spec_encode(f).len() == used + body.len());
        },
    }
}

/// The structural scan of `n` encoded frames sums to the run's length.
pub proof fn lemma_scan_items_complete(items: Seq<FrameV>, rest: Seq<u8>)
    requires
        wf_frames(items),
    ensures
        spec_scan_items(encode_items(items) + rest, items.len() as int) == Parsed::<()>::Found(
            (),
            encode_items(items).len() as int,
        ),
    decreases encode_items(items).len(), items.len(),
{
    let s = encode_items(items) + rest;
    if items.len() == 0 {
        assert(encode_items(items).len() == 0);
    } else {
        let head = items[0];
        let tail = items.drop_first();
        let e0 = spec_encode(head);
        lemma_enc_len_pos(head);
        assert(encode_items(items) == e0 + encode_items(tail));
        assert(s =~= e0 + (encode_items(tail) + rest));
        lemma_scan_complete(head, encode_items(tail) + rest);
        assert(spec_scan(s) == Parsed::<()>::Found((), e0.len() as int));
        assert(s.skip(e0.len() as int) =~= encode_items(tail) + rest);
        lemma_scan_items_complete(tail, rest);
    }
}

/// The structural scan of `n` encoded map entries sums to the run's length.
pub proof fn lemma_scan_entries_complete(entries: Seq<(Seq<char>, FrameV)>, rest: Seq<u8>)
    requires
        wf_entries(entries),
    ensures
        spec_scan_entries(encode_entries(entries) + rest, entries.len() as int)
            == Parsed::<()>::Found((), encode_entries(entries).len() as int),
    decreases encode_entries(entries).len(), entries.len(),
{
    let s = encode_entries(entries) + rest;
    if entries.len() == 0 {
        assert(encode_entries(entries).len() == 0);
    } else {
        let key = entries[0].0;
        let value = entries[0].1;
        let tail = entries.drop_first();
        let keyline = encode_line(43, encode_utf8(key));
        let ev = spec_encode(value);
        lemma_enc_len_pos(value);
        assert(encode_entries(entries) == keyline + ev + encode_entries(tail));
        lemma_encode_utf8_no_crlf(key);
        let rest2 = ev + (encode_entries(tail) + rest);
        assert(s =~= seq![43u8] + encode_utf8(key) + crlf() + rest2);
        lemma_line_complete(43, encode_utf8(key), rest2);
        let k1 = encode_utf8(key).len() + 3int;
        assert(keyline.len() == k1);
        assert(s.skip(k1) =~= ev + (encode_entries(tail) + rest));
        lemma_scan_complete(value, encode_entries(tail) + rest);
        assert(spec_scan(s.skip(k1)) == Parsed::<()>::Found((), ev.len() as int));
        assert(s.skip(k1 + ev.len()) =~= encode_entries(tail) + rest);
        lemma_scan_entries_complete(tail, rest);
    }
}

/// Decoding a well-formed frame's encoding yields the frame back and
/// consumes exactly its length, whatever follows it.
#[verifier::rlimit(100)]
#[verifier::spinoff_prover]
pub proof fn lemma_value_complete(f: FrameV, rest: Seq<u8>)
    requires
        wf_frame(f),
    ensures
        spec_value(spec_encode(f) + rest) == Parsed::Found(f, spec_encode(f).len() as int),
    decreases spec_encode(f).len(), 0int,
{
    let s = spec_encode(f) + rest;
    match f {
        FrameV::SimpleString(t) => {
            lemma_encode_utf8_no_crlf(t);
            lemma_line_complete(43, encode_utf8(t), rest);
            assert(s[0] == 43);
            vstd::utf8::encode_utf8_valid_utf8(t);
            vstd::utf8::encode_utf8_decode_utf8(t);
        },
        FrameV::SimpleError(t) => {
            lemma_encode_utf8_no_crlf(t);
            lemma_line_complete(45, encode_utf8(t), rest);
            assert(s[0] == 45);
            vstd::utf8::encode_utf8_valid_utf8(t);
            vstd::utf8::encode_utf8_decode_utf8(t);
        },
        FrameV::Integer(n) => {
            lemma_int_wire_crlf_free(n);
            lemma_line_complete(58, int_wire(n), rest);
            assert(s[0] == 58);
            lemma_int_wire_roundtrip(n);
        },
        FrameV::Double(t) => {
            lemma_float_text_no_crlf(encode_utf8(t));
            lemma_line_complete(44, encode_utf8(t), rest);
            assert(s[0] == 44);
            vstd::utf8::encode_utf8_valid_utf8(t);
            vstd::utf8::encode_utf8_decode_utf8(t);
        },
        FrameV::Null => {
            assert(s[0] == 95);
            assert(s.len() >= 3);
            assert(s.subrange(0, 3) =~= seq![95u8, 13u8, 10u8]);
        },
        FrameV::Boolean(b) => {
            assert(s[0] == 35);
            assert(s.len() >= 4);
            if b {
                assert(s.subrange(0, 4) =~= seq![35u8, 116u8, 13u8, 10u8]);
            } else {
                assert(s.subrange(0, 4) =~= seq![35u8, 102u8, 13u8, 10u8]);
                assert(s.subrange(0, 4)[1] == 102);
                assert(seq![35u8, 116u8, 13u8, 10u8][1] == 116);
                assert(s.subrange(0, 4) != seq![35u8, 116u8, 13u8, 10u8]);
            }
        },
        FrameV::NullBulkString => {
            assert(s[0] == 36);
            assert(s.len() >= 5);
            assert(s.subrange(0, 5) =~= null_bulk_wire());
        },
        FrameV::NullArray => {
            assert(s[0] == 42);
            assert(s.len() >= 5);
            assert(s.subrange(0, 5) =~= null_array_wire());
        },
        FrameV::BulkString(b) => {
            let d = dec_digits(b.len());
            lemma_digits_crlf_free(b.len());
            lemma_dec_digits_len20(b.len());
            let rest2 = b + crlf() + rest;
            assert(s =~= seq![36u8] + d + crlf() + rest2);
            lemma_header_complete(36, b.len(), rest2);
            let used = d.len() + 3int;
            assert(s[0] == 36);
            assert(s.len() >= 6);
            if s.len() >= 5 {
                assert(s[1] == d[0]);
                assert(48 <= d[0] <= 57);
                assert(s.subrange(0, 5)[1] == s[1]);
                assert(null_bulk_wire()[1] == 45);
                assert(s.subrange(0, 5) != null_bulk_wire());
            }
            assert(s.len() >= used + b.len() + 2);
            assert(s.subrange(used, used + b.len()) =~= b);
            assert(spec_encode(f).len() == used + b.len() + 2);
        },
        FrameV::Array(items) => {
            let d = dec_digits(items.len());
            lemma_digits_crlf_free(items.len());
            let body = encode_items(items);
            let rest2 = body + rest;
            assert(s =~= seq![42u8] + d + crlf() + rest2);
            lemma_header_complete(42, items.len(), rest2);
            let used = d.len() + 3int;
            assert(s[0] == 42);
            if s.len() >= 5 {
                assert(s[1] == d[0]);
                assert(48 <= d[0] <= 57);
                assert(s.subrange(0, 5)[1] == s[1]);
                assert(null_array_wire()[1] == 45);
                assert(s.subrange(0, 5) != null_array_wire());
            }
            assert(s.skip(used) =~= body + rest);
            lemma_scan_items_complete(items, rest);
            lemma_items_complete(items, rest);
            assert(spec_encode(f).len() == used + body.len());
        },
        FrameV::SetFrame(items) => {
            let d = dec_digits(items.len());
            lemma_digits_crlf_free(items.len());
            let body = encode_items(items);
            let rest2 = body + rest;
            assert(s =~= seq![126u8] + d + crlf() + rest2);
            lemma_header_complete(126, items.len(), rest2);
            let used = d.len() + 3int;
            assert(s[0] == 126);
            assert(s.skip(used) =~= body + rest);
            lemma_scan_items_complete(items, rest);
            lemma_items_complete(items, rest);
            assert(spec_encode(f).len() == used + body.len());
        },
        FrameV::MapFrame(entries) => {
            let d = dec_digits(entries.len());
            lemma_digits_crlf_free(entries.len());
            let body = encode_entries(entries);
            let rest2 = body + rest;
            assert(s =~= seq![37u8] + d + crlf() + rest2);
            lemma_header_complete(37, entries.len(), rest2);
            let used = d.len() + 3int;
            assert(s[0] == 37);
            assert(s.skip(used) =~= body + rest);
            lemma_scan_entries_complete(entries, rest);
            lemma_entries_complete(entries, rest);
            assert(spec_encode(f).len() == used + body.len());
        },
    }
}

/// Decoding `n` encoded frames in a row yields them back in order.
pub proof fn lemma_items_complete(items: Seq<FrameV>, rest: Seq<u8>)
    requires
        wf_frames(items),
    ensures
        spec_items(encode_items(items) + rest, items.len() as int) == Parsed::Found(
            items,
            encode_items(items).len() as int,
        ),
    decreases encode_items(items).len(), items.len(),
{
    let s = encode_items(items) + rest;
    if items.len() == 0 {
        assert(encode_items(items).len() == 0);
        assert(items =~= Seq::<FrameV>::empty());
    } else {
        let head = items[0];
        let tail = items.drop_first();
        let e0 = spec_encode(head);
        lemma_enc_len_pos(head);
        assert(encode_items(items) == e0 + encode_items(tail));
        assert(s =~= e0 + (encode_items(tail) + rest));
        lemma_value_complete(head, encode_items(tail) + rest);
        assert(spec_value(s) == Parsed::Found(head, e0.len() as int));
        assert(s.skip(e0.len() as int) =~= encode_items(tail) + rest);
        lemma_items_complete(tail, rest);
        assert(seq![head] + tail =~= items);
    }
}

/// Decoding `n` encoded map entries in a row yields them back in order.
pub proof fn lemma_entries_complete(entries: Seq<(Seq<char>, FrameV)>, rest: Seq<u8>)
    requires
        wf_entries(entries),
    ensures
        spec_entries(encode_entries(entries) + rest, entries.len() as int) == Parsed::Found(
            entries,
            encode_entries(entries).len() as int,
        ),
    decreases encode_entries(entries).len(), entries.len(),
{
    let s = encode_entries(entries) + rest;
    if entries.len() == 0 {
        assert(encode_entries(entries).len() == 0);
        assert(entries =~= Seq::<(Seq<char>, FrameV)>::empty());
    } else {
        let key = entries[0].0;
        let value = entries[0].1;
        let tail = entries.drop_first();
        let keyline = encode_line(43, encode_utf8(key));
        let ev = spec_encode(value);
        lemma_enc_len_pos(value);
        assert(encode_entries(entries) == keyline + ev + encode_entries(tail));
        lemma_encode_utf8_no_crlf(key);
        let rest2 = ev + (encode_entries(tail) + rest);
        assert(s =~= seq![43u8] + encode_utf8(key) + crlf() + rest2);
        lemma_line_complete(43, encode_utf8(key), rest2);
        let k1 = encode_utf8(key).len() + 3int;
        assert(keyline.len() == k1);
        vstd::utf8::encode_utf8_valid_utf8(key);
        vstd::utf8::encode_utf8_decode_utf8(key);
        assert(s.skip(k1) =~= ev + (encode_entries(tail) + rest));
        lemma_value_complete(value, encode_entries(tail) + rest);
        assert(spec_value(s.skip(k1)) == Parsed::Found(value, ev.len() as int));
        assert(s.skip(k1 + ev.len()) =~= encode_entries(tail) + rest);
        lemma_entries_complete(tail, rest);
        assert(seq![(key, value)] + tail =~= entries);
    }
}

/// The structural scan of a strict prefix of an encoding is either still
/// pending or already reports the full length.
pub proof fn lemma_scan_prefix(f: FrameV, k: int)
    requires
        wf_frame(f),
        0 <= k < spec_encode(f).len(),
    ensures
        spec_scan(spec_encode(f).take(k)) == Parsed::<()>::Pending || spec_scan(
            spec_encode(f).take(k),
        ) == Parsed::<()>::Found((), spec_encode(f).len() as int),
    decreases spec_encode(f).len(), 0int, 1int,
{
    let e = spec_encode(f);
    let s = e.take(k);
    assert(s.len() == k);
    assert(forall|i: int| 0 <= i < k ==> s[i] == e[i]);
    if k == 0 {
    } else {
        match f {
            FrameV::SimpleString(t) => {
                lemma_encode_utf8_no_crlf(t);
                if k >= 3 {
                    lemma_line_prefix(43, encode_utf8(t), k);
                }
            },
            FrameV::SimpleError(t) => {
                lemma_encode_utf8_no_crlf(t);
                if k >= 3 {
                    lemma_line_prefix(45, encode_utf8(t), k);
                }
            },
            FrameV::Integer(n) => {
                lemma_int_wire_crlf_free(n);
                if k >= 3 {
                    lemma_line_prefix(58, int_wire(n), k);
                }
            },
            FrameV::Double(t) => {
                lemma_float_text_no_crlf(encode_utf8(t));
                if k >= 3 {
                    lemma_line_prefix(44, encode_utf8(t), k);
                }
            },
            FrameV::Null => {
                assert(s[0] == 95);
            },
            FrameV::Boolean(b) => {
                assert(s[0] == 35);
            },
            FrameV::NullBulkString => {
                lemma_null_form_prefix(s, e, k, 36);
            },
            FrameV::NullArray => {
                lemma_null_form_prefix(s, e, k, 42);
            },
            FrameV::BulkString(b) => {
                let d = dec_digits(b.len());
                lemma_digits_crlf_free(b.len());
                lemma_dec_digits_len20(b.len());
                let header = seq![36u8] + d + crlf();
                assert(e =~= header + (b + crlf()));
                assert(s[0] == 36);
                if k >= 5 {
                    assert(s.subrange(0, 5)[1] == s[1]);
                    assert(s[1] == d[0]);
                    assert(48 <= d[0] <= 57);
                    assert(null_bulk_wire()[1] == 45);
                    assert(s.subrange(0, 5) != null_bulk_wire());
                }
                if k < header.len() {
                    assert(s =~= (seq![36u8] + d + crlf()).take(k));
                    lemma_line_prefix(36, d, k);
                } else {
                    let rest2 = (b + crlf()).take(k - header.len());
                    assert(s =~= seq![36u8] + d + crlf() + rest2);
                    lemma_header_complete(36, b.len(), rest2);
                    assert(d.len() + 3 + b.len() + 2 <= usize::MAX);
                }
            },
            FrameV::Array(items) => {
                lemma_container_items_prefix(f, items, 42, k);
            },
            FrameV::SetFrame(items) => {
                lemma_container_items_prefix(f, items, 126, k);
            },
            FrameV::MapFrame(entries) => {
                lemma_container_entries_prefix(f, entries, k);
            },
        }
    }
}

/// Helper for the two five-byte null forms: any strict prefix stays pending.
proof fn lemma_null_form_prefix(s: Seq<u8>, e: Seq<u8>, k: int, c: u8)
    requires
        c == 36 || c == 42,
        e == (if c == 36 {
            null_bulk_wire()
        } else {
            null_array_wire()
        }),
        1 <= k < 5,
        s == e.take(k),
    ensures
        spec_scan(s) == Parsed::<()>::Pending,
        spec_value(s) == Parsed::<FrameV>::Pending,
{
    assert(s.len() == k);
    assert(s[0] == c);
    if k >= 3 {
        lemma_spec_find_crlf(s, 0);
        match spec_find_crlf(s, 0) {
            None => {},
            Some(ee) => {
                assert(s[ee] == 13 && ee + 1 < k);
                assert(s[0] == c && s[1] == 45 && (k > 2 ==> s[2] == 49));
                assert(false);
            },
        }
    }
}

/// Helper: a strict prefix of an array-shaped container scans as pending.
proof fn lemma_container_items_prefix(f: FrameV, items: Seq<FrameV>, c: u8, k: int)
    requires
        c == 42 || c == 126,
        f == (if c == 42 {
            FrameV::Array(items)
        } else {
            FrameV::SetFrame(items)
        }),
        wf_frame(f),
        1 <= k < spec_encode(f).len(),
    ensures
        spec_scan(spec_encode(f).take(k)) == Parsed::<()>::Pending,
        spec_value(spec_encode(f).take(k)) == Parsed::<FrameV>::Pending,
    decreases spec_encode(f).len(), 0int, 0int,
{
    let e = spec_encode(f);
    let s = e.take(k);
    let d = dec_digits(items.len());
    lemma_digits_crlf_free(items.len());
    let body = encode_items(items);
    let header = seq![c] + d + crlf();
    assert(e =~= header + body);
    assert(s[0] == c);
    if k >= 5 {
        assert(s.subrange(0, 5)[1] == s[1]);
        assert(s[1] == d[0]);
        assert(48 <= d[0] <= 57);
        assert(null_array_wire()[1] == 45);
        assert(s.subrange(0, 5) != null_array_wire());
    }
    if k < header.len() {
        assert(s =~= (seq![c] + d + crlf()).take(k));
        lemma_line_prefix(c, d, k);
    } else {
        let kk = k - header.len();
        let rest2 = body.take(kk);
        assert(s =~= seq![c] + d + crlf() + rest2);
        lemma_header_complete(c, items.len(), rest2);
        let used = d.len() + 3int;
        assert(s.skip(used) =~= body.take(kk));
        assert(0 <= kk < body.len());
        lemma_scan_items_prefix(items, kk);
    }
}

/// Helper: a strict prefix of a map container scans as pending.
proof fn lemma_container_entries_prefix(f: FrameV, entries: Seq<(Seq<char>, FrameV)>, k: int)
    requires
        f == FrameV::MapFrame(entries),
        wf_frame(f),
        1 <= k < spec_encode(f).len(),
    ensures
        spec_scan(spec_encode(f).take(k)) == Parsed::<()>::Pending,
        spec_value(spec_encode(f).take(k)) == Parsed::<FrameV>::Pending,
    decreases spec_encode(f).len(), 0int, 0int,
{
    let e = spec_encode(f);
    let s = e.take(k);
    let d = dec_digits(entries.len());
    lemma_digits_crlf_free(entries.len());
    let body = encode_entries(entries);
    let header = seq![37u8] + d + crlf();
    assert(e =~= header + body);
    assert(s[0] == 37);
    if k < header.len() {
        assert(s =~= (seq![37u8] + d + crlf()).take(k));
        lemma_line_prefix(37, d, k);
    } else {
        let kk = k - header.len();
        let rest2 = body.take(kk);
        assert(s =~= seq![37u8] + d + crlf() + rest2);
        lemma_header_complete(37, entries.len(), rest2);
        let used = d.len() + 3int;
        assert(s.skip(used) =~= body.take(kk));
        assert(0 <= kk < body.len());
        lemma_scan_entries_prefix(entries, kk);
    }
}

/// A truncated run of encoded frames never completes its scan.
pub proof fn lemma_scan_items_prefix(items: Seq<FrameV>, k: int)
    requires
        wf_frames(items),
        0 <= k < encode_items(items).len(),
    ensures
        spec_scan_items(encode_items(items).take(k), items.len() as int) == Parsed::<()>::Pending,
    decreases encode_items(items).len(), items.len(), 2int,
{
    let body = encode_items(items);
    let s = body.take(k);
    assert(items.len() > 0);
    let head = items[0];
    let tail = items.drop_first();
    let e0 = spec_encode(head);
    lemma_enc_len_pos(head);
    assert(body == e0 + encode_items(tail));
    if k < e0.len() {
        assert(s =~= e0.take(k));
        if k == 0 {
            assert(spec_scan(s) == Parsed::<()>::Pending);
        } else {
            lemma_scan_prefix(head, k);
        }
        match spec_scan(s) {
            Parsed::Pending => {},
            Parsed::Found(u, m) => {
                assert(m == e0.len());
                assert(m > s.len());
            },
            Parsed::Bad => {
                assert(false);
            },
        }
    } else {
        let kk = k - e0.len();
        assert(s =~= e0 + encode_items(tail).take(kk));
        lemma_scan_complete(head, encode_items(tail).take(kk));
        assert(spec_scan(s) == Parsed::<()>::Found((), e0.len() as int));
        assert(s.skip(e0.len() as int) =~= encode_items(tail).take(kk));
        assert(0 <= kk < encode_items(tail).len());
        lemma_scan_items_prefix(tail, kk);
    }
}

/// A truncated run of encoded map entries never completes its scan.
pub proof fn lemma_scan_entries_prefix(entries: Seq<(Seq<char>, FrameV)>, k: int)
    requires
        wf_entries(entries),
        0 <= k < encode_entries(entries).len(),
    ensures
        spec_scan_entries(encode_entries(entries).take(k), entries.len() as int)
            == Parsed::<()>::Pending,
    decreases encode_entries(entries).len(), entries.len(), 2int,
{
    let body = encode_entries(entries);
    let s = body.take(k);
    assert(entries.len() > 0);
    let key = entries[0].0;
    let value = entries[0].1;
    let tail = entries.drop_first();
    let keyline = encode_line(43, encode_utf8(key));
    let ev = spec_encode(value);
    lemma_enc_len_pos(value);
    lemma_encode_utf8_no_crlf(key);
    assert(body == keyline + ev + encode_entries(tail));
    let k1 = keyline.len() as int;
    if k < k1 {
        assert(s =~= (seq![43u8] + encode_utf8(key) + crlf()).take(k));
        if k < 3 {
            assert(spec_line(s, 43) == Parsed::<Seq<u8>>::Pending);
        } else {
            lemma_line_prefix(43, encode_utf8(key), k);
        }
    } else {
        let rest2 = (ev + encode_entries(tail)).take(k - k1);
        assert(s =~= seq![43u8] + encode_utf8(key) + crlf() + rest2);
        lemma_line_complete(43, encode_utf8(key), rest2);
        if k - k1 < ev.len() {
            assert(s.skip(k1) =~= ev.take(k - k1));
            if k - k1 == 0 {
                assert(spec_scan(s.skip(k1)) == Parsed::<()>::Pending);
            } else {
                lemma_scan_prefix(value, k - k1);
            }
            match spec_scan(s.skip(k1)) {
                Parsed::Pending => {},
                Parsed::Found(u, m) => {
                    assert(m == ev.len());
                    assert(k1 + m > s.len());
                },
                Parsed::Bad => {
                    assert(false);
                },
            }
        } else {
            let kk = k - k1 - ev.len();
            assert(s.skip(k1) =~= ev + encode_entries(tail).take(kk));
            lemma_scan_complete(value, encode_entries(tail).take(kk));
            assert(spec_scan(s.skip(k1)) == Parsed::<()>::Found((), ev.len() as int));
            assert(s.skip(k1 + ev.len()) =~= encode_entries(tail).take(kk));
            assert(0 <= kk < encode_entries(tail).len());
            lemma_scan_entries_prefix(tail, kk);
        }
    }
}

/// Decoding any strict prefix of a well-formed frame's encoding reports an
/// incomplete input.
pub proof fn lemma_value_prefix(f: FrameV, k: int)
    requires
        wf_frame(f),
        0 <= k < spec_encode(f).len(),
    ensures
        spec_value(spec_encode(f).take(k)) == Parsed::<FrameV>::Pending,
{
    let e = spec_encode(f);
    let s = e.take(k);
    assert(s.len() == k);
    assert(forall|i: int| 0 <= i < k ==> s[i] == e[i]);
    if k == 0 {
    } else {
        match f {
            FrameV::SimpleString(t) => {
                lemma_encode_utf8_no_crlf(t);
                if k >= 3 {
                    lemma_line_prefix(43, encode_utf8(t), k);
                }
            },
            FrameV::SimpleError(t) => {
                lemma_encode_utf8_no_crlf(t);
                if k >= 3 {
                    lemma_line_prefix(45, encode_utf8(t), k);
                }
            },
            FrameV::Integer(n) => {
                lemma_int_wire_crlf_free(n);
                if k >= 3 {
                    lemma_line_prefix(58, int_wire(n), k);
                }
            },
            FrameV::Double(t) => {
                lemma_float_text_no_crlf(encode_utf8(t));
                if k >= 3 {
                    lemma_line_prefix(44, encode_utf8(t), k);
                }
            },
            FrameV::Null => {
                assert(s[0] == 95);
            },
            FrameV::Boolean(b) => {
                assert(s[0] == 35);
            },
            FrameV::NullBulkString => {
                lemma_null_form_prefix(s, e, k, 36);
            },
            FrameV::NullArray => {
                lemma_null_form_prefix(s, e, k, 42);
            },
            FrameV::BulkString(b) => {
                let d = dec_digits(b.len());
                lemma_digits_crlf_free(b.len());
                lemma_dec_digits_len20(b.len());
                let header = seq![36u8] + d + crlf();
                assert(e =~= header + (b + crlf()));
                assert(s[0] == 36);
                if k >= 5 {
                    assert(s.subrange(0, 5)[1] == s[1]);
                    assert(s[1] == d[0]);
                    assert(48 <= d[0] <= 57);
                    assert(null_bulk_wire()[1] == 45);
                    assert(s.subrange(0, 5) != null_bulk_wire());
                }
                if k < header.len() {
                    assert(s =~= (seq![36u8] + d + crlf()).take(k));
                    lemma_line_prefix(36, d, k);
                } else {
                    let rest2 = (b + crlf()).take(k - header.len());
                    assert(s =~= seq![36u8] + d + crlf() + rest2);
                    lemma_header_complete(36, b.len(), rest2);
                    assert(s.len() < header.len() + b.len() + 2);
                }
            },
            FrameV::Array(items) => {
                lemma_container_items_prefix(f, items, 42, k);
            },
            FrameV::SetFrame(items) => {
                lemma_container_items_prefix(f, items, 126, k);
            },
            FrameV::MapFrame(entries) => {
                lemma_container_entries_prefix(f, entries, k);
            },
        }
    }
}

// ---------------------------------------------------------------------------
// The laws, stated over the public spec functions
// ---------------------------------------------------------------------------
/// Round trip: decoding an encoding, with anything appended, returns the
/// same frame and consumes exactly the encoding; what follows stays.
pub proof fn lemma_round_trip(f: FrameV, rest: Seq<u8>)
    requires
        wf_frame(f),
    ensures
        spec_value(spec_encode(f) + rest) == Parsed::Found(f, spec_encode(f).len() as int),
        (spec_encode(f) + rest).skip(spec_encode(f).len() as int) == rest,
{
    lemma_value_complete(f, rest);
    assert((spec_encode(f) + rest).skip(spec_encode(f).len() as int) =~= rest);
}

/// The expected length of an encoding is exactly its length, with anything
/// appended.
pub proof fn lemma_expect_length(f: FrameV, rest: Seq<u8>)
    requires
        wf_frame(f),
    ensures
        spec_scan(spec_encode(f) + rest) == Parsed::<()>::Found((), spec_encode(f).len() as int),
{
    lemma_scan_complete(f, rest);
}

/// A strict prefix of an encoding decodes as incomplete, and its expected
/// length is never wrong: pending, or already the full length.
pub proof fn lemma_prefix_incomplete(f: FrameV, k: int)
    requires
        wf_frame(f),
        0 <= k < spec_encode(f).len(),
    ensures
        spec_value(spec_encode(f).take(k)) == Parsed::<FrameV>::Pending,
        spec_scan(spec_encode(f).take(k)) == Parsed::<()>::Pending || spec_scan(
            spec_encode(f).take(k),
        ) == Parsed::<()>::Found((), spec_encode(f).len() as int),
{
    lemma_value_prefix(f, k);
    lemma_scan_prefix(f, k);
}

/// Integers round-trip over the whole signed 64-bit range, and the payload
/// always starts with an explicit sign byte.
pub proof fn lemma_integer_round_trip(n: int, rest: Seq<u8>)
    requires
        i64::MIN <= n <= i64::MAX,
    ensures
        spec_value(spec_encode(FrameV::Integer(n)) + rest) == Parsed::Found(
            FrameV::Integer(n),
            spec_encode(FrameV::Integer(n)).len() as int,
        ),
        is_sign_byte(spec_encode(FrameV::Integer(n))[1]),
        spec_encode(FrameV::Integer(n))[1] == 43 <==> n >= 0,
{
    lemma_value_complete(FrameV::Integer(n), rest);
    lemma_int_wire_roundtrip(n);
    let e = spec_encode(FrameV::Integer(n));
    assert(e[1] == int_wire(n)[0]);
}

/// The null bulk string and the empty bulk string have different wire forms
/// and decode to different frames; likewise the null and the empty array.
pub proof fn lemma_null_forms_distinct()
    ensures
        spec_encode(FrameV::NullBulkString) != spec_encode(FrameV::BulkString(Seq::empty())),
        spec_encode(FrameV::NullArray) != spec_encode(FrameV::Array(Seq::empty())),
        spec_value(spec_encode(FrameV::NullBulkString)) == Parsed::Found(FrameV::NullBulkString, 5),
        spec_value(spec_encode(FrameV::BulkString(Seq::empty()))) == Parsed::Found(
            FrameV::BulkString(Seq::empty()),
            6,
        ),
        spec_value(spec_encode(FrameV::NullArray)) == Parsed::Found(FrameV::NullArray, 5),
        spec_value(spec_encode(FrameV::Array(Seq::empty()))) == Parsed::Found(
            FrameV::Array(Seq::empty()),
            4,
        ),
{
    let empty_bulk = FrameV::BulkString(Seq::empty());
    let empty_arr = FrameV::Array(Seq::empty());
    lemma_digits_crlf_free(0);
    assert(dec_digits(0) =~= seq![48u8]);
    assert(spec_encode(empty_bulk).len() == 6);
    assert(spec_encode(empty_arr).len() == 4);
    assert(wf_frame(empty_bulk));
    assert(wf_frame(empty_arr)) by {
        assert(wf_frames(Seq::empty()));
    }
    lemma_value_complete(FrameV::NullBulkString, Seq::empty());
    assert(spec_encode(FrameV::NullBulkString) + Seq::<u8>::empty() =~= spec_encode(
        FrameV::NullBulkString,
    ));
    lemma_value_complete(empty_bulk, Seq::empty());
    assert(spec_encode(empty_bulk) + Seq::<u8>::empty() =~= spec_encode(empty_bulk));
    lemma_value_complete(FrameV::NullArray, Seq::empty());
    assert(spec_encode(FrameV::NullArray) + Seq::<u8>::empty() =~= spec_encode(FrameV::NullArray));
    lemma_value_complete(empty_arr, Seq::empty());
    assert(spec_encode(empty_arr) + Seq::<u8>::empty() =~= spec_encode(empty_arr));
}

} // verus!
