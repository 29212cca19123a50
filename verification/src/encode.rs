//! Encoding: a total function from frames to wire bytes, stated first as a
//! spec function and then proved of the executable writer.
use crate::frame::FrameV;
use crate::frame::RespArray;
use crate::frame::RespFrame;
use crate::frame::RespMap;
use crate::frame::RespNull;
use crate::frame::RespNullArray;
use crate::frame::RespNullBulkString;
use crate::frame::RespSet;
use crate::frame::BulkString;
use crate::frame::SimpleError;
use crate::frame::SimpleString;
use crate::frame::entry_views;
use crate::frame::frame_view;
use crate::frame::frame_views;
use crate::frame::lemma_entry_views;
use crate::frame::lemma_frame_views;
use crate::text::dec_digits;
use crate::text::int_wire;
use crate::text::push_decimal_usize;
use crate::text::push_int_wire;
use vstd::prelude::*;
use vstd::utf8::encode_utf8;

verus! {

pub open spec fn crlf() -> Seq<u8> {
    seq![13u8, 10u8]
}

pub open spec fn encode_line(prefix: u8, payload: Seq<u8>) -> Seq<u8> {
    seq![prefix] + payload + crlf()
}

pub open spec fn null_bulk_wire() -> Seq<u8> {
    seq![36u8, 45u8, 49u8, 13u8, 10u8]
}

pub open spec fn null_array_wire() -> Seq<u8> {
    seq![42u8, 45u8, 49u8, 13u8, 10u8]
}

/// The wire bytes of a frame. Total: every frame value has an encoding.
pub open spec fn spec_encode(f: FrameV) -> Seq<u8>
    decreases f,
{
    match f {
        FrameV::SimpleString(s) => encode_line(43, encode_utf8(s)),
        FrameV::SimpleError(s) => encode_line(45, encode_utf8(s)),
        FrameV::Integer(n) => seq![58u8] + int_wire(n) + crlf(),
        FrameV::BulkString(b) => seq![36u8] + dec_digits(b.len()) + crlf() + b + crlf(),
        FrameV::NullBulkString => null_bulk_wire(),
        FrameV::Array(items) => seq![42u8] + dec_digits(items.len()) + crlf() + encode_items(items),
        FrameV::NullArray => null_array_wire(),
        FrameV::Null => seq![95u8, 13u8, 10u8],
        FrameV::Boolean(b) => if b {
            seq![35u8, 116u8, 13u8, 10u8]
        } else {
            seq![35u8, 102u8, 13u8, 10u8]
        },
        FrameV::Double(t) => encode_line(44, encode_utf8(t)),
        FrameV::MapFrame(entries) => seq![37u8] + dec_digits(entries.len()) + crlf()
            + encode_entries(entries),
        FrameV::SetFrame(items) => seq![126u8] + dec_digits(items.len()) + crlf() + encode_items(
            items,
        ),
    }
}

/// Concatenated encodings of a run of frames.
pub open spec fn encode_items(items: Seq<FrameV>) -> Seq<u8>
    decreases items,
{
    if items.len() == 0 {
        Seq::empty()
    } else {
        spec_encode(items[0]) + encode_items(items.drop_first())
    }
}

/// Concatenated encodings of map entries: simple-string key, then value.
pub open spec fn encode_entries(entries: Seq<(Seq<char>, FrameV)>) -> Seq<u8>
    decreases entries,
{
    if entries.len() == 0 {
        Seq::empty()
    } else {
        encode_line(43, encode_utf8(entries[0].0)) + spec_encode(entries[0].1) + encode_entries(
            entries.drop_first(),
        )
    }
}

pub proof fn lemma_encode_items_snoc(items: Seq<FrameV>, i: int)
    requires
        0 <= i < items.len(),
    ensures
        encode_items(items.take(i + 1)) == encode_items(items.take(i)) + spec_encode(items[i]),
    decreases i,
{
    if i == 0 {
        assert(items.take(0) =~= Seq::<FrameV>::empty());
        let one = items.take(1);
        assert(one.len() == 1 && one[0] == items[0]);
        assert(one.drop_first() =~= Seq::<FrameV>::empty());
        assert(encode_items(Seq::<FrameV>::empty()) == Seq::<u8>::empty());
        assert(encode_items(one) == spec_encode(items[0]) + Seq::<u8>::empty());
        assert(encode_items(one) =~= Seq::<u8>::empty() + spec_encode(items[0]));
    } else {
        let d = items.drop_first();
        lemma_encode_items_snoc(d, i - 1);
        assert(items.take(i + 1).drop_first() =~= d.take(i));
        assert(items.take(i).drop_first() =~= d.take(i - 1));
        assert(items.take(i + 1)[0] == items[0]);
        assert(items.take(i)[0] == items[0]);
        assert(d[i - 1] == items[i]);
        assert(encode_items(items.take(i + 1)) == spec_encode(items[0]) + encode_items(d.take(i)));
        assert(encode_items(items.take(i)) == spec_encode(items[0]) + encode_items(d.take(i - 1)));
        assert(spec_encode(items[0]) + (encode_items(d.take(i - 1)) + spec_encode(items[i])) =~= (
        spec_encode(items[0]) + encode_items(d.take(i - 1))) + spec_encode(items[i]));
    }
}

pub proof fn lemma_encode_entries_snoc(entries: Seq<(Seq<char>, FrameV)>, i: int)
    requires
        0 <= i < entries.len(),
    ensures
        encode_entries(entries.take(i + 1)) == encode_entries(entries.take(i)) + (encode_line(
            43,
            encode_utf8(entries[i].0),
        ) + spec_encode(entries[i].1)),
    decreases i,
{
    if i == 0 {
        assert(entries.take(0) =~= Seq::<(Seq<char>, FrameV)>::empty());
        let one = entries.take(1);
        assert(one.len() == 1 && one[0] == entries[0]);
        assert(one.drop_first() =~= Seq::<(Seq<char>, FrameV)>::empty());
        let piece = encode_line(43, encode_utf8(entries[0].0)) + spec_encode(entries[0].1);
        assert(encode_entries(Seq::<(Seq<char>, FrameV)>::empty()) == Seq::<u8>::empty());
        assert(encode_entries(one) == piece + Seq::<u8>::empty());
        assert(encode_entries(one) =~= Seq::<u8>::empty() + piece);
    } else {
        let d = entries.drop_first();
        lemma_encode_entries_snoc(d, i - 1);
        assert(entries.take(i + 1).drop_first() =~= d.take(i));
        assert(entries.take(i).drop_first() =~= d.take(i - 1));
        assert(entries.take(i + 1)[0] == entries[0]);
        assert(entries.take(i)[0] == entries[0]);
        assert(d[i - 1] == entries[i]);
        let head = encode_line(43, encode_utf8(entries[0].0)) + spec_encode(entries[0].1);
        let piece = encode_line(43, encode_utf8(entries[i].0)) + spec_encode(entries[i].1);
        assert(encode_entries(entries.take(i + 1)) == head + encode_entries(d.take(i)));
        assert(encode_entries(entries.take(i)) == head + encode_entries(d.take(i - 1)));
        assert(head + (encode_entries(d.take(i - 1)) + piece) =~= (head + encode_entries(
            d.take(i - 1),
        )) + piece);
    }
}

// ---------------------------------------------------------------------------
// Executable writers
// ---------------------------------------------------------------------------
fn push_bytes(out: &mut Vec<u8>, s: &[u8])
    ensures
        final(out)@ == old(out)@ + s@,
{
    let mut i: usize = 0;
    while i < s.len()
        invariant
            0 <= i <= s@.len(),
            out@ == old(out)@ + s@.take(i as int),
        decreases s@.len() - i,
    {
        out.push(s[i]);
        proof {
            assert(old(out)@ + s@.take(i as int + 1) =~= (old(out)@ + s@.take(i as int)).push(
                s@[i as int]));
        }
        i += 1;
    }
    proof {
        assert(s@.take(s@.len() as int) =~= s@);
    }
}

fn push_crlf(out: &mut Vec<u8>)
    ensures
        final(out)@ == old(out)@ + crlf(),
{
    out.push(13);
    out.push(10);
    proof {
        assert(final(out)@ =~= old(out)@ + crlf());
    }
}

/// Appends the UTF-8 bytes of `s`.
fn push_str_bytes(out: &mut Vec<u8>, s: &String)
    ensures
        final(out)@ == old(out)@ + encode_utf8(s@),
{
    let bs = s.as_str().as_bytes();
    push_bytes(out, bs);
}

/// Appends the encoding of `f` to `out`.
pub fn write_frame(f: &RespFrame, out: &mut Vec<u8>)
    ensures
        final(out)@ == old(out)@ + spec_encode(frame_view(*f)),
    decreases *f,
{
    match f {
        RespFrame::SimpleString(s) => {
            out.push(43);
            push_str_bytes(out, &s.0);
            push_crlf(out);
            proof {
                assert(final(out)@ =~= old(out)@ + spec_encode(frame_view(*f)));
            }
        },
        RespFrame::SimpleError(s) => {
            out.push(45);
            push_str_bytes(out, &s.0);
            push_crlf(out);
            proof {
                assert(final(out)@ =~= old(out)@ + spec_encode(frame_view(*f)));
            }
        },
        RespFrame::Integer(n) => {
            out.push(58);
            push_int_wire(out, *n);
            push_crlf(out);
            proof {
                assert(final(out)@ =~= old(out)@ + spec_encode(frame_view(*f)));
            }
        },
        RespFrame::BulkString(b) => {
            out.push(36);
            push_decimal_usize(out, b.0.len());
            push_crlf(out);
            push_bytes(out, b.0.as_slice());
            push_crlf(out);
            proof {
                assert(final(out)@ =~= old(out)@ + spec_encode(frame_view(*f)));
            }
        },
        RespFrame::NullBulkString(_) => {
            push_bytes(out, &[36, 45, 49, 13, 10]);
            proof {
                assert(final(out)@ =~= old(out)@ + spec_encode(frame_view(*f)));
            }
        },
        RespFrame::Array(a) => {
            out.push(42);
            push_decimal_usize(out, a.0.len());
            push_crlf(out);
            write_items(&a.0, out);
            proof {
                lemma_frame_views(a.0@);
                assert(final(out)@ =~= old(out)@ + spec_encode(frame_view(*f)));
            }
        },
        RespFrame::NullArray(_) => {
            push_bytes(out, &[42, 45, 49, 13, 10]);
            proof {
                assert(final(out)@ =~= old(out)@ + spec_encode(frame_view(*f)));
            }
        },
        RespFrame::Null(_) => {
            push_bytes(out, &[95, 13, 10]);
            proof {
                assert(final(out)@ =~= old(out)@ + spec_encode(frame_view(*f)));
            }
        },
        RespFrame::Boolean(b) => {
            if *b {
                push_bytes(out, &[35, 116, 13, 10]);
            } else {
                push_bytes(out, &[35, 102, 13, 10]);
            }
            proof {
                assert(final(out)@ =~= old(out)@ + spec_encode(frame_view(*f)));
            }
        },
        RespFrame::Double(t) => {
            out.push(44);
            push_str_bytes(out, t);
            push_crlf(out);
            proof {
                assert(final(out)@ =~= old(out)@ + spec_encode(frame_view(*f)));
            }
        },
        RespFrame::MapFrame(m) => {
            out.push(37);
            push_decimal_usize(out, m.0.len());
            push_crlf(out);
            write_entries(&m.0, out);
            proof {
                lemma_entry_views(m.0@);
                assert(final(out)@ =~= old(out)@ + spec_encode(frame_view(*f)));
            }
        },
        RespFrame::SetFrame(s) => {
            out.push(126);
            push_decimal_usize(out, s.0.len());
            push_crlf(out);
            write_items(&s.0, out);
            proof {
                lemma_frame_views(s.0@);
                assert(final(out)@ =~= old(out)@ + spec_encode(frame_view(*f)));
            }
        },
    }
}

/// Appends the encodings of all frames in `v`, in order.
fn write_items(v: &Vec<RespFrame>, out: &mut Vec<u8>)
    ensures
        final(out)@ == old(out)@ + encode_items(frame_views(v@)),
    decreases v@,
{
    let ghost views = frame_views(v@);
    proof {
        lemma_frame_views(v@);
        assert(views.take(0) =~= Seq::<FrameV>::empty());
    }
    let mut i: usize = 0;
    while i < v.len()
        invariant
            0 <= i <= v@.len(),
            views == frame_views(v@),
            views.len() == v@.len(),
            forall|j: int| 0 <= j < v@.len() ==> views[j] == frame_view(v@[j]),
            out@ == old(out)@ + encode_items(views.take(i as int)),
        decreases v@.len() - i,
    {
        proof {
            assert(decreases_to!(v@ => v@[i as int]));
        }
        write_frame(&v[i], out);
        proof {
            lemma_encode_items_snoc(views, i as int);
            assert(old(out)@ + encode_items(views.take(i as int + 1)) =~= (old(out)@
                + encode_items(views.take(i as int))) + spec_encode(views[i as int]));
        }
        i += 1;
    }
    proof {
        assert(views.take(v@.len() as int) =~= views);
    }
}

/// Appends the encodings of all map entries in `v`, in order.
fn write_entries(v: &Vec<(String, RespFrame)>, out: &mut Vec<u8>)
    ensures
        final(out)@ == old(out)@ + encode_entries(entry_views(v@)),
    decreases v@,
{
    let ghost views = entry_views(v@);
    proof {
        lemma_entry_views(v@);
        assert(views.take(0) =~= Seq::<(Seq<char>, FrameV)>::empty());
    }
    let mut i: usize = 0;
    while i < v.len()
        invariant
            0 <= i <= v@.len(),
            views == entry_views(v@),
            views.len() == v@.len(),
            forall|j: int|
                0 <= j < v@.len() ==> views[j] == ((#[trigger] v@[j]).0@, frame_view(v@[j].1)),
            out@ == old(out)@ + encode_entries(views.take(i as int)),
        decreases v@.len() - i,
    {
        proof {
            assert(decreases_to!(v@ => v@[i as int]));
            assert(decreases_to!(v@[i as int] => v@[i as int].1));
        }
        out.push(43);
        push_str_bytes(out, &v[i].0);
        push_crlf(out);
        write_frame(&v[i].1, out);
        proof {
            lemma_encode_entries_snoc(views, i as int);
            let piece = encode_line(43, encode_utf8(views[i as int].0)) + spec_encode(
                views[i as int].1,
            );
            assert(old(out)@ + encode_entries(views.take(i as int + 1)) =~= (old(out)@
                + encode_entries(views.take(i as int))) + piece);
            assert(out@ =~= old(out)@ + encode_entries(views.take(i as int + 1)));
        }
        i += 1;
    }
    proof {
        assert(views.take(v@.len() as int) =~= views);
    }
}

// ---------------------------------------------------------------------------
// The public encoding trait
// ---------------------------------------------------------------------------
pub trait RespEncode: Sized {
    spec fn enc_view(&self) -> FrameV;

    /// Consumes the value and returns its wire bytes. Encoding never fails.
    fn encode(self) -> (r: Vec<u8>)
        ensures
            r@ == spec_encode(self.enc_view()),
    ;
}

fn encode_one(f: &RespFrame) -> (r: Vec<u8>)
    ensures
        r@ == spec_encode(frame_view(*f)),
{
    let mut out: Vec<u8> = Vec::new();
    write_frame(f, &mut out);
    proof {
        assert(Seq::<u8>::empty() + spec_encode(frame_view(*f)) =~= spec_encode(frame_view(*f)));
    }
    out
}

impl RespEncode for RespFrame {
    open spec fn enc_view(&self) -> FrameV {
        frame_view(*self)
    }

    fn encode(self) -> (r: Vec<u8>) {
        encode_one(&self)
    }
}

impl RespEncode for SimpleString {
    open spec fn enc_view(&self) -> FrameV {
        FrameV::SimpleString(self@)
    }

    fn encode(self) -> (r: Vec<u8>) {
        encode_one(&RespFrame::SimpleString(self))
    }
}

impl RespEncode for SimpleError {
    open spec fn enc_view(&self) -> FrameV {
        FrameV::SimpleError(self@)
    }

    fn encode(self) -> (r: Vec<u8>) {
        encode_one(&RespFrame::SimpleError(self))
    }
}

impl RespEncode for i64 {
    open spec fn enc_view(&self) -> FrameV {
        FrameV::Integer(*self as int)
    }

    fn encode(self) -> (r: Vec<u8>) {
        encode_one(&RespFrame::Integer(self))
    }
}

impl RespEncode for BulkString {
    open spec fn enc_view(&self) -> FrameV {
        FrameV::BulkString(self@)
    }

    fn encode(self) -> (r: Vec<u8>) {
        encode_one(&RespFrame::BulkString(self))
    }
}

impl RespEncode for RespNullBulkString {
    open spec fn enc_view(&self) -> FrameV {
        FrameV::NullBulkString
    }

    fn encode(self) -> (r: Vec<u8>) {
        encode_one(&RespFrame::NullBulkString(self))
    }
}

impl RespEncode for RespArray {
    open spec fn enc_view(&self) -> FrameV {
        FrameV::Array(self@)
    }

    fn encode(self) -> (r: Vec<u8>) {
        encode_one(&RespFrame::Array(self))
    }
}

impl RespEncode for RespNullArray {
    open spec fn enc_view(&self) -> FrameV {
        FrameV::NullArray
    }

    fn encode(self) -> (r: Vec<u8>) {
        encode_one(&RespFrame::NullArray(self))
    }
}

impl RespEncode for RespNull {
    open spec fn enc_view(&self) -> FrameV {
        FrameV::Null
    }

    fn encode(self) -> (r: Vec<u8>) {
        encode_one(&RespFrame::Null(self))
    }
}

impl RespEncode for bool {
    open spec fn enc_view(&self) -> FrameV {
        FrameV::Boolean(*self)
    }

    fn encode(self) -> (r: Vec<u8>) {
        encode_one(&RespFrame::Boolean(self))
    }
}

impl RespEncode for RespMap {
    open spec fn enc_view(&self) -> FrameV {
        FrameV::MapFrame(self@)
    }

    fn encode(self) -> (r: Vec<u8>) {
        encode_one(&RespFrame::MapFrame(self))
    }
}

impl RespEncode for RespSet {
    open spec fn enc_view(&self) -> FrameV {
        FrameV::SetFrame(self@)
    }

    fn encode(self) -> (r: Vec<u8>) {
        encode_one(&RespFrame::SetFrame(self))
    }
}

} // verus!
