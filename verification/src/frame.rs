//! The frame model: one variant per wire type, an exec representation and a
//! ghost view of each, and the well-formedness that round-tripping needs.
use crate::text::is_float_text;
use vstd::prelude::*;
use vstd::utf8::encode_scalar;
use vstd::utf8::encode_utf8;

verus! {

/// Ghost value of a frame: what the contracts speak about.
pub enum FrameV {
    SimpleString(Seq<char>),
    SimpleError(Seq<char>),
    Integer(int),
    BulkString(Seq<u8>),
    NullBulkString,
    Array(Seq<FrameV>),
    NullArray,
    Null,
    Boolean(bool),
    Double(Seq<char>),
    MapFrame(Seq<(Seq<char>, FrameV)>),
    SetFrame(Seq<FrameV>),
}

// ---------------------------------------------------------------------------
// Exec types
// ---------------------------------------------------------------------------
#[derive(Debug, PartialEq)]
pub struct SimpleString(pub String);

#[derive(Debug, PartialEq)]
pub struct SimpleError(pub String);

#[derive(Debug, PartialEq)]
pub struct BulkString(pub Vec<u8>);

#[derive(Debug, Clone, PartialEq)]
pub struct RespNullBulkString;

#[derive(Debug, Clone, PartialEq)]
pub struct RespNullArray;

#[derive(Debug, Clone, PartialEq)]
pub struct RespNull;

#[derive(Debug, PartialEq)]
pub struct RespArray(pub Vec<RespFrame>);

#[derive(Debug, PartialEq)]
pub struct RespSet(pub Vec<RespFrame>);

/// Entries stay in insertion order; the codec asserts no deduplication.
#[derive(Debug, PartialEq)]
pub struct RespMap(pub Vec<(String, RespFrame)>);

#[derive(Debug, PartialEq)]
pub enum RespFrame {
    SimpleString(SimpleString),
    SimpleError(SimpleError),
    Integer(i64),
    BulkString(BulkString),
    NullBulkString(RespNullBulkString),
    Array(RespArray),
    NullArray(RespNullArray),
    Null(RespNull),
    Boolean(bool),
    Double(String),
    MapFrame(RespMap),
    SetFrame(RespSet),
}

// ---------------------------------------------------------------------------
// Views
// ---------------------------------------------------------------------------
pub open spec fn frame_view(f: RespFrame) -> FrameV
    decreases f,
{
    match f {
        RespFrame::SimpleString(s) => FrameV::SimpleString(s.0@),
        RespFrame::SimpleError(s) => FrameV::SimpleError(s.0@),
        RespFrame::Integer(n) => FrameV::Integer(n as int),
        RespFrame::BulkString(b) => FrameV::BulkString(b.0@),
        RespFrame::NullBulkString(_) => FrameV::NullBulkString,
        RespFrame::Array(a) => FrameV::Array(frame_views(a.0@)),
        RespFrame::NullArray(_) => FrameV::NullArray,
        RespFrame::Null(_) => FrameV::Null,
        RespFrame::Boolean(b) => FrameV::Boolean(b),
        RespFrame::Double(t) => FrameV::Double(t@),
        RespFrame::MapFrame(m) => FrameV::MapFrame(entry_views(m.0@)),
        RespFrame::SetFrame(s) => FrameV::SetFrame(frame_views(s.0@)),
    }
}

pub open spec fn frame_views(v: Seq<RespFrame>) -> Seq<FrameV>
    decreases v,
{
    if v.len() == 0 {
        Seq::empty()
    } else {
        seq![frame_view(v[0])] + frame_views(v.drop_first())
    }
}

pub open spec fn entry_views(v: Seq<(String, RespFrame)>) -> Seq<(Seq<char>, FrameV)>
    decreases v,
{
    if v.len() == 0 {
        Seq::empty()
    } else {
        seq![(v[0].0@, frame_view(v[0].1))] + entry_views(v.drop_first())
    }
}

pub proof fn lemma_frame_views(v: Seq<RespFrame>)
    ensures
        frame_views(v).len() == v.len(),
        forall|i: int| 0 <= i < v.len() ==> frame_views(v)[i] == frame_view(v[i]),
    decreases v.len(),
{
    if v.len() > 0 {
        lemma_frame_views(v.drop_first());
    }
}

pub proof fn lemma_entry_views(v: Seq<(String, RespFrame)>)
    ensures
        entry_views(v).len() == v.len(),
        forall|i: int| 0 <= i < v.len() ==> entry_views(v)[i] == (v[i].0@, frame_view(v[i].1)),
    decreases v.len(),
{
    if v.len() > 0 {
        lemma_entry_views(v.drop_first());
    }
}

impl View for SimpleString {
    type V = Seq<char>;

    open spec fn view(&self) -> Seq<char> {
        self.0@
    }
}

impl View for SimpleError {
    type V = Seq<char>;

    open spec fn view(&self) -> Seq<char> {
        self.0@
    }
}

impl View for BulkString {
    type V = Seq<u8>;

    open spec fn view(&self) -> Seq<u8> {
        self.0@
    }
}

impl View for RespArray {
    type V = Seq<FrameV>;

    open spec fn view(&self) -> Seq<FrameV> {
        frame_views(self.0@)
    }
}

impl View for RespSet {
    type V = Seq<FrameV>;

    open spec fn view(&self) -> Seq<FrameV> {
        frame_views(self.0@)
    }
}

impl View for RespMap {
    type V = Seq<(Seq<char>, FrameV)>;

    open spec fn view(&self) -> Seq<(Seq<char>, FrameV)> {
        entry_views(self.0@)
    }
}

impl View for RespFrame {
    type V = FrameV;

    open spec fn view(&self) -> FrameV {
        frame_view(*self)
    }
}

// ---------------------------------------------------------------------------
// Constructors
// ---------------------------------------------------------------------------
impl SimpleString {
    pub fn new(s: String) -> (r: Self)
        ensures
            r@ == s@,
    {
        SimpleString(s)
    }
}

impl SimpleError {
    pub fn new(s: String) -> (r: Self)
        ensures
            r@ == s@,
    {
        SimpleError(s)
    }
}

impl BulkString {
    pub fn new(b: Vec<u8>) -> (r: Self)
        ensures
            r@ == b@,
    {
        BulkString(b)
    }
}

impl RespArray {
    pub fn new(arr: Vec<RespFrame>) -> (r: Self)
        ensures
            r@ == frame_views(arr@),
    {
        RespArray(arr)
    }

    pub fn len(&self) -> (r: usize)
        ensures
            r == self@.len(),
    {
        proof {
            lemma_frame_views(self.0@);
        }
        self.0.len()
    }
}

impl RespSet {
    pub fn new(s: Vec<RespFrame>) -> (r: Self)
        ensures
            r@ == frame_views(s@),
    {
        RespSet(s)
    }
}

impl RespMap {
    pub fn new() -> (r: Self)
        ensures
            r@ == Seq::<(Seq<char>, FrameV)>::empty(),
    {
        let v: Vec<(String, RespFrame)> = Vec::new();
        proof {
            assert(entry_views(v@) =~= Seq::<(Seq<char>, FrameV)>::empty());
        }
        RespMap(v)
    }

    /// Appends an entry; the wire format is ordered and keeps duplicates.
    pub fn insert(&mut self, key: String, value: RespFrame)
        ensures
            final(self)@ == old(self)@.push((key@, frame_view(value))),
    {
        proof {
            lemma_entry_views(self.0@.push((key, value)));
            lemma_entry_views(self.0@);
        }
        let ghost before = self.0@;
        self.0.push((key, value));
        proof {
            assert(entry_views(before.push((key, value))) =~= entry_views(before).push(
                (key@, frame_view(value))));
        }
    }
}

// ---------------------------------------------------------------------------
// Cloning, with the view preserved
// ---------------------------------------------------------------------------
impl Clone for RespFrame {
    fn clone(&self) -> (r: Self)
        ensures
            r@ == self@,
        decreases *self,
    {
        match self {
            RespFrame::SimpleString(s) => RespFrame::SimpleString(SimpleString(s.0.clone())),
            RespFrame::SimpleError(s) => RespFrame::SimpleError(SimpleError(s.0.clone())),
            RespFrame::Integer(n) => RespFrame::Integer(*n),
            RespFrame::BulkString(b) => RespFrame::BulkString(
                BulkString(vstd::slice::slice_to_vec(b.0.as_slice())),
            ),
            RespFrame::NullBulkString(_) => RespFrame::NullBulkString(RespNullBulkString),
            RespFrame::Array(a) => RespFrame::Array(RespArray(clone_frame_list(&a.0))),
            RespFrame::NullArray(_) => RespFrame::NullArray(RespNullArray),
            RespFrame::Null(_) => RespFrame::Null(RespNull),
            RespFrame::Boolean(b) => RespFrame::Boolean(*b),
            RespFrame::Double(t) => RespFrame::Double(t.clone()),
            RespFrame::MapFrame(m) => RespFrame::MapFrame(RespMap(clone_entry_list(&m.0))),
            RespFrame::SetFrame(s) => RespFrame::SetFrame(RespSet(clone_frame_list(&s.0))),
        }
    }
}

pub fn clone_frame_list(v: &Vec<RespFrame>) -> (r: Vec<RespFrame>)
    ensures
        frame_views(r@) == frame_views(v@),
    decreases v@,
{
    let mut out: Vec<RespFrame> = Vec::new();
    let mut i: usize = 0;
    while i < v.len()
        invariant
            0 <= i <= v@.len(),
            out@.len() == i as int,
            forall|j: int| 0 <= j < i ==> frame_view(out@[j]) == frame_view(#[trigger] v@[j]),
        decreases v@.len() - i,
    {
        proof {
            assert(decreases_to!(v@ => v@[i as int]));
        }
        let c = v[i].clone();
        out.push(c);
        i += 1;
    }
    proof {
        lemma_frame_views(out@);
        lemma_frame_views(v@);
        assert(frame_views(out@) =~= frame_views(v@));
    }
    out
}

pub fn clone_entry_list(v: &Vec<(String, RespFrame)>) -> (r: Vec<(String, RespFrame)>)
    ensures
        entry_views(r@) == entry_views(v@),
    decreases v@,
{
    let mut out: Vec<(String, RespFrame)> = Vec::new();
    let mut i: usize = 0;
    while i < v.len()
        invariant
            0 <= i <= v@.len(),
            out@.len() == i as int,
            forall|j: int|
                0 <= j < i ==> (#[trigger] out@[j]).0@ == v@[j].0@ && frame_view(out@[j].1)
                    == frame_view(v@[j].1),
        decreases v@.len() - i,
    {
        proof {
            assert(decreases_to!(v@ => v@[i as int]));
            assert(decreases_to!(v@[i as int] => v@[i as int].1));
        }
        let key = v[i].0.clone();
        let value = v[i].1.clone();
        out.push((key, value));
        i += 1;
    }
    proof {
        lemma_entry_views(out@);
        lemma_entry_views(v@);
        assert(entry_views(out@) =~= entry_views(v@));
    }
    out
}

// ---------------------------------------------------------------------------
// Well-formedness: the frames the encoder can emit without breaking a line
// ---------------------------------------------------------------------------
/// Line payloads must not contain a carriage return or line feed.
pub open spec fn line_text_ok(s: Seq<char>) -> bool {
    forall|i: int| 0 <= i < s.len() ==> #[trigger] s[i] != '\r' && s[i] != '\n'
}

pub open spec fn wf_frame(f: FrameV) -> bool
    decreases f,
{
    match f {
        FrameV::SimpleString(s) => line_text_ok(s),
        FrameV::SimpleError(s) => line_text_ok(s),
        FrameV::Integer(n) => i64::MIN <= n <= i64::MAX,
        FrameV::BulkString(b) => b.len() + 25 <= usize::MAX,
        FrameV::NullBulkString => true,
        FrameV::Array(items) => items.len() <= usize::MAX && wf_frames(items),
        FrameV::NullArray => true,
        FrameV::Null => true,
        FrameV::Boolean(_) => true,
        FrameV::Double(t) => is_float_text(encode_utf8(t)),
        FrameV::MapFrame(entries) => entries.len() <= usize::MAX && wf_entries(entries),
        FrameV::SetFrame(items) => items.len() <= usize::MAX && wf_frames(items),
    }
}

pub open spec fn wf_frames(items: Seq<FrameV>) -> bool
    decreases items,
{
    if items.len() == 0 {
        true
    } else {
        wf_frame(items[0]) && wf_frames(items.drop_first())
    }
}

pub open spec fn wf_entries(entries: Seq<(Seq<char>, FrameV)>) -> bool
    decreases entries,
{
    if entries.len() == 0 {
        true
    } else {
        line_text_ok(entries[0].0) && wf_frame(entries[0].1) && wf_entries(entries.drop_first())
    }
}

pub proof fn lemma_wf_frames_index(items: Seq<FrameV>)
    requires
        wf_frames(items),
    ensures
        forall|i: int| 0 <= i < items.len() ==> wf_frame(#[trigger] items[i]),
    decreases items.len(),
{
    if items.len() > 0 {
        lemma_wf_frames_index(items.drop_first());
        assert forall|i: int| 0 <= i < items.len() implies wf_frame(#[trigger] items[i]) by {
            if i > 0 {
                assert(items.drop_first()[i - 1] == items[i]);
            }
        }
    }
}

pub proof fn lemma_wf_entries_index(entries: Seq<(Seq<char>, FrameV)>)
    requires
        wf_entries(entries),
    ensures
        forall|i: int|
            0 <= i < entries.len() ==> line_text_ok((#[trigger] entries[i]).0) && wf_frame(
                entries[i].1,
            ),
    decreases entries.len(),
{
    if entries.len() > 0 {
        lemma_wf_entries_index(entries.drop_first());
        assert forall|i: int|
            0 <= i < entries.len() implies line_text_ok((#[trigger] entries[i]).0) && wf_frame(
            entries[i].1,
        ) by {
            if i > 0 {
                assert(entries.drop_first()[i - 1] == entries[i]);
            }
        }
    }
}

// ---------------------------------------------------------------------------
// CRLF-freedom of encoded line payloads
// ---------------------------------------------------------------------------
proof fn lemma_encode_scalar_no_crlf(c: char)
    requires
        c != '\r',
        c != '\n',
    ensures
        forall|i: int|
            0 <= i < encode_scalar(c as u32).len() ==> #[trigger] encode_scalar(c as u32)[i] != 13
                && encode_scalar(c as u32)[i] != 10,
{
    let u = c as u32;
    vstd::utf8::char_is_scalar(c);
    if vstd::utf8::has_width_1_encoding(u) {
        if (u & 0x7F) as u8 == 13 || (u & 0x7F) as u8 == 10 {
            assert(u == 13 || u == 10) by (bit_vector)
                requires
                    u < 0x80 && ((u & 0x7F) as u8 == 13 || (u & 0x7F) as u8 == 10);
            vstd::utf8::char_u32_cast(c, u);
            vstd::utf8::char_u32_cast('\r', '\r' as u32);
            vstd::utf8::char_u32_cast('\n', '\n' as u32);
            assert(false);
        }
    } else {
        assert(forall|x: u32|
            (0xC0u8 | ((x >> 6) & 0x1F) as u8) >= 0x80 && (0xE0u8 | ((x >> 12) & 0x0F) as u8)
                >= 0x80 && (0xF0u8 | ((x >> 18) & 0x07) as u8) >= 0x80 && (0x80u8 | (x & 0x3F) as u8)
                >= 0x80 && (0x80u8 | ((x >> 6) & 0x3F) as u8) >= 0x80 && (0x80u8 | ((x >> 12)
                & 0x3F) as u8) >= 0x80) by (bit_vector);
    }
}

/// An encoded line payload without CR or LF characters has no CR or LF bytes.
pub proof fn lemma_encode_utf8_no_crlf(t: Seq<char>)
    requires
        line_text_ok(t),
    ensures
        forall|i: int|
            0 <= i < encode_utf8(t).len() ==> #[trigger] encode_utf8(t)[i] != 13 && encode_utf8(
                t,
            )[i] != 10,
    decreases t.len(),
{
    if t.len() > 0 {
        let head = encode_scalar(t[0] as u32);
        let tail = encode_utf8(t.drop_first());
        lemma_encode_scalar_no_crlf(t[0]);
        assert(line_text_ok(t.drop_first())) by {
            assert(forall|i: int|
                0 <= i < t.len() - 1 ==> t.drop_first()[i] == #[trigger] t[i + 1]);
        }
        lemma_encode_utf8_no_crlf(t.drop_first());
        assert forall|i: int|
            0 <= i < encode_utf8(t).len() implies #[trigger] encode_utf8(t)[i] != 13 && encode_utf8(
            t,
        )[i] != 10 by {
            assert(encode_utf8(t) == head + tail);
            if i < head.len() {
                assert(encode_utf8(t)[i] == head[i]);
            } else {
                assert(encode_utf8(t)[i] == tail[i - head.len()]);
            }
        }
    }
}

} // verus!
