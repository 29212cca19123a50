//! The command layer: typed commands parsed from frames, arity and shape
//! validation, and execution against the backend.
use crate::backend::entries_map;
use crate::backend::upsert_entry;
use crate::backend::distinct_keys;
use crate::backend::Backend;
use crate::decode::RespError;
use crate::frame::entry_views;
use crate::frame::frame_view;
use crate::frame::frame_views;
use crate::frame::lemma_entry_views;
use crate::frame::lemma_frame_views;
use crate::frame::BulkString;
use crate::frame::FrameV;
use crate::frame::RespArray;
use crate::frame::RespFrame;
use crate::frame::RespNull;
use crate::frame::SimpleString;
use crate::text::bytes_eq;
use crate::text::bytes_less;
use crate::text::bytes_lt;
use crate::text::lemma_bytes_lt_total;
use crate::text::lemma_bytes_lt_trans;
use crate::text::lower_bytes;
use crate::text::lemma_lower_bytes_idempotent;
use crate::text::to_lower_bytes;
use vstd::prelude::*;
use vstd::string::StringExecFns;
use vstd::utf8::decode_utf8;
use vstd::utf8::encode_utf8;
use vstd::utf8::valid_utf8;

verus! {

/// Why a frame failed to parse as a command.
#[derive(Debug)]
pub enum CommandError {
    InvalidCommand(String),
    InvalidArgument(String),
    RespError(RespError),
    Utf8Error(String),
}

// ---------------------------------------------------------------------------
// Command model
// ---------------------------------------------------------------------------
/// Ghost value of a command.
pub enum CmdV {
    Get { key: Seq<char> },
    SetCmd { key: Seq<char>, value: FrameV },
    HSet { key: Seq<char>, field: Seq<char>, value: FrameV },
    HGet { key: Seq<char>, field: Seq<char> },
    HGetAll { key: Seq<char>, sort: bool },
    Unrecognized,
}

/// Outcome of parsing an array of frames as a command.
pub enum CmdParse {
    Parsed(CmdV),
    BadCommand,
    BadArgument,
    BadText,
}

pub open spec fn is_bulk(f: FrameV) -> bool {
    match f {
        FrameV::BulkString(_) => true,
        _ => false,
    }
}

pub open spec fn bulk_bytes(f: FrameV) -> Seq<u8> {
    match f {
        FrameV::BulkString(b) => b,
        _ => Seq::empty(),
    }
}

pub open spec fn get_name() -> Seq<u8> {
    encode_utf8("get"@)
}

pub open spec fn set_name() -> Seq<u8> {
    encode_utf8("set"@)
}

pub open spec fn hget_name() -> Seq<u8> {
    encode_utf8("hget"@)
}

pub open spec fn hset_name() -> Seq<u8> {
    encode_utf8("hset"@)
}

pub open spec fn hgetall_name() -> Seq<u8> {
    encode_utf8("hgetall"@)
}

/// Whether position `i` holds a bulk string whose lowered bytes are `name`.
pub open spec fn name_at(a: Seq<FrameV>, i: int, name: Seq<u8>) -> bool {
    is_bulk(a[i]) && lower_bytes(bulk_bytes(a[i])) == name
}

pub open spec fn spec_try_get(a: Seq<FrameV>) -> CmdParse {
    if a.len() != 2 {
        CmdParse::BadArgument
    } else if !name_at(a, 0, get_name()) {
        CmdParse::BadCommand
    } else if !is_bulk(a[1]) {
        CmdParse::BadArgument
    } else if !valid_utf8(bulk_bytes(a[1])) {
        CmdParse::BadText
    } else {
        CmdParse::Parsed(CmdV::Get { key: decode_utf8(bulk_bytes(a[1])) })
    }
}

pub open spec fn spec_try_set(a: Seq<FrameV>) -> CmdParse {
    if a.len() != 3 {
        CmdParse::BadArgument
    } else if !name_at(a, 0, set_name()) {
        CmdParse::BadCommand
    } else if !is_bulk(a[1]) {
        CmdParse::BadArgument
    } else if !valid_utf8(bulk_bytes(a[1])) {
        CmdParse::BadText
    } else {
        CmdParse::Parsed(CmdV::SetCmd { key: decode_utf8(bulk_bytes(a[1])), value: a[2] })
    }
}

pub open spec fn spec_try_hget(a: Seq<FrameV>) -> CmdParse {
    if a.len() != 3 {
        CmdParse::BadArgument
    } else if !name_at(a, 0, hget_name()) {
        CmdParse::BadCommand
    } else if !is_bulk(a[1]) {
        CmdParse::BadArgument
    } else if !valid_utf8(bulk_bytes(a[1])) {
        CmdParse::BadText
    } else if !is_bulk(a[2]) {
        CmdParse::BadArgument
    } else if !valid_utf8(bulk_bytes(a[2])) {
        CmdParse::BadText
    } else {
        CmdParse::Parsed(
            CmdV::HGet {
                key: decode_utf8(bulk_bytes(a[1])),
                field: decode_utf8(bulk_bytes(a[2])),
            },
        )
    }
}

pub open spec fn spec_try_hset(a: Seq<FrameV>) -> CmdParse {
    if a.len() != 4 {
        CmdParse::BadArgument
    } else if !name_at(a, 0, hset_name()) {
        CmdParse::BadCommand
    } else if !is_bulk(a[1]) {
        CmdParse::BadArgument
    } else if !valid_utf8(bulk_bytes(a[1])) {
        CmdParse::BadText
    } else if !is_bulk(a[2]) {
        CmdParse::BadArgument
    } else if !valid_utf8(bulk_bytes(a[2])) {
        CmdParse::BadText
    } else {
        CmdParse::Parsed(
            CmdV::HSet {
                key: decode_utf8(bulk_bytes(a[1])),
                field: decode_utf8(bulk_bytes(a[2])),
                value: a[3],
            },
        )
    }
}

pub open spec fn spec_try_hgetall(a: Seq<FrameV>) -> CmdParse {
    if a.len() != 2 {
        CmdParse::BadArgument
    } else if !name_at(a, 0, hgetall_name()) {
        CmdParse::BadCommand
    } else if !is_bulk(a[1]) {
        CmdParse::BadArgument
    } else if !valid_utf8(bulk_bytes(a[1])) {
        CmdParse::BadText
    } else {
        CmdParse::Parsed(CmdV::HGetAll { key: decode_utf8(bulk_bytes(a[1])), sort: false })
    }
}

/// How an array of frames parses as a command: the first bulk string picks
/// the command by its ASCII-lowered name; unknown names are accepted as
/// `Unrecognized`; a missing or non-bulk name is rejected.
pub open spec fn spec_parse_command(a: Seq<FrameV>) -> CmdParse {
    if !(a.len() >= 1 && is_bulk(a[0])) {
        CmdParse::BadCommand
    } else {
        let name = lower_bytes(bulk_bytes(a[0]));
        if name == get_name() {
            spec_try_get(a)
        } else if name == set_name() {
            spec_try_set(a)
        } else if name == hget_name() {
            spec_try_hget(a)
        } else if name == hset_name() {
            spec_try_hset(a)
        } else if name == hgetall_name() {
            spec_try_hgetall(a)
        } else {
            CmdParse::Parsed(CmdV::Unrecognized)
        }
    }
}

// ---------------------------------------------------------------------------
// Command types
// ---------------------------------------------------------------------------
#[derive(Debug)]
pub struct Get {
    pub key: String,
}

#[derive(Debug)]
pub struct SetCmd {
    pub key: String,
    pub value: RespFrame,
}

#[derive(Debug)]
pub struct HSet {
    pub key: String,
    pub field: String,
    pub value: RespFrame,
}

#[derive(Debug)]
pub struct HGet {
    pub key: String,
    pub field: String,
}

#[derive(Debug)]
pub struct HGetAll {
    pub key: String,
    pub sort: bool,
}

#[derive(Debug)]
pub struct Unrecognized;

#[derive(Debug)]
pub enum Command {
    Get(Get),
    SetCmd(SetCmd),
    HSet(HSet),
    HGet(HGet),
    HGetAll(HGetAll),
    Unrecognized(Unrecognized),
}

// ---------------------------------------------------------------------------
// Execution model
// ---------------------------------------------------------------------------
pub open spec fn ok_view() -> FrameV {
    FrameV::SimpleString("OK"@)
}

/// The reply to both stores and unknown commands.
pub fn resp_ok() -> (r: RespFrame)
    ensures
        r@ == ok_view(),
{
    RespFrame::SimpleString(SimpleString("OK".to_owned()))
}

/// A hash's entries flattened for the wire: field as a bulk string, then
/// its value, alternating.
pub open spec fn flatten_entries(es: Seq<(Seq<char>, FrameV)>) -> Seq<FrameV>
    decreases es.len(),
{
    if es.len() == 0 {
        Seq::empty()
    } else {
        seq![FrameV::BulkString(encode_utf8(es[0].0)), es[0].1] + flatten_entries(es.drop_first())
    }
}

/// Strictly ascending keys, by the bytes of their UTF-8 forms.
pub open spec fn entries_sorted(es: Seq<(Seq<char>, FrameV)>) -> bool {
    forall|i: int, j: int|
        0 <= i < j < es.len() ==> bytes_lt(
            encode_utf8((#[trigger] es[i]).0),
            encode_utf8((#[trigger] es[j]).0),
        )
}

/// What `HGetAll` returns: the hash's entries flattened, in stored order,
/// or in strictly sorted key order when the sort flag is set.
pub open spec fn hgetall_post(
    h: Map<Seq<char>, Seq<(Seq<char>, FrameV)>>,
    key: Seq<char>,
    sort: bool,
    r: FrameV,
) -> bool {
    let es = if h.contains_key(key) {
        h[key]
    } else {
        Seq::empty()
    };
    if sort {
        exists|es2: Seq<(Seq<char>, FrameV)>|
            es2.to_multiset() == es.to_multiset() && entries_sorted(es2) && r == FrameV::Array(
                flatten_entries(es2),
            )
    } else {
        r == FrameV::Array(flatten_entries(es))
    }
}

/// What executing a command does to the store and returns.
pub open spec fn execute_post(c: CmdV, pre: Backend, post: Backend, r: FrameV) -> bool {
    match c {
        CmdV::Get { key } => {
            &&& post.strings_view() == pre.strings_view()
            &&& post.hashes_view() == pre.hashes_view()
            &&& r == if pre.strings_view().contains_key(key) {
                pre.strings_view()[key]
            } else {
                FrameV::Null
            }
        },
        CmdV::SetCmd { key, value } => {
            &&& post.strings_view() == pre.strings_view().insert(key, value)
            &&& post.hashes_view() == pre.hashes_view()
            &&& r == ok_view()
        },
        CmdV::HGet { key, field } => {
            &&& post.strings_view() == pre.strings_view()
            &&& post.hashes_view() == pre.hashes_view()
            &&& r == if pre.hashes_view().contains_key(key) && entries_map(
                pre.hashes_view()[key],
            ).contains_key(field) {
                entries_map(pre.hashes_view()[key])[field]
            } else {
                FrameV::Null
            }
        },
        CmdV::HSet { key, field, value } => {
            &&& post.strings_view() == pre.strings_view()
            &&& post.hashes_view() == pre.hashes_view().insert(
                key,
                upsert_entry(
                    if pre.hashes_view().contains_key(key) {
                        pre.hashes_view()[key]
                    } else {
                        Seq::empty()
                    },
                    field,
                    value,
                ),
            )
            &&& r == ok_view()
        },
        CmdV::HGetAll { key, sort } => {
            &&& post.strings_view() == pre.strings_view()
            &&& post.hashes_view() == pre.hashes_view()
            &&& hgetall_post(pre.hashes_view(), key, sort, r)
        },
        CmdV::Unrecognized => {
            &&& post.strings_view() == pre.strings_view()
            &&& post.hashes_view() == pre.hashes_view()
            &&& r == ok_view()
        },
    }
}

/// Execution against the shared store. The store stays well-formed and the
/// reply and new state follow `execute_post`.
pub trait CommandExecutor: Sized {
    spec fn cmd_view(&self) -> CmdV;

    fn execute(self, backend: &mut Backend) -> (r: RespFrame)
        requires
            old(backend).wf(),
        ensures
            final(backend).wf(),
            execute_post(self.cmd_view(), *old(backend), *final(backend), r@),
    ;
}

// ---------------------------------------------------------------------------
// Parsing
// ---------------------------------------------------------------------------
/// Checks arity, then that each leading element is a bulk string whose
/// ASCII-lowered bytes spell the expected name.
pub fn validator_command(arr: &RespArray, names: &[&str], n_args: usize) -> (r: Result<
    (),
    CommandError,
>)
    requires
        n_args + names@.len() <= usize::MAX,
    ensures
        ({
            let a = arr@;
            match r {
                Ok(_) => a.len() == n_args + names@.len() && forall|i: int|
                    0 <= i < names@.len() ==> name_at(a, i, encode_utf8(names@[i]@)),
                Err(CommandError::InvalidArgument(_)) => a.len() != n_args + names@.len(),
                Err(CommandError::InvalidCommand(_)) => a.len() == n_args + names@.len() && !(
                forall|i: int| 0 <= i < names@.len() ==> name_at(a, i, encode_utf8(names@[i]@))),
                _ => false,
            }
        }),
{
    proof {
        lemma_frame_views(arr.0@);
    }
    if arr.0.len() != n_args + names.len() {
        return Err(
            CommandError::InvalidArgument("the command does not take this many arguments".to_owned()),
        );
    }
    let mut i: usize = 0;
    while i < names.len()
        invariant
            0 <= i <= names@.len(),
            names@.len() <= arr.0@.len(),
            arr@.len() == n_args + names@.len(),
            arr@.len() == arr.0@.len(),
            forall|j: int| 0 <= j < arr.0@.len() ==> arr@[j] == frame_view(#[trigger] arr.0@[j]),
            forall|j: int| 0 <= j < i ==> name_at(arr@, j, encode_utf8(names@[j]@)),
        decreases names@.len() - i,
    {
        let nm: &str = names[i];
        match &arr.0[i] {
            RespFrame::BulkString(b) => {
                let low = to_lower_bytes(b.0.as_slice());
                if !bytes_eq(low.as_slice(), nm.as_bytes()) {
                    assert(!name_at(arr@, i as int, encode_utf8(names@[i as int]@)));
                    return Err(
                        CommandError::InvalidCommand("the command is not spelled here".to_owned()),
                    );
                }
            },
            _ => {
                assert(!name_at(arr@, i as int, encode_utf8(names@[i as int]@)));
                return Err(
                    CommandError::InvalidCommand(
                        "the command name must be a bulk string".to_owned(),
                    ),
                );
            },
        }
        i += 1;
    }
    Ok(())
}

/// The frames after the first `start` elements, as owned values.
pub fn extract_args(arr: RespArray, start: usize) -> (r: Result<Vec<RespFrame>, CommandError>)
    ensures
        r matches Ok(v) && frame_views(v@) == if start as int <= arr@.len() {
            arr@.skip(start as int)
        } else {
            Seq::<FrameV>::empty()
        },
{
    proof {
        lemma_frame_views(arr.0@);
    }
    let mut out: Vec<RespFrame> = Vec::new();
    if start > arr.0.len() {
        proof {
            assert(frame_views(out@) =~= Seq::<FrameV>::empty());
        }
        return Ok(out);
    }
    let mut i: usize = start;
    while i < arr.0.len()
        invariant
            start <= i <= arr.0@.len(),
            arr@.len() == arr.0@.len(),
            forall|j: int| 0 <= j < arr.0@.len() ==> arr@[j] == frame_view(#[trigger] arr.0@[j]),
            out@.len() == i - start,
            forall|j: int|
                0 <= j < out@.len() ==> frame_view(#[trigger] out@[j]) == arr@[j + start],
        decreases arr.0@.len() - i,
    {
        proof {
            assert(decreases_to!(arr.0@ => arr.0@[i as int]));
        }
        let c = arr.0[i].clone();
        out.push(c);
        i += 1;
    }
    proof {
        lemma_frame_views(out@);
        assert(frame_views(out@) =~= arr@.skip(start as int));
    }
    Ok(out)
}

impl Get {
    pub fn try_from(arr: RespArray) -> (r: Result<Get, CommandError>)
        ensures
            match spec_try_get(arr@) {
                CmdParse::Parsed(c) => r matches Ok(g) && g.cmd_view() == c,
                CmdParse::BadCommand => r matches Err(CommandError::InvalidCommand(_)),
                CmdParse::BadArgument => r matches Err(CommandError::InvalidArgument(_)),
                CmdParse::BadText => r matches Err(CommandError::Utf8Error(_)),
            },
    {
        proof {
            lemma_frame_views(arr.0@);
        }
        match validator_command(&arr, &["get"], 1) {
            Ok(_) => {},
            Err(e) => {
                return Err(e);
            },
        }
        match &arr.0[1] {
            RespFrame::BulkString(b) => {
                let bytes = vstd::slice::slice_to_vec(b.0.as_slice());
                match crate::outside::string_from_utf8(bytes) {
                    Some(key) => Ok(Get { key }),
                    None => Err(CommandError::Utf8Error("the key is not valid text".to_owned())),
                }
            },
            _ => Err(CommandError::InvalidArgument("invalid key".to_owned())),
        }
    }
}

impl SetCmd {
    pub fn try_from(arr: RespArray) -> (r: Result<SetCmd, CommandError>)
        ensures
            match spec_try_set(arr@) {
                CmdParse::Parsed(c) => r matches Ok(g) && g.cmd_view() == c,
                CmdParse::BadCommand => r matches Err(CommandError::InvalidCommand(_)),
                CmdParse::BadArgument => r matches Err(CommandError::InvalidArgument(_)),
                CmdParse::BadText => r matches Err(CommandError::Utf8Error(_)),
            },
    {
        proof {
            lemma_frame_views(arr.0@);
        }
        let mut arr = arr;
        match validator_command(&arr, &["set"], 2) {
            Ok(_) => {},
            Err(e) => {
                return Err(e);
            },
        }
        let key = match &arr.0[1] {
            RespFrame::BulkString(b) => {
                let bytes = vstd::slice::slice_to_vec(b.0.as_slice());
                match crate::outside::string_from_utf8(bytes) {
                    Some(key) => key,
                    None => {
                        return Err(
                            CommandError::Utf8Error("the key is not valid text".to_owned()),
                        );
                    },
                }
            },
            _ => {
                return Err(CommandError::InvalidArgument("invalid key".to_owned()));
            },
        };
        let value = match arr.0.pop() {
            Some(v) => v,
            None => {
                return Err(CommandError::InvalidArgument("invalid value".to_owned()));
            },
        };
        Ok(SetCmd { key, value })
    }
}

impl HGet {
    pub fn try_from(arr: RespArray) -> (r: Result<HGet, CommandError>)
        ensures
            match spec_try_hget(arr@) {
                CmdParse::Parsed(c) => r matches Ok(g) && g.cmd_view() == c,
                CmdParse::BadCommand => r matches Err(CommandError::InvalidCommand(_)),
                CmdParse::BadArgument => r matches Err(CommandError::InvalidArgument(_)),
                CmdParse::BadText => r matches Err(CommandError::Utf8Error(_)),
            },
    {
        proof {
            lemma_frame_views(arr.0@);
        }
        match validator_command(&arr, &["hget"], 2) {
            Ok(_) => {},
            Err(e) => {
                return Err(e);
            },
        }
        let key = match &arr.0[1] {
            RespFrame::BulkString(b) => {
                let bytes = vstd::slice::slice_to_vec(b.0.as_slice());
                match crate::outside::string_from_utf8(bytes) {
                    Some(key) => key,
                    None => {
                        return Err(
                            CommandError::Utf8Error("the key is not valid text".to_owned()),
                        );
                    },
                }
            },
            _ => {
                return Err(CommandError::InvalidArgument("invalid key".to_owned()));
            },
        };
        let field = match &arr.0[2] {
            RespFrame::BulkString(b) => {
                let bytes = vstd::slice::slice_to_vec(b.0.as_slice());
                match crate::outside::string_from_utf8(bytes) {
                    Some(field) => field,
                    None => {
                        return Err(
                            CommandError::Utf8Error("the field is not valid text".to_owned()),
                        );
                    },
                }
            },
            _ => {
                return Err(CommandError::InvalidArgument("invalid field".to_owned()));
            },
        };
        Ok(HGet { key, field })
    }
}

impl HSet {
    pub fn try_from(arr: RespArray) -> (r: Result<HSet, CommandError>)
        ensures
            match spec_try_hset(arr@) {
                CmdParse::Parsed(c) => r matches Ok(g) && g.cmd_view() == c,
                CmdParse::BadCommand => r matches Err(CommandError::InvalidCommand(_)),
                CmdParse::BadArgument => r matches Err(CommandError::InvalidArgument(_)),
                CmdParse::BadText => r matches Err(CommandError::Utf8Error(_)),
            },
    {
        proof {
            lemma_frame_views(arr.0@);
        }
        let mut arr = arr;
        match validator_command(&arr, &["hset"], 3) {
            Ok(_) => {},
            Err(e) => {
                return Err(e);
            },
        }
        let key = match &arr.0[1] {
            RespFrame::BulkString(b) => {
                let bytes = vstd::slice::slice_to_vec(b.0.as_slice());
                match crate::outside::string_from_utf8(bytes) {
                    Some(key) => key,
                    None => {
                        return Err(
                            CommandError::Utf8Error("the key is not valid text".to_owned()),
                        );
                    },
                }
            },
            _ => {
                return Err(CommandError::InvalidArgument("invalid key".to_owned()));
            },
        };
        let field = match &arr.0[2] {
            RespFrame::BulkString(b) => {
                let bytes = vstd::slice::slice_to_vec(b.0.as_slice());
                match crate::outside::string_from_utf8(bytes) {
                    Some(field) => field,
                    None => {
                        return Err(
                            CommandError::Utf8Error("the field is not valid text".to_owned()),
                        );
                    },
                }
            },
            _ => {
                return Err(CommandError::InvalidArgument("invalid field".to_owned()));
            },
        };
        let value = match arr.0.pop() {
            Some(v) => v,
            None => {
                return Err(CommandError::InvalidArgument("invalid value".to_owned()));
            },
        };
        Ok(HSet { key, field, value })
    }
}

impl HGetAll {
    pub fn try_from(arr: RespArray) -> (r: Result<HGetAll, CommandError>)
        ensures
            match spec_try_hgetall(arr@) {
                CmdParse::Parsed(c) => r matches Ok(g) && g.cmd_view() == c,
                CmdParse::BadCommand => r matches Err(CommandError::InvalidCommand(_)),
                CmdParse::BadArgument => r matches Err(CommandError::InvalidArgument(_)),
                CmdParse::BadText => r matches Err(CommandError::Utf8Error(_)),
            },
    {
        proof {
            lemma_frame_views(arr.0@);
        }
        match validator_command(&arr, &["hgetall"], 1) {
            Ok(_) => {},
            Err(e) => {
                return Err(e);
            },
        }
        match &arr.0[1] {
            RespFrame::BulkString(b) => {
                let bytes = vstd::slice::slice_to_vec(b.0.as_slice());
                match crate::outside::string_from_utf8(bytes) {
                    Some(key) => Ok(HGetAll { key, sort: false }),
                    None => Err(CommandError::Utf8Error("the key is not valid text".to_owned())),
                }
            },
            _ => Err(CommandError::InvalidArgument("invalid key".to_owned())),
        }
    }
}

impl Command {
    /// Parses a decoded frame: only an array can carry a command.
    pub fn try_from(v: RespFrame) -> (r: Result<Command, CommandError>)
        ensures
            match frame_view(v) {
                FrameV::Array(a) => match spec_parse_command(a) {
                    CmdParse::Parsed(c) => r matches Ok(cmd) && cmd.cmd_view() == c,
                    CmdParse::BadCommand => r matches Err(CommandError::InvalidCommand(_)),
                    CmdParse::BadArgument => r matches Err(CommandError::InvalidArgument(_)),
                    CmdParse::BadText => r matches Err(CommandError::Utf8Error(_)),
                },
                _ => r matches Err(CommandError::InvalidCommand(_)),
            },
    {
        match v {
            RespFrame::Array(arr) => Command::try_from_array(arr),
            _ => Err(CommandError::InvalidCommand("Command must be an Array".to_owned())),
        }
    }

    /// Dispatches on the ASCII-lowered name in the first element.
    pub fn try_from_array(arr: RespArray) -> (r: Result<Command, CommandError>)
        ensures
            match spec_parse_command(arr@) {
                CmdParse::Parsed(c) => r matches Ok(cmd) && cmd.cmd_view() == c,
                CmdParse::BadCommand => r matches Err(CommandError::InvalidCommand(_)),
                CmdParse::BadArgument => r matches Err(CommandError::InvalidArgument(_)),
                CmdParse::BadText => r matches Err(CommandError::Utf8Error(_)),
            },
    {
        proof {
            lemma_frame_views(arr.0@);
        }
        if arr.0.len() == 0 {
            return Err(
                CommandError::InvalidCommand(
                    "Command must have a BulkString as the first argument".to_owned(),
                ),
            );
        }
        let low: Vec<u8>;
        match &arr.0[0] {
            RespFrame::BulkString(b) => {
                low = to_lower_bytes(b.0.as_slice());
            },
            _ => {
                return Err(
                    CommandError::InvalidCommand(
                        "Command must have a BulkString as the first argument".to_owned(),
                    ),
                );
            },
        }
        if bytes_eq(low.as_slice(), "get".as_bytes()) {
            match Get::try_from(arr) {
                Ok(g) => Ok(Command::Get(g)),
                Err(e) => Err(e),
            }
        } else if bytes_eq(low.as_slice(), "set".as_bytes()) {
            match SetCmd::try_from(arr) {
                Ok(g) => Ok(Command::SetCmd(g)),
                Err(e) => Err(e),
            }
        } else if bytes_eq(low.as_slice(), "hget".as_bytes()) {
            match HGet::try_from(arr) {
                Ok(g) => Ok(Command::HGet(g)),
                Err(e) => Err(e),
            }
        } else if bytes_eq(low.as_slice(), "hset".as_bytes()) {
            match HSet::try_from(arr) {
                Ok(g) => Ok(Command::HSet(g)),
                Err(e) => Err(e),
            }
        } else if bytes_eq(low.as_slice(), "hgetall".as_bytes()) {
            match HGetAll::try_from(arr) {
                Ok(g) => Ok(Command::HGetAll(g)),
                Err(e) => Err(e),
            }
        } else {
            Ok(Command::Unrecognized(Unrecognized))
        }
    }
}

// ---------------------------------------------------------------------------
// Execution
// ---------------------------------------------------------------------------
impl CommandExecutor for Get {
    open spec fn cmd_view(&self) -> CmdV {
        CmdV::Get { key: self.key@ }
    }

    fn execute(self, backend: &mut Backend) -> (r: RespFrame) {
        match backend.get(&self.key) {
            Some(value) => value,
            None => RespFrame::Null(RespNull),
        }
    }
}

impl CommandExecutor for SetCmd {
    open spec fn cmd_view(&self) -> CmdV {
        CmdV::SetCmd { key: self.key@, value: frame_view(self.value) }
    }

    fn execute(self, backend: &mut Backend) -> (r: RespFrame) {
        backend.set(self.key, self.value);
        resp_ok()
    }
}

impl CommandExecutor for HGet {
    open spec fn cmd_view(&self) -> CmdV {
        CmdV::HGet { key: self.key@, field: self.field@ }
    }

    fn execute(self, backend: &mut Backend) -> (r: RespFrame) {
        match backend.hget(&self.key, &self.field) {
            Some(value) => value,
            None => RespFrame::Null(RespNull),
        }
    }
}

impl CommandExecutor for HSet {
    open spec fn cmd_view(&self) -> CmdV {
        CmdV::HSet { key: self.key@, field: self.field@, value: frame_view(self.value) }
    }

    fn execute(self, backend: &mut Backend) -> (r: RespFrame) {
        backend.hset(self.key, self.field, self.value);
        resp_ok()
    }
}

impl CommandExecutor for Unrecognized {
    open spec fn cmd_view(&self) -> CmdV {
        CmdV::Unrecognized
    }

    fn execute(self, backend: &mut Backend) -> (r: RespFrame) {
        resp_ok()
    }
}

impl CommandExecutor for HGetAll {
    open spec fn cmd_view(&self) -> CmdV {
        CmdV::HGetAll { key: self.key@, sort: self.sort }
    }

    fn execute(self, backend: &mut Backend) -> (r: RespFrame) {
        match backend.hmap_snapshot(&self.key) {
            Some(data) => {
                let ghost es = entry_views(data@);
                let entries = if self.sort {
                    sort_pairs(data)
                } else {
                    data
                };
                let ghost es2 = entry_views(entries@);
                let frames = flatten_pairs(entries);
                let result = RespFrame::Array(RespArray(frames));
                proof {
                    assert(frame_view(result) == FrameV::Array(flatten_entries(es2)));
                    if self.sort {
                        assert(es2.to_multiset() == es.to_multiset() && entries_sorted(es2)
                            && frame_view(result) == FrameV::Array(flatten_entries(es2)));
                    }
                }
                result
            },
            None => {
                let empty: Vec<RespFrame> = Vec::new();
                let result = RespFrame::Array(RespArray(empty));
                proof {
                    let ghost none: Seq<(Seq<char>, FrameV)> = Seq::empty();
                    assert(frame_views(result->Array_0.0@) =~= Seq::<FrameV>::empty());
                    assert(flatten_entries(none) =~= Seq::<FrameV>::empty());
                    assert(frame_view(result) == FrameV::Array(flatten_entries(none)));
                    if self.sort {
                        assert(none.to_multiset() == none.to_multiset() && entries_sorted(none)
                            && frame_view(result) == FrameV::Array(flatten_entries(none)));
                    }
                }
                result
            },
        }
    }
}

impl CommandExecutor for Command {
    open spec fn cmd_view(&self) -> CmdV {
        match *self {
            Command::Get(c) => CmdV::Get { key: c.key@ },
            Command::SetCmd(c) => CmdV::SetCmd { key: c.key@, value: frame_view(c.value) },
            Command::HSet(c) => CmdV::HSet {
                key: c.key@,
                field: c.field@,
                value: frame_view(c.value),
            },
            Command::HGet(c) => CmdV::HGet { key: c.key@, field: c.field@ },
            Command::HGetAll(c) => CmdV::HGetAll { key: c.key@, sort: c.sort },
            Command::Unrecognized(_) => CmdV::Unrecognized,
        }
    }

    fn execute(self, backend: &mut Backend) -> (r: RespFrame) {
        match self {
            Command::Get(c) => c.execute(backend),
            Command::SetCmd(c) => c.execute(backend),
            Command::HSet(c) => c.execute(backend),
            Command::HGet(c) => c.execute(backend),
            Command::HGetAll(c) => c.execute(backend),
            Command::Unrecognized(c) => c.execute(backend),
        }
    }
}

// ---------------------------------------------------------------------------
// Flattening and sorting hash entries
// ---------------------------------------------------------------------------
proof fn lemma_flatten_snoc(es: Seq<(Seq<char>, FrameV)>, i: int)
    requires
        0 <= i < es.len(),
    ensures
        flatten_entries(es.take(i + 1)) == flatten_entries(es.take(i)) + seq![
            FrameV::BulkString(encode_utf8(es[i].0)),
            es[i].1,
        ],
    decreases i,
{
    if i == 0 {
        assert(es.take(0) =~= Seq::<(Seq<char>, FrameV)>::empty());
        let one = es.take(1);
        assert(one.len() == 1 && one[0] == es[0]);
        assert(one.drop_first() =~= Seq::<(Seq<char>, FrameV)>::empty());
        assert(flatten_entries(Seq::<(Seq<char>, FrameV)>::empty()) == Seq::<FrameV>::empty());
        let piece = seq![FrameV::BulkString(encode_utf8(es[0].0)), es[0].1];
        assert(flatten_entries(one) == piece + Seq::<FrameV>::empty());
        assert(flatten_entries(one) =~= Seq::<FrameV>::empty() + piece);
    } else {
        let d = es.drop_first();
        lemma_flatten_snoc(d, i - 1);
        assert(es.take(i + 1).drop_first() =~= d.take(i));
        assert(es.take(i).drop_first() =~= d.take(i - 1));
        assert(es.take(i + 1)[0] == es[0]);
        assert(es.take(i)[0] == es[0]);
        assert(d[i - 1] == es[i]);
        let head = seq![FrameV::BulkString(encode_utf8(es[0].0)), es[0].1];
        let piece = seq![FrameV::BulkString(encode_utf8(es[i].0)), es[i].1];
        assert(flatten_entries(es.take(i + 1)) == head + flatten_entries(d.take(i)));
        assert(flatten_entries(es.take(i)) == head + flatten_entries(d.take(i - 1)));
        assert(head + (flatten_entries(d.take(i - 1)) + piece) =~= (head + flatten_entries(
            d.take(i - 1),
        )) + piece);
    }
}

/// Builds the alternating field/value frame list of a hash's entries.
fn flatten_pairs(entries: Vec<(String, RespFrame)>) -> (r: Vec<RespFrame>)
    ensures
        frame_views(r@) == flatten_entries(entry_views(entries@)),
{
    let ghost evs = entry_views(entries@);
    proof {
        lemma_entry_views(entries@);
        assert(evs.take(0) =~= Seq::<(Seq<char>, FrameV)>::empty());
    }
    let mut out: Vec<RespFrame> = Vec::new();
    let mut i: usize = 0;
    proof {
        lemma_frame_views(out@);
        assert(frame_views(out@) =~= Seq::<FrameV>::empty());
    }
    while i < entries.len()
        invariant
            0 <= i <= entries@.len(),
            evs == entry_views(entries@),
            evs.len() == entries@.len(),
            forall|j: int|
                0 <= j < entries@.len() ==> evs[j] == ((#[trigger] entries@[j]).0@, frame_view(
                    entries@[j].1,
                )),
            frame_views(out@) == flatten_entries(evs.take(i as int)),
            out@.len() == 2 * i,
        decreases entries@.len() - i,
    {
        proof {
            assert(decreases_to!(entries@ => entries@[i as int]));
            assert(decreases_to!(entries@[i as int] => entries@[i as int].1));
        }
        let ghost out0 = out@;
        let field_bytes = vstd::slice::slice_to_vec(entries[i].0.as_str().as_bytes());
        out.push(RespFrame::BulkString(BulkString(field_bytes)));
        let value = entries[i].1.clone();
        out.push(value);
        proof {
            lemma_frame_views(out0);
            lemma_frame_views(out@);
            lemma_flatten_snoc(evs, i as int);
            assert(frame_views(out@) =~= flatten_entries(evs.take(i as int + 1)));
        }
        i += 1;
    }
    proof {
        assert(evs.take(entries@.len() as int) =~= evs);
    }
    out
}

/// First position whose key is not below `key`, in byte order.
fn find_pos(out: &Vec<(String, RespFrame)>, key: &String) -> (r: usize)
    ensures
        r <= out@.len(),
        forall|m: int|
            0 <= m < r ==> bytes_lt(encode_utf8((#[trigger] out@[m]).0@), encode_utf8(key@)),
        r < out@.len() ==> !bytes_lt(encode_utf8(out@[r as int].0@), encode_utf8(key@)),
{
    let mut j: usize = 0;
    while j < out.len()
        invariant
            0 <= j <= out@.len(),
            forall|m: int|
                0 <= m < j ==> bytes_lt(encode_utf8((#[trigger] out@[m]).0@), encode_utf8(key@)),
        decreases out@.len() - j,
    {
        if !bytes_less(out[j].0.as_str().as_bytes(), key.as_str().as_bytes()) {
            return j;
        }
        j += 1;
    }
    j
}

/// Distinct character texts have distinct UTF-8 forms.
proof fn lemma_encode_utf8_injective(a: Seq<char>, b: Seq<char>)
    requires
        a != b,
    ensures
        encode_utf8(a) != encode_utf8(b),
{
    if encode_utf8(a) == encode_utf8(b) {
        vstd::utf8::encode_utf8_decode_utf8(a);
        vstd::utf8::encode_utf8_decode_utf8(b);
        assert(false);
    }
}

/// Sorts a hash's entries by key, strictly ascending in byte order. The
/// result holds the same entries.
fn sort_pairs(v: Vec<(String, RespFrame)>) -> (r: Vec<(String, RespFrame)>)
    requires
        distinct_keys(entry_views(v@)),
    ensures
        entry_views(r@).to_multiset() == entry_views(v@).to_multiset(),
        entries_sorted(entry_views(r@)),
{
    broadcast use vstd::seq_lib::group_to_multiset_ensures;

    let ghost orig = entry_views(v@);
    proof {
        lemma_entry_views(v@);
    }
    let mut out: Vec<(String, RespFrame)> = Vec::new();
    let mut i: usize = 0;
    proof {
        lemma_entry_views(out@);
        assert(entry_views(out@) =~= Seq::<(Seq<char>, FrameV)>::empty());
        assert(orig.take(0) =~= Seq::<(Seq<char>, FrameV)>::empty());
        assert(entry_views(out@).to_multiset() =~= orig.take(0).to_multiset());
    }
    while i < v.len()
        invariant
            distinct_keys(orig),
            orig == entry_views(v@),
            orig.len() == v@.len(),
            forall|j: int|
                0 <= j < v@.len() ==> orig[j] == ((#[trigger] v@[j]).0@, frame_view(v@[j].1)),
            0 <= i <= v@.len(),
            out@.len() == i,
            entry_views(out@).to_multiset() == orig.take(i as int).to_multiset(),
            entries_sorted(entry_views(out@)),
            forall|m: int|
                0 <= m < out@.len() ==> exists|j: int|
                    0 <= j < i && #[trigger] entry_views(out@)[m] == orig[j],
        decreases v@.len() - i,
    {
        proof {
            assert(decreases_to!(v@ => v@[i as int]));
            assert(decreases_to!(v@[i as int] => v@[i as int].1));
        }
        let keyc = v[i].0.clone();
        let valc = v[i].1.clone();
        let ghost p_view = (keyc@, frame_view(valc));
        proof {
            assert(p_view == orig[i as int]);
            lemma_entry_views(out@);
        }
        let pos = find_pos(&out, &keyc);
        let ghost old_views = entry_views(out@);
        out.insert(pos, (keyc, valc));
        proof {
            lemma_entry_views(out@);
            assert(entry_views(out@) =~= old_views.insert(pos as int, p_view));
            // multiset bookkeeping
            assert(orig.take(i as int + 1) =~= orig.take(i as int).push(orig[i as int]));
            orig.take(i as int).to_multiset_ensures();
            vstd::seq_lib::to_multiset_insert(old_views, pos as int, p_view);
            assert(old_views.insert(pos as int, p_view).to_multiset() == old_views.to_multiset()
                .insert(p_view));
            // every entry in the new run still comes from a processed index
            assert forall|m: int|
                0 <= m < out@.len() implies exists|j: int|
                0 <= j < i + 1 && #[trigger] entry_views(out@)[m] == orig[j] by {
                if m < pos as int {
                    assert(entry_views(out@)[m] == old_views[m]);
                    let j = choose|j: int| 0 <= j < i && #[trigger] old_views[m] == orig[j];
                    assert(entry_views(out@)[m] == orig[j]);
                } else if m == pos as int {
                    assert(entry_views(out@)[m] == orig[i as int]);
                } else {
                    assert(entry_views(out@)[m] == old_views[m - 1]);
                    let j = choose|j: int| 0 <= j < i && #[trigger] old_views[m - 1] == orig[j];
                    assert(entry_views(out@)[m] == orig[j]);
                }
            }
            // the inserted key is above everything before it and below the rest
            assert forall|m: int|
                pos as int <= m < old_views.len() implies bytes_lt(
                encode_utf8(p_view.0),
                encode_utf8((#[trigger] old_views[m]).0),
            ) by {
                let j = choose|j: int| 0 <= j < i && #[trigger] old_views[pos as int] == orig[j];
                assert(old_views[pos as int].0 == orig[j].0);
                assert(orig[j].0 != orig[i as int].0);
                lemma_encode_utf8_injective(orig[j].0, orig[i as int].0);
                lemma_bytes_lt_total(
                    encode_utf8(p_view.0),
                    encode_utf8(old_views[pos as int].0),
                );
                assert(bytes_lt(encode_utf8(p_view.0), encode_utf8(old_views[pos as int].0)));
                if m > pos as int {
                    assert(bytes_lt(
                        encode_utf8(old_views[pos as int].0),
                        encode_utf8(old_views[m].0),
                    ));
                    lemma_bytes_lt_trans(
                        encode_utf8(p_view.0),
                        encode_utf8(old_views[pos as int].0),
                        encode_utf8(old_views[m].0),
                    );
                }
            }
            assert forall|m: int, n: int|
                0 <= m < n < entry_views(out@).len() implies bytes_lt(
                encode_utf8((#[trigger] entry_views(out@)[m]).0),
                encode_utf8((#[trigger] entry_views(out@)[n]).0),
            ) by {
                let nv = entry_views(out@);
                if n < pos as int {
                    assert(nv[m] == old_views[m] && nv[n] == old_views[n]);
                } else if n == pos as int {
                    assert(nv[m] == old_views[m] && nv[n] == p_view);
                } else {
                    assert(nv[n] == old_views[n - 1]);
                    if m < pos as int {
                        assert(nv[m] == old_views[m]);
                        if n - 1 == m {
                            assert(pos as int <= m < old_views.len());
                            assert(false);
                        }
                    } else if m == pos as int {
                        assert(nv[m] == p_view);
                    } else {
                        assert(nv[m] == old_views[m - 1]);
                    }
                }
            }
        }
        i += 1;
    }
    proof {
        assert(orig.take(v@.len() as int) =~= orig);
    }
    out
}

// ---------------------------------------------------------------------------
// The command laws
// ---------------------------------------------------------------------------
/// A frame array whose first element is not a bulk string is no command.
pub proof fn lemma_parse_rejects_non_bulk(a: Seq<FrameV>)
    requires
        !(a.len() >= 1 && is_bulk(a[0])),
    ensures
        spec_parse_command(a) == CmdParse::BadCommand,
{
}

/// Command parsing is ASCII case-insensitive in the command name: lowering
/// the name changes nothing.
pub proof fn lemma_parse_case_insensitive(a: Seq<FrameV>, b: Seq<u8>)
    requires
        a.len() >= 1,
        a[0] == FrameV::BulkString(b),
    ensures
        spec_parse_command(a) == spec_parse_command(
            a.update(0, FrameV::BulkString(lower_bytes(b))),
        ),
{
    let a2 = a.update(0, FrameV::BulkString(lower_bytes(b)));
    lemma_lower_bytes_idempotent(b);
    assert(a2.len() == a.len());
    assert(forall|i: int| 1 <= i < a.len() ==> a2[i] == #[trigger] a[i]);
    assert(lower_bytes(bulk_bytes(a2[0])) == lower_bytes(bulk_bytes(a[0])));
    assert(forall|name: Seq<u8>| #[trigger] name_at(a, 0, name) == name_at(a2, 0, name));
}

/// Storing then reading the same key returns the stored value; a later
/// store overwrites an earlier one.
pub proof fn lemma_set_then_get(
    key: Seq<char>,
    value: FrameV,
    s0: Backend,
    s1: Backend,
    r1: FrameV,
    s2: Backend,
    r2: FrameV,
)
    requires
        execute_post(CmdV::SetCmd { key, value }, s0, s1, r1),
        execute_post(CmdV::Get { key }, s1, s2, r2),
    ensures
        r2 == value,
        s2.strings_view() == s1.strings_view(),
{
    assert(s1.strings_view().contains_key(key));
    assert(s1.strings_view()[key] == value);
}

/// Storing a hash field then reading it back returns the stored value, and
/// reading a missing hash returns the null frame.
pub proof fn lemma_hset_then_hget(
    key: Seq<char>,
    field: Seq<char>,
    value: FrameV,
    s0: Backend,
    s1: Backend,
    r1: FrameV,
    s2: Backend,
    r2: FrameV,
)
    requires
        s0.wf(),
        execute_post(CmdV::HSet { key, field, value }, s0, s1, r1),
        execute_post(CmdV::HGet { key, field }, s1, s2, r2),
    ensures
        r2 == value,
{
    let es0 = if s0.hashes_view().contains_key(key) {
        s0.hashes_view()[key]
    } else {
        Seq::empty()
    };
    assert(distinct_keys(es0)) by {
        if s0.hashes_view().contains_key(key) {
            crate::backend::lemma_wf_entries_distinct(&s0, key);
        }
    }
    assert(s1.hashes_view().contains_key(key));
    assert(s1.hashes_view()[key] == upsert_entry(es0, field, value));
    crate::backend::lemma_upsert_entry_props(es0, field, value);
}

/// Reading any field of a missing hash returns the null frame.
pub proof fn lemma_hget_missing(
    key: Seq<char>,
    field: Seq<char>,
    s1: Backend,
    s2: Backend,
    r2: FrameV,
)
    requires
        execute_post(CmdV::HGet { key, field }, s1, s2, r2),
        !s1.hashes_view().contains_key(key),
    ensures
        r2 == FrameV::Null,
{
}

/// With the sort flag, the reply lists fields in strictly ascending byte
/// order of their UTF-8 forms: an array alternating field and value, whose
/// field positions are sorted.
pub proof fn lemma_hgetall_sorted(
    h: Map<Seq<char>, Seq<(Seq<char>, FrameV)>>,
    key: Seq<char>,
    r: FrameV,
)
    requires
        hgetall_post(h, key, true, r),
    ensures
        r is Array,
        ({
            let items = match r {
                FrameV::Array(items) => items,
                _ => Seq::empty(),
            };
            exists|es2: Seq<(Seq<char>, FrameV)>|
                entries_sorted(es2) && items == #[trigger] flatten_entries(es2)
        }),
{
    let es = if h.contains_key(key) {
        h[key]
    } else {
        Seq::empty()
    };
    let es2 = choose|es2: Seq<(Seq<char>, FrameV)>|
        es2.to_multiset() == es.to_multiset() && entries_sorted(es2) && r == FrameV::Array(
            flatten_entries(es2),
        );
    assert(r == FrameV::Array(flatten_entries(es2)));
    assert(entries_sorted(es2) && (match r {
        FrameV::Array(items) => items,
        _ => Seq::empty(),
    }) == flatten_entries(es2));
}

impl CommandError {
    /// The reply text for this error.
    pub open spec fn text_view(&self) -> Seq<char> {
        match self {
            CommandError::InvalidCommand(s) => "Invalid command: "@ + s@,
            CommandError::InvalidArgument(s) => "Invalid argument: "@ + s@,
            CommandError::RespError(_) => "Invalid frame"@,
            CommandError::Utf8Error(s) => "Invalid text: "@ + s@,
        }
    }

    /// Renders the error for a simple error reply.
    pub fn message(&self) -> (r: String)
        ensures
            r@ == self.text_view(),
    {
        match self {
            CommandError::InvalidCommand(s) => {
                let mut m = "Invalid command: ".to_owned();
                m.append(s.as_str());
                m
            },
            CommandError::InvalidArgument(s) => {
                let mut m = "Invalid argument: ".to_owned();
                m.append(s.as_str());
                m
            },
            CommandError::RespError(_) => "Invalid frame".to_owned(),
            CommandError::Utf8Error(s) => {
                let mut m = "Invalid text: ".to_owned();
                m.append(s.as_str());
                m
            },
        }
    }
}

/// Runs one decoded frame against the store: parses it as a command and
/// executes it; a command error becomes a simple error reply and leaves the
/// store untouched.
pub fn handle_frame(frame: RespFrame, backend: &mut Backend) -> (r: RespFrame)
    requires
        old(backend).wf(),
    ensures
        final(backend).wf(),
        match frame_view(frame) {
            FrameV::Array(a) => match spec_parse_command(a) {
                CmdParse::Parsed(c) => execute_post(c, *old(backend), *final(backend), r@),
                _ => *final(backend) == *old(backend) && r@ matches FrameV::SimpleError(_),
            },
            _ => *final(backend) == *old(backend) && r@ matches FrameV::SimpleError(_),
        },
{
    match Command::try_from(frame) {
        Ok(cmd) => cmd.execute(backend),
        Err(e) => RespFrame::SimpleError(crate::frame::SimpleError(e.message())),
    }
}

} // verus!
