//! The command log format.
//!
//! A log segment is a concatenation of encoded commands. Each record is
//! self-delimiting: a one-byte tag, the byte lengths of the UTF-8 encoded
//! key (and, for `Put`, value) as 64-bit little-endian integers, then the
//! UTF-8 bytes themselves. A stream of records can therefore be decoded by
//! repeatedly decoding "the next record", with no external index.

use vstd::prelude::*;
use vstd::bytes::{spec_u64_from_le_bytes, spec_u64_to_le_bytes, u64_from_le_bytes, u64_to_le_bytes, lemma_auto_spec_u64_to_from_le_bytes};
use vstd::utf8::{valid_utf8, decode_utf8, encode_utf8, encode_utf8_valid_utf8, encode_utf8_decode_utf8, decode_utf8_encode_utf8};
use vstd::string::*;

use crate::error::KvsError;

verus! {

/// Tag byte that opens an encoded `Put` record.
pub const SET_TAG: u8 = 0;

/// Tag byte that opens an encoded `Remove` record.
pub const REMOVE_TAG: u8 = 1;

/// Number of header bytes of a `Put` record (tag + two length fields).
pub const SET_HEADER: u64 = 17;

/// Number of header bytes of a `Remove` record (tag + one length field).
pub const REMOVE_HEADER: u64 = 9;

/// A single mutation record of the log: assign a value to a key, or erase a key.
#[derive(Debug, Clone)]
pub enum Command {
    Put { key: String, value: String },
    Remove { key: String },
}

/// The mathematical content of a [`Command`]: the same variants over
/// character sequences.
pub enum CommandModel {
    Put { key: Seq<char>, value: Seq<char> },
    Remove { key: Seq<char> },
}

impl View for Command {
    type V = CommandModel;

    open spec fn view(&self) -> CommandModel {
        match self {
            Command::Put { key, value } => CommandModel::Put { key: key@, value: value@ },
            Command::Remove { key } => CommandModel::Remove { key: key@ },
        }
    }
}

impl Command {
    /// Builds a `Put` command: assign `value` to `key`.
    pub fn set(key: String, value: String) -> (c: Command)
        ensures
            c@ == (CommandModel::Put { key: key@, value: value@ }),
    {
        Command::Put { key, value }
    }

    /// Builds a `Remove` command.
    pub fn remove(key: String) -> (c: Command)
        ensures
            c@ == (CommandModel::Remove { key: key@ }),
    {
        Command::Remove { key }
    }
}

/// The encoded bytes of a command.
pub open spec fn enc(c: CommandModel) -> Seq<u8> {
    match c {
        CommandModel::Put { key, value } => seq![SET_TAG] + spec_u64_to_le_bytes(
            encode_utf8(key).len() as u64,
        ) + spec_u64_to_le_bytes(encode_utf8(value).len() as u64) + encode_utf8(key)
            + encode_utf8(value),
        CommandModel::Remove { key } => seq![REMOVE_TAG] + spec_u64_to_le_bytes(
            encode_utf8(key).len() as u64,
        ) + encode_utf8(key),
    }
}

/// True when the encoded lengths of a command's strings fit the 64-bit
/// length fields of the format.
pub open spec fn cmd_fits(c: CommandModel) -> bool {
    match c {
        CommandModel::Put { key, value } => encode_utf8(key).len() <= u64::MAX
            && encode_utf8(value).len() <= u64::MAX,
        CommandModel::Remove { key } => encode_utf8(key).len() <= u64::MAX,
    }
}

/// Decodes the record that starts at position `i` of `s`.
///
/// Returns the decoded command and the position one past its last byte, or
/// `None` when no well-formed record starts at `i`.
pub open spec fn dec_at(s: Seq<u8>, i: int) -> Option<(CommandModel, int)> {
    if 0 <= i < s.len() && s[i] == SET_TAG && i + SET_HEADER <= s.len() {
        let k = spec_u64_from_le_bytes(s.subrange(i + 1, i + 9)) as int;
        let v = spec_u64_from_le_bytes(s.subrange(i + 9, i + 17)) as int;
        if i + SET_HEADER + k + v <= s.len() {
            let kb = s.subrange(i + 17, i + 17 + k);
            let vb = s.subrange(i + 17 + k, i + 17 + k + v);
            if valid_utf8(kb) && valid_utf8(vb) {
                Some(
                    (
                        CommandModel::Put { key: decode_utf8(kb), value: decode_utf8(vb) },
                        i + 17 + k + v,
                    ),
                )
            } else {
                None
            }
        } else {
            None
        }
    } else if 0 <= i < s.len() && s[i] == REMOVE_TAG && i + REMOVE_HEADER <= s.len() {
        let k = spec_u64_from_le_bytes(s.subrange(i + 1, i + 9)) as int;
        if i + REMOVE_HEADER + k <= s.len() {
            let kb = s.subrange(i + 9, i + 9 + k);
            if valid_utf8(kb) {
                Some((CommandModel::Remove { key: decode_utf8(kb) }, i + 9 + k))
            } else {
                None
            }
        } else {
            None
        }
    } else {
        None
    }
}

/// Lays out an encoding in parts: tag byte, length fields, then the UTF-8
/// bytes of the strings, each recovered as a subrange of the whole record.
pub proof fn lemma_enc_structure(c: CommandModel)
    ensures
        match c {
            CommandModel::Put { key, value } => {
                let kb = encode_utf8(key);
                let vb = encode_utf8(value);
                let k = kb.len() as int;
                let v = vb.len() as int;
                let e = enc(c);
                &&& e.len() == 17 + k + v
                &&& e[0] == SET_TAG
                &&& e.subrange(1, 9) == spec_u64_to_le_bytes(kb.len() as u64)
                &&& e.subrange(9, 17) == spec_u64_to_le_bytes(vb.len() as u64)
                &&& e.subrange(17, 17 + k) == kb
                &&& e.subrange(17 + k, 17 + k + v) == vb
            },
            CommandModel::Remove { key } => {
                let kb = encode_utf8(key);
                let k = kb.len() as int;
                let e = enc(c);
                &&& e.len() == 9 + k
                &&& e[0] == REMOVE_TAG
                &&& e.subrange(1, 9) == spec_u64_to_le_bytes(kb.len() as u64)
                &&& e.subrange(9, 9 + k) == kb
            },
        },
{
    lemma_auto_spec_u64_to_from_le_bytes();
    match c {
        CommandModel::Put { key, value } => {
            let kb = encode_utf8(key);
            let vb = encode_utf8(value);
            let k = kb.len() as int;
            let v = vb.len() as int;
            let t0 = seq![SET_TAG];
            let t1 = spec_u64_to_le_bytes(kb.len() as u64);
            let t2 = spec_u64_to_le_bytes(vb.len() as u64);
            let e = enc(c);
            assert(e == t0 + t1 + t2 + kb + vb);
            assert(t1.len() == 8 && t2.len() == 8);
            assert(e[0] == SET_TAG) by {
                assert((t0 + t1)[0] == t0[0]);
                assert(((t0 + t1) + t2)[0] == (t0 + t1)[0]);
                assert((((t0 + t1) + t2) + kb)[0] == ((t0 + t1) + t2)[0]);
                assert(e[0] == (((t0 + t1) + t2) + kb)[0]);
            }
            assert forall|m: int| 0 <= m < 8 implies e[1 + m] == t1[m] by {
                assert((t0 + t1)[1 + m] == t1[m]);
                assert(((t0 + t1) + t2)[1 + m] == (t0 + t1)[1 + m]);
                assert((((t0 + t1) + t2) + kb)[1 + m] == ((t0 + t1) + t2)[1 + m]);
                assert(e[1 + m] == (((t0 + t1) + t2) + kb)[1 + m]);
            }
            assert forall|m: int| 0 <= m < 8 implies e[9 + m] == t2[m] by {
                assert(((t0 + t1) + t2)[9 + m] == t2[m]);
                assert((((t0 + t1) + t2) + kb)[9 + m] == ((t0 + t1) + t2)[9 + m]);
                assert(e[9 + m] == (((t0 + t1) + t2) + kb)[9 + m]);
            }
            assert forall|m: int| 0 <= m < k implies e[17 + m] == kb[m] by {
                assert((((t0 + t1) + t2) + kb)[17 + m] == kb[m]);
                assert(e[17 + m] == (((t0 + t1) + t2) + kb)[17 + m]);
            }
            assert forall|m: int| 0 <= m < v implies e[17 + k + m] == vb[m] by {
                assert(e[17 + k + m] == vb[m]);
            }
            assert(e.subrange(1, 9) =~= t1);
            assert(e.subrange(9, 17) =~= t2);
            assert(e.subrange(17, 17 + k) =~= kb);
            assert(e.subrange(17 + k, 17 + k + v) =~= vb);
        },
        CommandModel::Remove { key } => {
            let kb = encode_utf8(key);
            let k = kb.len() as int;
            let t0 = seq![REMOVE_TAG];
            let t1 = spec_u64_to_le_bytes(kb.len() as u64);
            let e = enc(c);
            assert(e == t0 + t1 + kb);
            assert(t1.len() == 8);
            assert(e[0] == REMOVE_TAG) by {
                assert((t0 + t1)[0] == t0[0]);
                assert(e[0] == (t0 + t1)[0]);
            }
            assert forall|m: int| 0 <= m < 8 implies e[1 + m] == t1[m] by {
                assert((t0 + t1)[1 + m] == t1[m]);
                assert(e[1 + m] == (t0 + t1)[1 + m]);
            }
            assert forall|m: int| 0 <= m < k implies e[9 + m] == kb[m] by {
                assert(e[9 + m] == kb[m]);
            }
            assert(e.subrange(1, 9) =~= t1);
            assert(e.subrange(9, 9 + k) =~= kb);
        },
    }
}

/// An encoded record placed anywhere in a byte sequence decodes back to the
/// command it came from, consuming exactly its own bytes.
pub proof fn lemma_enc_dec(s: Seq<u8>, i: int, c: CommandModel)
    requires
        cmd_fits(c),
        0 <= i,
        i + enc(c).len() <= s.len(),
        s.subrange(i, i + enc(c).len()) == enc(c),
    ensures
        dec_at(s, i) == Some((c, i + enc(c).len())),
{
    lemma_auto_spec_u64_to_from_le_bytes();
    lemma_enc_structure(c);
    let e = enc(c);
    let le = e.len() as int;
    assert forall|a: int, b: int| 0 <= a <= b <= le implies s.subrange(i + a, i + b) == e.subrange(
        a,
        b,
    ) by {
        s.lemma_slice_of_slice(i, i + le, a, b);
    }
    assert(s[i] == e[0]) by {
        assert(s.subrange(i, i + le)[0] == s[i]);
    }
    match c {
        CommandModel::Put { key, value } => {
            let kb = encode_utf8(key);
            let vb = encode_utf8(value);
            let k = kb.len() as int;
            let v = vb.len() as int;
            assert(s.subrange(i + 1, i + 9) == spec_u64_to_le_bytes(kb.len() as u64));
            assert(spec_u64_from_le_bytes(s.subrange(i + 1, i + 9)) == kb.len() as u64);
            assert(s.subrange(i + 9, i + 17) == spec_u64_to_le_bytes(vb.len() as u64));
            assert(spec_u64_from_le_bytes(s.subrange(i + 9, i + 17)) == vb.len() as u64);
            assert(s.subrange(i + 17, i + 17 + k) == kb);
            assert(s.subrange(i + 17 + k, i + 17 + k + v) == vb);
            encode_utf8_valid_utf8(key);
            encode_utf8_valid_utf8(value);
            encode_utf8_decode_utf8(key);
            encode_utf8_decode_utf8(value);
        },
        CommandModel::Remove { key } => {
            let kb = encode_utf8(key);
            let k = kb.len() as int;
            assert(s.subrange(i + 1, i + 9) == spec_u64_to_le_bytes(kb.len() as u64));
            assert(spec_u64_from_le_bytes(s.subrange(i + 1, i + 9)) == kb.len() as u64);
            assert(s.subrange(i + 9, i + 9 + k) == kb);
            encode_utf8_valid_utf8(key);
            encode_utf8_decode_utf8(key);
        },
    }
}

/// A successful decode reads back exactly one encoding: the bytes consumed
/// are the encoding of the decoded command (the format is canonical).
#[verifier::spinoff_prover]
#[verifier::rlimit(100)]
pub proof fn lemma_dec_enc(s: Seq<u8>, i: int)
    requires
        dec_at(s, i) is Some,
    ensures
        ({
            let (c, j) = dec_at(s, i)->Some_0;
            &&& i < j <= s.len()
            &&& j - i == enc(c).len()
            &&& s.subrange(i, j) == enc(c)
            &&& cmd_fits(c)
        }),
{
    lemma_auto_spec_u64_to_from_le_bytes();
    let (c, j) = dec_at(s, i)->Some_0;
    lemma_enc_structure(c);
    let e = enc(c);
    if s[i] == SET_TAG {
        let k = spec_u64_from_le_bytes(s.subrange(i + 1, i + 9)) as int;
        let v = spec_u64_from_le_bytes(s.subrange(i + 9, i + 17)) as int;
        let kb = s.subrange(i + 17, i + 17 + k);
        let vb = s.subrange(i + 17 + k, i + 17 + k + v);
        decode_utf8_encode_utf8(kb);
        decode_utf8_encode_utf8(vb);
        assert(encode_utf8(decode_utf8(kb)) == kb && encode_utf8(decode_utf8(vb)) == vb);
        assert(e.len() == 17 + k + v && j == i + 17 + k + v);
        assert(e.subrange(1, 9) == spec_u64_to_le_bytes(k as u64) && spec_u64_to_le_bytes(
            spec_u64_from_le_bytes(s.subrange(i + 1, i + 9)),
        ) == s.subrange(i + 1, i + 9));
        assert(e.subrange(9, 17) == spec_u64_to_le_bytes(v as u64) && spec_u64_to_le_bytes(
            spec_u64_from_le_bytes(s.subrange(i + 9, i + 17)),
        ) == s.subrange(i + 9, i + 17));
        assert forall|m: int| 0 <= m < e.len() implies s[i + m] == e[m] by {
            if m == 0 {
            } else if m < 9 {
                e.lemma_element_from_slice(e.subrange(1, 9), 1, 9, m);
                assert(s.subrange(i + 1, i + 9)[m - 1] == s[i + m]);
            } else if m < 17 {
                e.lemma_element_from_slice(e.subrange(9, 17), 9, 17, m);
                assert(s.subrange(i + 9, i + 17)[m - 9] == s[i + m]);
            } else if m < 17 + k {
                e.lemma_element_from_slice(e.subrange(17, 17 + k), 17, 17 + k, m);
                assert(kb[m - 17] == s[i + m]);
            } else {
                e.lemma_element_from_slice(e.subrange(17 + k, 17 + k + v), 17 + k, 17 + k + v, m);
                assert(vb[m - 17 - k] == s[i + m]);
            }
        }
        assert(s.subrange(i, j) =~= e);
    } else {
        let k = spec_u64_from_le_bytes(s.subrange(i + 1, i + 9)) as int;
        let kb = s.subrange(i + 9, i + 9 + k);
        decode_utf8_encode_utf8(kb);
        assert(encode_utf8(decode_utf8(kb)) == kb);
        assert(e.len() == 9 + k && j == i + 9 + k);
        assert(e.subrange(1, 9) == spec_u64_to_le_bytes(k as u64) && spec_u64_to_le_bytes(
            spec_u64_from_le_bytes(s.subrange(i + 1, i + 9)),
        ) == s.subrange(i + 1, i + 9));
        assert forall|m: int| 0 <= m < e.len() implies s[i + m] == e[m] by {
            if m == 0 {
            } else if m < 9 {
                e.lemma_element_from_slice(e.subrange(1, 9), 1, 9, m);
                assert(s.subrange(i + 1, i + 9)[m - 1] == s[i + m]);
            } else {
                e.lemma_element_from_slice(e.subrange(9, 9 + k), 9, 9 + k, m);
                assert(kb[m - 9] == s[i + m]);
            }
        }
        assert(s.subrange(i, j) =~= e);
    }
}

/// Decoding is unaffected by bytes appended after the record: a record that
/// decodes from `s` decodes identically from `s + ext`.
pub proof fn lemma_dec_extend(s: Seq<u8>, ext: Seq<u8>, i: int)
    requires
        dec_at(s, i) is Some,
    ensures
        dec_at(s + ext, i) == dec_at(s, i),
{
    let t = s + ext;
    let (c, j) = dec_at(s, i)->Some_0;
    assert(t[i] == s[i]);
    if s[i] == SET_TAG {
        assert(t.subrange(i + 1, i + 9) =~= s.subrange(i + 1, i + 9));
        assert(t.subrange(i + 9, i + 17) =~= s.subrange(i + 9, i + 17));
        let k = spec_u64_from_le_bytes(s.subrange(i + 1, i + 9)) as int;
        let v = spec_u64_from_le_bytes(s.subrange(i + 9, i + 17)) as int;
        assert(t.subrange(i + 17, i + 17 + k) =~= s.subrange(i + 17, i + 17 + k));
        assert(t.subrange(i + 17 + k, i + 17 + k + v) =~= s.subrange(i + 17 + k, i + 17 + k + v));
    } else {
        assert(t.subrange(i + 1, i + 9) =~= s.subrange(i + 1, i + 9));
        let k = spec_u64_from_le_bytes(s.subrange(i + 1, i + 9)) as int;
        assert(t.subrange(i + 9, i + 9 + k) =~= s.subrange(i + 9, i + 9 + k));
    }
}

/// Relies on `String::from_utf8`: it succeeds exactly on valid UTF-8 input,
/// decoding the bytes to the character sequence they encode.
#[verifier::external_body]
fn string_from_utf8(bytes: Vec<u8>) -> (r: Option<String>)
    ensures
        match r {
            Some(s) => valid_utf8(bytes@) && s@ == decode_utf8(bytes@),
            None => !valid_utf8(bytes@),
        },
{
    String::from_utf8(bytes).ok()
}

/// Encodes a command into its on-disk record.
pub fn encode_command(c: &Command) -> (r: Vec<u8>)
    ensures
        r@ == enc(c@),
{
    let mut out: Vec<u8> = Vec::new();
    match c {
        Command::Put { key, value } => {
            let mut kb = key.as_str().as_bytes_vec();
            let mut vb = value.as_str().as_bytes_vec();
            let mut klen = u64_to_le_bytes(kb.len() as u64);
            let mut vlen = u64_to_le_bytes(vb.len() as u64);
            out.push(SET_TAG);
            out.append(&mut klen);
            out.append(&mut vlen);
            out.append(&mut kb);
            out.append(&mut vb);
            assert(out@ =~= enc(c@));
        },
        Command::Remove { key } => {
            let mut kb = key.as_str().as_bytes_vec();
            let mut klen = u64_to_le_bytes(kb.len() as u64);
            out.push(REMOVE_TAG);
            out.append(&mut klen);
            out.append(&mut kb);
            assert(out@ =~= enc(c@));
        },
    }
    out
}

/// Reads the 64-bit little-endian integer at position `pos`.
fn read_u64_at(data: &Vec<u8>, pos: usize) -> (x: u64)
    requires
        pos + 8 <= data@.len(),
    ensures
        x == spec_u64_from_le_bytes(data@.subrange(pos as int, pos + 8)),
{
    let _n = data.len();
    assert(data@.len() <= usize::MAX);
    let mut buf: Vec<u8> = Vec::new();
    let mut i: usize = 0;
    while i < 8
        invariant
            i <= 8,
            pos + 8 <= data@.len(),
            data@.len() <= usize::MAX,
            buf@ =~= data@.subrange(pos as int, pos + i),
        decreases 8 - i,
    {
        buf.push(data[pos + i]);
        i = i + 1;
        assert(buf@ =~= data@.subrange(pos as int, pos + i));
    }
    u64_from_le_bytes(buf.as_slice())
}

/// Copies `n` bytes starting at `start` into a fresh vector.
pub(crate) fn copy_range(data: &Vec<u8>, start: usize, n: usize) -> (r: Vec<u8>)
    requires
        start + n <= data@.len(),
    ensures
        r@ == data@.subrange(start as int, start + n),
{
    let _n = data.len();
    assert(data@.len() <= usize::MAX);
    let mut out: Vec<u8> = Vec::new();
    let mut i: usize = 0;
    while i < n
        invariant
            i <= n,
            start + n <= data@.len(),
            data@.len() <= usize::MAX,
            out@ =~= data@.subrange(start as int, start + i),
        decreases n - i,
    {
        out.push(data[start + i]);
        i = i + 1;
        assert(out@ =~= data@.subrange(start as int, start + i));
    }
    assert(out@ =~= data@.subrange(start as int, start + n));
    out
}

/// What a byte span of a segment holds, as seen by a reader that expects
/// exactly one record in the span.
pub enum SpanKind {
    /// A `Put` record spanning exactly the given bytes; carries its value.
    Value(Seq<char>),
    /// A `Remove` record spanning exactly the given bytes.
    Tombstone,
    /// No single record occupies exactly the given bytes.
    Malformed,
}

/// Classifies the span of `len` bytes at `pos`: the value of the `Put`
/// record there, the presence of a `Remove` record, or a malformed span.
pub open spec fn span_kind(data: Seq<u8>, pos: int, len: int) -> SpanKind {
    match dec_at(data, pos) {
        Some((CommandModel::Put { key, value }, end)) => if end == pos + len {
            SpanKind::Value(value)
        } else {
            SpanKind::Malformed
        },
        Some((CommandModel::Remove { key }, end)) => if end == pos + len {
            SpanKind::Tombstone
        } else {
            SpanKind::Malformed
        },
        None => SpanKind::Malformed,
    }
}

/// Reads the value recorded in the span of `len` bytes at `pos`.
///
/// The span must hold exactly one record and it must be a `Put`: a
/// `Remove` there means the caller's index and the log disagree, reported
/// as `UnexpectedCommandType`; anything else is a corrupt span.
pub fn value_at(data: &Vec<u8>, pos: u64, len: u64) -> (r: Result<String, KvsError>)
    ensures
        match r {
            Ok(v) => span_kind(data@, pos as int, len as int) == SpanKind::Value(v@),
            Err(e) => match e {
                KvsError::UnexpectedCommandType => span_kind(data@, pos as int, len as int)
                    == SpanKind::Tombstone,
                KvsError::Serde(_) => span_kind(data@, pos as int, len as int)
                    == SpanKind::Malformed,
                _ => false,
            },
        },
{
    let n = data.len();
    assert(data@.len() <= usize::MAX);
    if pos >= n as u64 {
        return Err(corrupt_error());
    }
    let p = pos as usize;
    match decode_at(data, p) {
        Ok((c, end)) => {
            if (end - p) as u64 != len {
                return Err(corrupt_error());
            }
            match c {
                Command::Put { key: _, value } => Ok(value),
                Command::Remove { key: _ } => Err(KvsError::UnexpectedCommandType),
            }
        },
        Err(e) => Err(e),
    }
}

/// Builds the corrupt-record error.
fn corrupt_error() -> (e: KvsError)
    ensures
        e matches KvsError::Serde(_),
{
    KvsError::Serde(String::from_str("corrupt log record"))
}

/// Decodes the record that starts at byte `pos` of `data`.
///
/// Mirrors [`dec_at`] exactly: it returns the command together with the
/// position one past its record, and fails precisely on the byte sequences
/// on which `dec_at` has no answer.
pub fn decode_at(data: &Vec<u8>, pos: usize) -> (r: Result<(Command, usize), KvsError>)
    ensures
        match r {
            Ok((c, end)) => dec_at(data@, pos as int) == Some((c@, end as int)) && pos < end
                <= data@.len(),
            Err(e) => dec_at(data@, pos as int) is None && e matches KvsError::Serde(_),
        },
{
    if pos >= data.len() {
        return Err(corrupt_error());
    }
    let tag = data[pos];
    if tag == SET_TAG {
        if data.len() - pos < 17 {
            return Err(corrupt_error());
        }
        let k = read_u64_at(data, pos + 1);
        let v = read_u64_at(data, pos + 9);
        let remaining = (data.len() - (pos + 17)) as u64;
        if k > remaining || v > remaining - k {
            return Err(corrupt_error());
        }
        let kn = k as usize;
        let vn = v as usize;
        let kb = copy_range(data, pos + 17, kn);
        let vb = copy_range(data, pos + 17 + kn, vn);
        let key = match string_from_utf8(kb) {
            Some(s) => s,
            None => {
                return Err(corrupt_error());
            },
        };
        let value = match string_from_utf8(vb) {
            Some(s) => s,
            None => {
                return Err(corrupt_error());
            },
        };
        let end = pos + 17 + kn + vn;
        Ok((Command::Put { key, value }, end))
    } else if tag == REMOVE_TAG {
        if data.len() - pos < 9 {
            return Err(corrupt_error());
        }
        let k = read_u64_at(data, pos + 1);
        let remaining = (data.len() - (pos + 9)) as u64;
        if k > remaining {
            return Err(corrupt_error());
        }
        let kn = k as usize;
        let kb = copy_range(data, pos + 9, kn);
        let key = match string_from_utf8(kb) {
            Some(s) => s,
            None => {
                return Err(corrupt_error());
            },
        };
        let end = pos + 9 + kn;
        Ok((Command::Remove { key }, end))
    } else {
        Err(corrupt_error())
    }
}

} // verus!
