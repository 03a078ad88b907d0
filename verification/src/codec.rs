use vstd::prelude::*;

use vstd::bytes::{
    lemma_auto_spec_u32_to_from_le_bytes, lemma_auto_spec_u64_to_from_le_bytes,
    spec_u32_from_le_bytes, spec_u32_to_le_bytes, spec_u64_from_le_bytes, spec_u64_to_le_bytes,
    u32_from_le_bytes, u32_to_le_bytes, u64_from_le_bytes, u64_to_le_bytes,
};
use vstd::slice::{slice_index_get, slice_subrange, slice_to_vec};
use vstd::utf8::{decode_utf8, encode_utf8, encode_utf8_decode_utf8, encode_utf8_valid_utf8,
    valid_utf8};

use crate::record::{logs_view, Log, LogCommand, LogModel, ReadError};

verus! {

/// The discriminant stored for a command: Add is 0, Pop is 1.
pub open spec fn spec_tag(command: LogCommand) -> u32 {
    match command {
        LogCommand::Add => 0,
        LogCommand::Pop => 1,
    }
}

/// The four big-endian bytes of a 32-bit length, most significant first.
pub open spec fn spec_u32_to_be_bytes(x: u32) -> Seq<u8> {
    seq![(x >> 24) as u8, (x >> 16) as u8, (x >> 8) as u8, x as u8]
}

/// The 32-bit value read from four big-endian bytes.
pub open spec fn spec_u32_from_be_bytes(s: Seq<u8>) -> u32
    recommends
        s.len() == 4,
{
    (((s[0] as u32) << 24) | ((s[1] as u32) << 16) | ((s[2] as u32) << 8) | (s[3] as u32)) as u32
}

proof fn lemma_u32_be_bytes_roundtrip(x: u32)
    ensures
        spec_u32_from_be_bytes(spec_u32_to_be_bytes(x)) == x,
{
    assert((((((x >> 24) as u8) as u32) << 24) | ((((x >> 16) as u8) as u32) << 16) | ((((x
        >> 8) as u8) as u32) << 8) | ((x as u8) as u32)) as u32 == x) by (bit_vector);
}

/// The serialized bytes of one record: the timestamp, the command
/// discriminant, the byte length of the text, then the text's UTF-8
/// bytes; the integers little-endian.
pub open spec fn spec_encode(r: LogModel) -> Seq<u8> {
    spec_u64_to_le_bytes(r.timestamp) + spec_u32_to_le_bytes(spec_tag(r.command))
        + spec_u64_to_le_bytes(encode_utf8(r.data).len() as u64) + encode_utf8(r.data)
}

/// The record read back from the bytes of one frame body, or nothing
/// when they do not follow the encoding: too short for the fixed fields,
/// an unknown discriminant, a length that disagrees with the bytes that
/// follow it, or text that is not valid UTF-8.
pub open spec fn spec_decode(bytes: Seq<u8>) -> Option<LogModel> {
    if bytes.len() < 20 {
        None
    } else {
        let timestamp = spec_u64_from_le_bytes(bytes.subrange(0, 8));
        let tag = spec_u32_from_le_bytes(bytes.subrange(8, 12));
        let len = spec_u64_from_le_bytes(bytes.subrange(12, 20));
        let payload = bytes.subrange(20, bytes.len() as int);
        if (tag == 0 || tag == 1) && len == payload.len() && valid_utf8(payload) {
            Some(LogModel {
                timestamp,
                command: if tag == 0 {
                    LogCommand::Add
                } else {
                    LogCommand::Pop
                },
                data: decode_utf8(payload),
            })
        } else {
            None
        }
    }
}

/// A record fits the file format exactly when its serialized length fits
/// the four-byte frame prefix.
pub open spec fn frameable(r: LogModel) -> bool {
    spec_encode(r).len() <= u32::MAX
}

/// One frame: the record's byte length as four big-endian bytes, then
/// the record itself.
pub open spec fn spec_frame(r: LogModel) -> Seq<u8> {
    spec_u32_to_be_bytes(spec_encode(r).len() as u32) + spec_encode(r)
}

/// Round-trip: decoding an encoded record gives the record back. The one
/// bound asks only that the text's byte length fit the length field, as
/// it does for every record a program can hold.
pub proof fn lemma_round_trip(r: LogModel)
    requires
        encode_utf8(r.data).len() <= u64::MAX,
    ensures
        spec_decode(spec_encode(r)) == Some(r),
{
    lemma_auto_spec_u64_to_from_le_bytes();
    lemma_auto_spec_u32_to_from_le_bytes();
    broadcast use encode_utf8_valid_utf8, encode_utf8_decode_utf8;

    let bytes = spec_encode(r);
    assert(bytes.subrange(0, 8) =~= spec_u64_to_le_bytes(r.timestamp));
    assert(bytes.subrange(8, 12) =~= spec_u32_to_le_bytes(spec_tag(r.command)));
    assert(bytes.subrange(12, 20) =~= spec_u64_to_le_bytes(encode_utf8(r.data).len() as u64));
    assert(bytes.subrange(20, bytes.len() as int) =~= encode_utf8(r.data));
    assert(spec_decode(bytes) == Some(r));
}

/// The format is tight: only the encoding of a record decodes, so a
/// decoded record re-encodes to the very bytes it was read from.
pub proof fn lemma_decode_tight(bytes: Seq<u8>, r: LogModel)
    requires
        spec_decode(bytes) == Some(r),
    ensures
        spec_encode(r) == bytes,
{
    lemma_auto_spec_u64_to_from_le_bytes();
    lemma_auto_spec_u32_to_from_le_bytes();
    let payload = bytes.subrange(20, bytes.len() as int);
    broadcast use vstd::utf8::decode_utf8_encode_utf8;

    assert(encode_utf8(r.data) == payload);
    assert(spec_u64_to_le_bytes(r.timestamp) == bytes.subrange(0, 8));
    assert(spec_u32_to_le_bytes(spec_tag(r.command)) == bytes.subrange(8, 12));
    assert(spec_u64_to_le_bytes(encode_utf8(r.data).len() as u64) == bytes.subrange(12, 20));
    assert(spec_encode(r) =~= bytes);
}

/// The whole log file for a sequence of records: each record's frame,
/// one after another in order.
pub open spec fn spec_log_bytes(rs: Seq<LogModel>) -> Seq<u8>
    decreases rs.len(),
{
    if rs.len() == 0 {
        Seq::empty()
    } else {
        spec_frame(rs.first()) + spec_log_bytes(rs.drop_first())
    }
}

/// Reading a log file front to back: each frame's record in order,
/// oldest first. Fewer than four bytes left is a clean end of file; a
/// promised record that is cut short, or one that does not decode, is
/// corruption (None).
pub open spec fn spec_read_all(bytes: Seq<u8>) -> Option<Seq<LogModel>>
    decreases bytes.len(),
{
    if bytes.len() < 4 {
        Some(Seq::empty())
    } else {
        let n = spec_u32_from_be_bytes(bytes.subrange(0, 4)) as int;
        if bytes.len() - 4 < n {
            None
        } else {
            match spec_decode(bytes.subrange(4, 4 + n)) {
                Some(r) => match spec_read_all(bytes.subrange(4 + n, bytes.len() as int)) {
                    Some(rest) => Some(seq![r] + rest),
                    None => None,
                },
                None => None,
            }
        }
    }
}

/// Reading is a pure function of the bytes: the same file contents give
/// the same records, however often they are read.
pub proof fn lemma_read_idempotent(bytes1: Seq<u8>, bytes2: Seq<u8>)
    requires
        bytes1 == bytes2,
    ensures
        spec_read_all(bytes1) == spec_read_all(bytes2),
{
}

/// One frame at the front of a file reads as its record, followed by
/// whatever the rest of the file reads as.
proof fn lemma_read_frame_prepend(r: LogModel, tail: Seq<u8>)
    requires
        frameable(r),
    ensures
        spec_read_all(spec_frame(r) + tail) == match spec_read_all(tail) {
            Some(rest) => Some(seq![r] + rest),
            None => None::<Seq<LogModel>>,
        },
{
    let body = spec_encode(r);
    let bytes = spec_frame(r) + tail;
    lemma_u32_be_bytes_roundtrip(body.len() as u32);
    assert(bytes.subrange(0, 4) =~= spec_u32_to_be_bytes(body.len() as u32));
    let n = spec_u32_from_be_bytes(bytes.subrange(0, 4)) as int;
    assert(n == body.len());
    assert(bytes.subrange(4, 4 + n) =~= body);
    lemma_round_trip(r);
    assert(bytes.subrange(4 + n, bytes.len() as int) =~= tail);
}

/// A well-formed log file - the frames of a record sequence and nothing
/// else - reads back as exactly that sequence.
pub proof fn lemma_read_log_bytes(rs: Seq<LogModel>)
    requires
        forall|i: int| 0 <= i < rs.len() ==> frameable(#[trigger] rs[i]),
    ensures
        spec_read_all(spec_log_bytes(rs)) == Some(rs),
    decreases rs.len(),
{
    if rs.len() == 0 {
        assert(spec_log_bytes(rs).len() == 0);
        assert(spec_read_all(spec_log_bytes(rs)) == Some(Seq::<LogModel>::empty()));
        assert(rs =~= Seq::<LogModel>::empty());
    } else {
        lemma_read_log_bytes(rs.drop_first());
        lemma_read_frame_prepend(rs.first(), spec_log_bytes(rs.drop_first()));
        assert(seq![rs.first()] + rs.drop_first() =~= rs);
    }
}

/// Append-only: writing one more frame onto a well-formed log leaves a
/// file that reads as the previous records with the new one at the end.
pub proof fn lemma_append_only(rs: Seq<LogModel>, r: LogModel)
    requires
        forall|i: int| 0 <= i < rs.len() ==> frameable(#[trigger] rs[i]),
        frameable(r),
    ensures
        spec_log_bytes(rs.push(r)) == spec_log_bytes(rs) + spec_frame(r),
        spec_read_all(spec_log_bytes(rs) + spec_frame(r)) == Some(rs.push(r)),
    decreases rs.len(),
{
    if rs.len() == 0 {
        assert(rs.push(r).drop_first() =~= rs);
        assert(spec_log_bytes(rs.push(r)) =~= spec_log_bytes(rs) + spec_frame(r));
    } else {
        assert(rs.push(r).drop_first() =~= rs.drop_first().push(r));
        lemma_append_only(rs.drop_first(), r);
        assert(spec_log_bytes(rs.push(r)) =~= spec_log_bytes(rs) + spec_frame(r));
    }
    assert(forall|i: int| 0 <= i < rs.push(r).len() ==> frameable(#[trigger] rs.push(r)[i]));
    lemma_read_log_bytes(rs.push(r));
}

/// Relies on String::from_utf8: it succeeds exactly when the bytes are
/// valid UTF-8, and the string's characters are then their decoding.
#[verifier::external_body]
fn string_from_utf8(bytes: Vec<u8>) -> (out: Option<String>)
    ensures
        out is Some <==> valid_utf8(bytes@),
        out matches Some(s) ==> s@ == decode_utf8(bytes@),
{
    String::from_utf8(bytes).ok()
}

fn u32_to_be_bytes(x: u32) -> (out: Vec<u8>)
    ensures
        out@ == spec_u32_to_be_bytes(x),
{
    let mut out: Vec<u8> = Vec::new();
    out.push((x >> 24) as u8);
    out.push((x >> 16) as u8);
    out.push((x >> 8) as u8);
    out.push(x as u8);
    proof {
        assert(out@ =~= spec_u32_to_be_bytes(x));
    }
    out
}

fn u32_from_be_bytes(s: &[u8]) -> (x: u32)
    requires
        s@.len() == 4,
    ensures
        x == spec_u32_from_be_bytes(s@),
{
    ((*slice_index_get(s, 0) as u32) << 24u32) | ((*slice_index_get(s, 1) as u32) << 16u32) | (
    (*slice_index_get(s, 2) as u32) << 8u32) | (*slice_index_get(s, 3) as u32)
}

impl Log {
    /// Serialize this record, without the frame prefix.
    pub fn encode(&self) -> (out: Vec<u8>)
        ensures
            out@ == spec_encode(self@),
    {
        let mut out = u64_to_le_bytes(self.timestamp);
        let tag: u32 = match self.command {
            LogCommand::Add => 0,
            LogCommand::Pop => 1,
        };
        let mut tag_bytes = u32_to_le_bytes(tag);
        out.append(&mut tag_bytes);
        let mut payload = slice_to_vec(self.data.as_str().as_bytes());
        let mut len_bytes = u64_to_le_bytes(payload.len() as u64);
        out.append(&mut len_bytes);
        out.append(&mut payload);
        proof {
            assert(out@ =~= spec_encode(self@));
        }
        out
    }

    /// Serialize this record behind its four-byte big-endian length
    /// prefix, ready to append to the log; nothing when the record is
    /// too long for the prefix.
    pub fn frame(&self) -> (out: Option<Vec<u8>>)
        ensures
            frameable(self@) ==> (out matches Some(v) && v@ == spec_frame(self@)),
            !frameable(self@) ==> out is None,
    {
        let body = self.encode();
        if (body.len() as u64) > (u32::MAX as u64) {
            return None;
        }
        let mut out = u32_to_be_bytes(body.len() as u32);
        let mut body = body;
        out.append(&mut body);
        proof {
            assert(out@ =~= spec_frame(self@));
        }
        Some(out)
    }

    /// Decode one record from the bytes of one frame body.
    pub fn decode(bytes: &[u8]) -> (out: Result<Log, ReadError>)
        ensures
            match spec_decode(bytes@) {
                Some(r) => out matches Ok(log) && log@ == r,
                None => out == Err::<Log, ReadError>(ReadError::CorruptFrame),
            },
    {
        if bytes.len() < 20 {
            return Err(ReadError::CorruptFrame);
        }
        let timestamp = u64_from_le_bytes(slice_subrange(bytes, 0, 8));
        let tag = u32_from_le_bytes(slice_subrange(bytes, 8, 12));
        let len = u64_from_le_bytes(slice_subrange(bytes, 12, 20));
        let payload = slice_to_vec(slice_subrange(bytes, 20, bytes.len()));
        if tag != 0 && tag != 1 {
            return Err(ReadError::CorruptFrame);
        }
        if len != payload.len() as u64 {
            return Err(ReadError::CorruptFrame);
        }
        let command = if tag == 0 {
            LogCommand::Add
        } else {
            LogCommand::Pop
        };
        match string_from_utf8(payload) {
            Some(data) => Ok(Log { timestamp, command, data }),
            None => Err(ReadError::CorruptFrame),
        }
    }

    /// Decode a whole log file: repeated frames, records oldest first.
    pub fn load_logs(bytes: &[u8]) -> (out: Result<Vec<Log>, ReadError>)
        ensures
            match spec_read_all(bytes@) {
                Some(rs) => out matches Ok(v) && logs_view(v@) == rs,
                None => out == Err::<Vec<Log>, ReadError>(ReadError::CorruptFrame),
            },
    {
        let mut logs: Vec<Log> = Vec::new();
        let mut pos: usize = 0;
        let total = bytes.len();
        proof {
            assert(bytes@.len() == total);
            assert(bytes@.subrange(0, bytes@.len() as int) =~= bytes@);
            assert(logs_view(logs@) =~= Seq::<LogModel>::empty());
            assert(spec_read_all(bytes@) matches Some(rest) ==> logs_view(logs@) + rest =~= rest);
        }
        loop
            invariant
                pos <= bytes@.len() <= usize::MAX,
                (match spec_read_all(bytes@.subrange(pos as int, bytes@.len() as int)) {
                    Some(rest) => spec_read_all(bytes@) == Some(logs_view(logs@) + rest),
                    None => spec_read_all(bytes@) is None,
                }),
            decreases bytes@.len() - pos,
        {
            let ghost rem = bytes@.subrange(pos as int, bytes@.len() as int);
            if bytes.len() - pos < 4 {
                proof {
                    assert(logs_view(logs@) + Seq::<LogModel>::empty() =~= logs_view(logs@));
                }
                return Ok(logs);
            }
            let n32 = u32_from_be_bytes(slice_subrange(bytes, pos, pos + 4));
            let n = n32 as usize;
            proof {
                assert(rem.subrange(0, 4) =~= bytes@.subrange(pos as int, pos as int + 4));
            }
            if bytes.len() - pos - 4 < n {
                return Err(ReadError::CorruptFrame);
            }
            let body = slice_subrange(bytes, pos + 4, pos + 4 + n);
            proof {
                assert(rem.subrange(4, 4 + n as int) =~= body@);
            }
            match Log::decode(body) {
                Ok(log) => {
                    proof {
                        let rem2 = bytes@.subrange(
                            pos as int + 4 + n as int,
                            bytes@.len() as int,
                        );
                        assert(rem.subrange(4 + n as int, rem.len() as int) =~= rem2);
                        assert(logs_view(logs@.push(log)) =~= logs_view(logs@).push(log@));
                        assert(spec_read_all(rem2) matches Some(rest2) ==> logs_view(logs@)
                            + (seq![log@] + rest2) =~= logs_view(logs@.push(log)) + rest2);
                    }
                    logs.push(log);
                    pos = pos + 4 + n;
                },
                Err(_) => {
                    return Err(ReadError::CorruptFrame);
                },
            }
        }
    }
}

} // verus!
