//! The wire form, as mathematics: what a message encodes to, and what a
//! byte buffer parses back to.
//!
//! Encoding writes every name flat; compression pointers are accepted on
//! input only. A pointer must aim strictly before the name being read
//! (`limit` below), so a chain of pointers always moves backwards and a
//! self- or forward-pointing buffer is rejected rather than followed.

use vstd::prelude::*;

use crate::packet::{
    DecodeError, PacketV, QuestionV, RecordDataV, RecordV, rtype_of, wf_name, TYPE_A, TYPE_PTR,
    TYPE_SRV, TYPE_TXT,
};

verus! {

pub open spec fn be16(hi: u8, lo: u8) -> u16 {
    ((hi as int) * 256 + (lo as int)) as u16
}

pub open spec fn be32(b0: u8, b1: u8, b2: u8, b3: u8) -> u32 {
    ((b0 as int) * 0x1000000 + (b1 as int) * 0x10000 + (b2 as int) * 0x100 + (b3 as int)) as u32
}

pub open spec fn enc_u16(x: u16) -> Seq<u8> {
    seq![(x / 256) as u8, (x % 256) as u8]
}

pub open spec fn enc_u32(x: u32) -> Seq<u8> {
    seq![
        (x / 0x1000000) as u8,
        ((x / 0x10000) % 256) as u8,
        ((x / 0x100) % 256) as u8,
        (x % 256) as u8,
    ]
}

/// The labels of `n` from index `i` on, each behind its length byte,
/// closed by the zero terminator.
pub open spec fn enc_name_from(n: Seq<Seq<u8>>, i: int) -> Seq<u8>
    decreases n.len() - i,
{
    if i < 0 || i >= n.len() {
        seq![0u8]
    } else {
        seq![n[i].len() as u8] + n[i] + enc_name_from(n, i + 1)
    }
}

pub open spec fn enc_name(n: Seq<Seq<u8>>) -> Seq<u8> {
    enc_name_from(n, 0)
}

/// TXT payload: each string behind its length byte, no terminator.
pub open spec fn enc_txt_from(s: Seq<Seq<u8>>, i: int) -> Seq<u8>
    decreases s.len() - i,
{
    if i < 0 || i >= s.len() {
        Seq::empty()
    } else {
        seq![s[i].len() as u8] + s[i] + enc_txt_from(s, i + 1)
    }
}

pub open spec fn enc_rdata(d: RecordDataV) -> Seq<u8> {
    match d {
        RecordDataV::A { addr } => enc_u32(addr),
        RecordDataV::Ptr { name } => enc_name(name),
        RecordDataV::Srv { priority, weight, port, target } => enc_u16(priority) + enc_u16(
            weight,
        ) + enc_u16(port) + enc_name(target),
        RecordDataV::Txt { strings } => enc_txt_from(strings, 0),
        RecordDataV::Other { payload, .. } => payload,
    }
}

pub open spec fn enc_question(q: QuestionV) -> Seq<u8> {
    enc_name(q.name) + enc_u16(q.rtype) + enc_u16(q.qclass)
}

pub open spec fn enc_record(r: RecordV) -> Seq<u8> {
    enc_name(r.name) + enc_u16(rtype_of(r.data)) + enc_u16(r.class) + enc_u32(r.ttl) + enc_u16(
        enc_rdata(r.data).len() as u16,
    ) + enc_rdata(r.data)
}

pub open spec fn enc_questions_from(qs: Seq<QuestionV>, i: int) -> Seq<u8>
    decreases qs.len() - i,
{
    if i < 0 || i >= qs.len() {
        Seq::empty()
    } else {
        enc_question(qs[i]) + enc_questions_from(qs, i + 1)
    }
}

pub open spec fn enc_records_from(rs: Seq<RecordV>, i: int) -> Seq<u8>
    decreases rs.len() - i,
{
    if i < 0 || i >= rs.len() {
        Seq::empty()
    } else {
        enc_record(rs[i]) + enc_records_from(rs, i + 1)
    }
}

/// The whole message: the twelve-byte header, with every count taken from
/// the actual list length, then the four sections in order.
pub open spec fn enc_message(m: PacketV) -> Seq<u8> {
    enc_u16(m.id) + enc_u16(m.flags) + enc_u16(m.questions.len() as u16) + enc_u16(
        m.answers.len() as u16,
    ) + enc_u16(m.authorities.len() as u16) + enc_u16(m.additionals.len() as u16)
        + enc_questions_from(m.questions, 0) + enc_records_from(m.answers, 0) + enc_records_from(
        m.authorities,
        0,
    ) + enc_records_from(m.additionals, 0)
}

/// A payload the codec can write: names well formed, TXT strings within
/// their one-byte length, the whole payload within its two-byte length,
/// and an opaque payload never posing as a type the decoder interprets.
pub open spec fn wf_rdata(d: RecordDataV) -> bool {
    &&& match d {
        RecordDataV::A { .. } => true,
        RecordDataV::Ptr { name } => wf_name(name),
        RecordDataV::Srv { target, .. } => wf_name(target),
        RecordDataV::Txt { strings } => forall|i: int|
            0 <= i < strings.len() ==> (#[trigger] strings[i]).len() <= 255,
        RecordDataV::Other { rtype, .. } => rtype != TYPE_A && rtype != TYPE_PTR && rtype
            != TYPE_TXT && rtype != TYPE_SRV,
    }
    &&& enc_rdata(d).len() <= 0xFFFF
}

pub open spec fn wf_question(q: QuestionV) -> bool {
    wf_name(q.name)
}

pub open spec fn wf_record(r: RecordV) -> bool {
    wf_name(r.name) && wf_rdata(r.data)
}

/// A message the codec can write: sections short enough for their
/// sixteen-bit counts, every member well formed.
pub open spec fn wf_message(m: PacketV) -> bool {
    &&& m.questions.len() <= 0xFFFF
    &&& m.answers.len() <= 0xFFFF
    &&& m.authorities.len() <= 0xFFFF
    &&& m.additionals.len() <= 0xFFFF
    &&& forall|i: int| 0 <= i < m.questions.len() ==> wf_question(#[trigger] m.questions[i])
    &&& forall|i: int| 0 <= i < m.answers.len() ==> wf_record(#[trigger] m.answers[i])
    &&& forall|i: int| 0 <= i < m.authorities.len() ==> wf_record(#[trigger] m.authorities[i])
    &&& forall|i: int| 0 <= i < m.additionals.len() ==> wf_record(#[trigger] m.additionals[i])
}

/// Reads labels at `pos`, following compression pointers. A pointer must
/// target an offset strictly below `limit` — initially where the name
/// began — so every jump moves strictly backwards and the read terminates.
pub open spec fn parse_labels(data: Seq<u8>, pos: int, limit: int) -> Result<
    Seq<Seq<u8>>,
    DecodeError,
>
    decreases limit, data.len() - pos,
{
    if pos < 0 || limit < 0 || pos >= data.len() {
        Err(DecodeError::Truncated)
    } else {
        let b = data[pos];
        if b == 0 {
            Ok(Seq::empty())
        } else if b < 64 {
            if pos + 1 + (b as int) > data.len() {
                Err(DecodeError::Truncated)
            } else {
                match parse_labels(data, pos + 1 + (b as int), limit) {
                    Ok(rest) => Ok(seq![data.subrange(pos + 1, pos + 1 + (b as int))] + rest),
                    Err(e) => Err(e),
                }
            }
        } else if b >= 192 {
            if pos + 2 > data.len() {
                Err(DecodeError::Truncated)
            } else {
                let target = ((b as int) - 192) * 256 + (data[pos + 1] as int);
                if target >= limit {
                    Err(DecodeError::BadPointer)
                } else {
                    parse_labels(data, target, target)
                }
            }
        } else {
            Err(DecodeError::BadLabel)
        }
    }
}

/// Where a name read at `pos` ends in the top-level stream: one past the
/// zero terminator, or two past the first pointer.
pub open spec fn name_end(data: Seq<u8>, pos: int) -> Result<int, DecodeError>
    decreases data.len() - pos,
{
    if pos < 0 || pos >= data.len() {
        Err(DecodeError::Truncated)
    } else {
        let b = data[pos];
        if b == 0 {
            Ok(pos + 1)
        } else if b < 64 {
            if pos + 1 + (b as int) > data.len() {
                Err(DecodeError::Truncated)
            } else {
                name_end(data, pos + 1 + (b as int))
            }
        } else if b >= 192 {
            if pos + 2 > data.len() {
                Err(DecodeError::Truncated)
            } else {
                Ok(pos + 2)
            }
        } else {
            Err(DecodeError::BadLabel)
        }
    }
}

pub open spec fn parse_name(data: Seq<u8>, pos: int) -> Result<(Seq<Seq<u8>>, int), DecodeError> {
    match parse_labels(data, pos, pos) {
        Ok(labels) => match name_end(data, pos) {
            Ok(end) => Ok((labels, end)),
            Err(e) => Err(e),
        },
        Err(e) => Err(e),
    }
}

pub open spec fn parse_question(data: Seq<u8>, pos: int) -> Result<(QuestionV, int), DecodeError> {
    match parse_name(data, pos) {
        Ok((name, p)) => if p + 4 > data.len() {
            Err(DecodeError::Truncated)
        } else {
            Ok(
                (
                    QuestionV {
                        name,
                        rtype: be16(data[p], data[p + 1]),
                        qclass: be16(data[p + 2], data[p + 3]),
                    },
                    p + 4,
                ),
            )
        },
        Err(e) => Err(e),
    }
}

/// TXT strings filling `pos..end` exactly.
pub open spec fn parse_txt(data: Seq<u8>, pos: int, end: int) -> Result<Seq<Seq<u8>>, DecodeError>
    decreases end - pos,
{
    if pos < 0 || end > data.len() {
        Err(DecodeError::Truncated)
    } else if pos >= end {
        Ok(Seq::empty())
    } else {
        let l = data[pos] as int;
        if pos + 1 + l > end {
            Err(DecodeError::BadLength)
        } else {
            match parse_txt(data, pos + 1 + l, end) {
                Ok(rest) => Ok(seq![data.subrange(pos + 1, pos + 1 + l)] + rest),
                Err(e) => Err(e),
            }
        }
    }
}

/// Interprets `rdlen` payload bytes at `pos` under the record type read
/// from the wire. Unrecognized types are kept as an opaque blob.
pub open spec fn parse_rdata(data: Seq<u8>, rtype: u16, pos: int, rdlen: int) -> Result<
    RecordDataV,
    DecodeError,
> {
    let end = pos + rdlen;
    if pos < 0 || rdlen < 0 || end > data.len() {
        Err(DecodeError::Truncated)
    } else if rtype == TYPE_A {
        if rdlen != 4 {
            Err(DecodeError::BadLength)
        } else {
            Ok(RecordDataV::A { addr: be32(data[pos], data[pos + 1], data[pos + 2], data[pos + 3]) })
        }
    } else if rtype == TYPE_PTR {
        match parse_name(data, pos) {
            Ok((name, e)) => if e == end {
                Ok(RecordDataV::Ptr { name })
            } else {
                Err(DecodeError::BadLength)
            },
            Err(e) => Err(e),
        }
    } else if rtype == TYPE_SRV {
        if rdlen < 6 {
            Err(DecodeError::BadLength)
        } else {
            match parse_name(data, pos + 6) {
                Ok((target, e)) => if e == end {
                    Ok(
                        RecordDataV::Srv {
                            priority: be16(data[pos], data[pos + 1]),
                            weight: be16(data[pos + 2], data[pos + 3]),
                            port: be16(data[pos + 4], data[pos + 5]),
                            target,
                        },
                    )
                } else {
                    Err(DecodeError::BadLength)
                },
                Err(e) => Err(e),
            }
        }
    } else if rtype == TYPE_TXT {
        match parse_txt(data, pos, end) {
            Ok(strings) => Ok(RecordDataV::Txt { strings }),
            Err(e) => Err(e),
        }
    } else {
        Ok(RecordDataV::Other { rtype, payload: data.subrange(pos, end) })
    }
}

pub open spec fn parse_record(data: Seq<u8>, pos: int) -> Result<(RecordV, int), DecodeError> {
    match parse_name(data, pos) {
        Ok((name, p)) => if p + 10 > data.len() {
            Err(DecodeError::Truncated)
        } else {
            let rtype = be16(data[p], data[p + 1]);
            let class = be16(data[p + 2], data[p + 3]);
            let ttl = be32(data[p + 4], data[p + 5], data[p + 6], data[p + 7]);
            let rdlen = be16(data[p + 8], data[p + 9]) as int;
            if p + 10 + rdlen > data.len() {
                Err(DecodeError::Truncated)
            } else {
                match parse_rdata(data, rtype, p + 10, rdlen) {
                    Ok(d) => Ok((RecordV { name, class, ttl, data: d }, p + 10 + rdlen)),
                    Err(e) => Err(e),
                }
            }
        },
        Err(e) => Err(e),
    }
}

pub open spec fn parse_questions(data: Seq<u8>, pos: int, n: int) -> Result<
    (Seq<QuestionV>, int),
    DecodeError,
>
    decreases n,
{
    if n <= 0 {
        Ok((Seq::empty(), pos))
    } else {
        match parse_question(data, pos) {
            Ok((q, p)) => match parse_questions(data, p, n - 1) {
                Ok((rest, p2)) => Ok((seq![q] + rest, p2)),
                Err(e) => Err(e),
            },
            Err(e) => Err(e),
        }
    }
}

pub open spec fn parse_records(data: Seq<u8>, pos: int, n: int) -> Result<
    (Seq<RecordV>, int),
    DecodeError,
>
    decreases n,
{
    if n <= 0 {
        Ok((Seq::empty(), pos))
    } else {
        match parse_record(data, pos) {
            Ok((r, p)) => match parse_records(data, p, n - 1) {
                Ok((rest, p2)) => Ok((seq![r] + rest, p2)),
                Err(e) => Err(e),
            },
            Err(e) => Err(e),
        }
    }
}

/// The whole message: header, then the declared counts of questions and
/// records in order. Bytes past the last record are ignored.
pub open spec fn parse_message(data: Seq<u8>) -> Result<PacketV, DecodeError> {
    if data.len() < 12 {
        Err(DecodeError::Truncated)
    } else {
        let id = be16(data[0], data[1]);
        let flags = be16(data[2], data[3]);
        let qd = be16(data[4], data[5]) as int;
        let an = be16(data[6], data[7]) as int;
        let ns = be16(data[8], data[9]) as int;
        let ar = be16(data[10], data[11]) as int;
        match parse_questions(data, 12, qd) {
            Ok((questions, p1)) => match parse_records(data, p1, an) {
                Ok((answers, p2)) => match parse_records(data, p2, ns) {
                    Ok((authorities, p3)) => match parse_records(data, p3, ar) {
                        Ok((additionals, _p4)) => Ok(
                            PacketV { id, flags, questions, answers, authorities, additionals },
                        ),
                        Err(e) => Err(e),
                    },
                    Err(e) => Err(e),
                },
                Err(e) => Err(e),
            },
            Err(e) => Err(e),
        }
    }
}

} // verus!
