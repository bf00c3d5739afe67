//! The executable codec: `decode` parses a datagram into a [`Packet`] and
//! `encode` writes a [`Packet`] back out, each proved to compute exactly
//! the wire functions of [`crate::wire`].

use vstd::prelude::*;

use crate::packet::{
    labels_view, questions_view, records_view, rtype_of, wf_label, wf_name, DecodeError, Name,
    Packet, PacketV, Question, QuestionV, Record, RecordData, RecordDataV, RecordV, TYPE_A,
    TYPE_PTR, TYPE_SRV, TYPE_TXT,
};
use crate::wire::{
    be16, be32, enc_message, enc_name, enc_name_from, enc_question, enc_questions_from, enc_rdata,
    enc_record, enc_records_from, enc_txt_from, enc_u16, enc_u32, name_end, parse_labels,
    parse_message, parse_name, parse_question, parse_questions, parse_rdata, parse_record,
    parse_records, parse_txt, wf_message, wf_question, wf_rdata, wf_record,
};

verus! {

fn read_u16(data: &Vec<u8>, pos: usize) -> (r: u16)
    requires
        pos + 2 <= data@.len(),
    ensures
        r == be16(data@[pos as int], data@[pos as int + 1]),
{
    let dlen: usize = data.len();
    (data[pos] as u16) * 256 + (data[pos + 1] as u16)
}

fn read_u32(data: &Vec<u8>, pos: usize) -> (r: u32)
    requires
        pos + 4 <= data@.len(),
    ensures
        r == be32(
            data@[pos as int],
            data@[pos as int + 1],
            data@[pos as int + 2],
            data@[pos as int + 3],
        ),
{
    let dlen: usize = data.len();
    (data[pos] as u32) * 0x1000000 + (data[pos + 1] as u32) * 0x10000 + (data[pos + 2] as u32)
        * 0x100 + (data[pos + 3] as u32)
}

/// Copies `data[pos..pos + n]` out.
fn read_bytes(data: &Vec<u8>, pos: usize, n: usize) -> (r: Vec<u8>)
    requires
        pos + n <= data@.len(),
    ensures
        r@ == data@.subrange(pos as int, pos as int + n as int),
{
    let dlen: usize = data.len();
    let mut out: Vec<u8> = Vec::new();
    let mut j: usize = 0;
    while j < n
        invariant
            pos + n <= dlen,
            dlen == data@.len(),
            j <= n,
            out@ == data@.subrange(pos as int, pos as int + j as int),
        decreases n - j,
    {
        out.push(data[pos + j]);
        assert(out@ =~= data@.subrange(pos as int, pos as int + j as int + 1));
        j += 1;
    }
    out
}

fn read_labels(data: &Vec<u8>, pos: usize, limit: usize) -> (r: Result<Vec<Vec<u8>>, DecodeError>)
    ensures
        match r {
            Ok(v) => parse_labels(data@, pos as int, limit as int) == Ok::<
                Seq<Seq<u8>>,
                DecodeError,
            >(labels_view(v@)),
            Err(e) => parse_labels(data@, pos as int, limit as int) == Err::<
                Seq<Seq<u8>>,
                DecodeError,
            >(e),
        },
    decreases limit, data@.len() - pos,
{
    if pos >= data.len() {
        return Err(DecodeError::Truncated);
    }
    let b: u8 = data[pos];
    if b == 0 {
        let v: Vec<Vec<u8>> = Vec::new();
        assert(labels_view(v@) =~= Seq::<Seq<u8>>::empty());
        Ok(v)
    } else if b < 64 {
        let blen: usize = b as usize;
        if data.len() - pos - 1 < blen {
            return Err(DecodeError::Truncated);
        }
        let label: Vec<u8> = read_bytes(data, pos + 1, blen);
        match read_labels(data, pos + 1 + blen, limit) {
            Ok(mut rest) => {
                let ghost prev = rest@;
                rest.insert(0, label);
                assert(labels_view(rest@) =~= seq![
                    data@.subrange(pos as int + 1, pos as int + 1 + b as int),
                ] + labels_view(prev));
                Ok(rest)
            },
            Err(e) => Err(e),
        }
    } else if b >= 192 {
        if data.len() - pos < 2 {
            return Err(DecodeError::Truncated);
        }
        let target: usize = (b as usize - 192) * 256 + (data[pos + 1] as usize);
        if target >= limit {
            Err(DecodeError::BadPointer)
        } else {
            read_labels(data, target, target)
        }
    } else {
        Err(DecodeError::BadLabel)
    }
}

fn find_name_end(data: &Vec<u8>, pos: usize) -> (r: Result<usize, DecodeError>)
    ensures
        match r {
            Ok(e) => name_end(data@, pos as int) == Ok::<int, DecodeError>(e as int) && e
                <= data@.len(),
            Err(er) => name_end(data@, pos as int) == Err::<int, DecodeError>(er),
        },
    decreases data@.len() - pos,
{
    if pos >= data.len() {
        return Err(DecodeError::Truncated);
    }
    let b: u8 = data[pos];
    if b == 0 {
        Ok(pos + 1)
    } else if b < 64 {
        let blen: usize = b as usize;
        if data.len() - pos - 1 < blen {
            return Err(DecodeError::Truncated);
        }
        find_name_end(data, pos + 1 + blen)
    } else if b >= 192 {
        if data.len() - pos < 2 {
            return Err(DecodeError::Truncated);
        }
        Ok(pos + 2)
    } else {
        Err(DecodeError::BadLabel)
    }
}

fn read_name(data: &Vec<u8>, pos: usize) -> (r: Result<(Name, usize), DecodeError>)
    ensures
        match r {
            Ok(p) => parse_name(data@, pos as int) == Ok::<(Seq<Seq<u8>>, int), DecodeError>(
                (p.0@, p.1 as int),
            ) && p.1 <= data@.len(),
            Err(e) => parse_name(data@, pos as int) == Err::<(Seq<Seq<u8>>, int), DecodeError>(e),
        },
{
    match read_labels(data, pos, pos) {
        Ok(labels) => match find_name_end(data, pos) {
            Ok(end) => Ok((Name { labels }, end)),
            Err(e) => Err(e),
        },
        Err(e) => Err(e),
    }
}

fn read_question(data: &Vec<u8>, pos: usize) -> (r: Result<(Question, usize), DecodeError>)
    ensures
        match r {
            Ok(p) => parse_question(data@, pos as int) == Ok::<(QuestionV, int), DecodeError>(
                (p.0@, p.1 as int),
            ) && p.1 <= data@.len(),
            Err(e) => parse_question(data@, pos as int) == Err::<(QuestionV, int), DecodeError>(e),
        },
{
    match read_name(data, pos) {
        Ok((name, p)) => {
            if data.len() - p < 4 {
                return Err(DecodeError::Truncated);
            }
            let rtype: u16 = read_u16(data, p);
            let qclass: u16 = read_u16(data, p + 2);
            Ok((Question { name, rtype, qclass }, p + 4))
        },
        Err(e) => Err(e),
    }
}

fn read_txt(data: &Vec<u8>, pos: usize, end: usize) -> (r: Result<Vec<Vec<u8>>, DecodeError>)
    ensures
        match r {
            Ok(v) => parse_txt(data@, pos as int, end as int) == Ok::<Seq<Seq<u8>>, DecodeError>(
                labels_view(v@),
            ),
            Err(e) => parse_txt(data@, pos as int, end as int) == Err::<Seq<Seq<u8>>, DecodeError>(
                e,
            ),
        },
    decreases end - pos,
{
    if end > data.len() {
        return Err(DecodeError::Truncated);
    }
    if pos >= end {
        let v: Vec<Vec<u8>> = Vec::new();
        assert(labels_view(v@) =~= Seq::<Seq<u8>>::empty());
        return Ok(v);
    }
    let l: usize = data[pos] as usize;
    if end - pos - 1 < l {
        return Err(DecodeError::BadLength);
    }
    let s: Vec<u8> = read_bytes(data, pos + 1, l);
    match read_txt(data, pos + 1 + l, end) {
        Ok(mut rest) => {
            let ghost prev = rest@;
            rest.insert(0, s);
            assert(labels_view(rest@) =~= seq![
                data@.subrange(pos as int + 1, pos as int + 1 + l as int),
            ] + labels_view(prev));
            Ok(rest)
        },
        Err(e) => Err(e),
    }
}

fn read_rdata(data: &Vec<u8>, rtype: u16, pos: usize, rdlen: usize) -> (r: Result<
    RecordData,
    DecodeError,
>)
    ensures
        match r {
            Ok(d) => parse_rdata(data@, rtype, pos as int, rdlen as int) == Ok::<
                RecordDataV,
                DecodeError,
            >(d@),
            Err(e) => parse_rdata(data@, rtype, pos as int, rdlen as int) == Err::<
                RecordDataV,
                DecodeError,
            >(e),
        },
{
    if rdlen > data.len() || pos > data.len() - rdlen {
        return Err(DecodeError::Truncated);
    }
    let end: usize = pos + rdlen;
    if rtype == TYPE_A {
        if rdlen != 4 {
            Err(DecodeError::BadLength)
        } else {
            Ok(RecordData::A { addr: read_u32(data, pos) })
        }
    } else if rtype == TYPE_PTR {
        match read_name(data, pos) {
            Ok((name, e)) => if e == end {
                Ok(RecordData::Ptr { name })
            } else {
                Err(DecodeError::BadLength)
            },
            Err(e) => Err(e),
        }
    } else if rtype == TYPE_SRV {
        if rdlen < 6 {
            return Err(DecodeError::BadLength);
        }
        let priority: u16 = read_u16(data, pos);
        let weight: u16 = read_u16(data, pos + 2);
        let port: u16 = read_u16(data, pos + 4);
        match read_name(data, pos + 6) {
            Ok((target, e)) => if e == end {
                Ok(RecordData::Srv { priority, weight, port, target })
            } else {
                Err(DecodeError::BadLength)
            },
            Err(e) => Err(e),
        }
    } else if rtype == TYPE_TXT {
        match read_txt(data, pos, end) {
            Ok(strings) => Ok(RecordData::Txt { strings }),
            Err(e) => Err(e),
        }
    } else {
        Ok(RecordData::Other { rtype, payload: read_bytes(data, pos, rdlen) })
    }
}

fn read_record(data: &Vec<u8>, pos: usize) -> (r: Result<(Record, usize), DecodeError>)
    ensures
        match r {
            Ok(p) => parse_record(data@, pos as int) == Ok::<(RecordV, int), DecodeError>(
                (p.0@, p.1 as int),
            ) && p.1 <= data@.len(),
            Err(e) => parse_record(data@, pos as int) == Err::<(RecordV, int), DecodeError>(e),
        },
{
    match read_name(data, pos) {
        Ok((name, p)) => {
            if data.len() - p < 10 {
                return Err(DecodeError::Truncated);
            }
            let rtype: u16 = read_u16(data, p);
            let class: u16 = read_u16(data, p + 2);
            let ttl: u32 = read_u32(data, p + 4);
            let rdlen: usize = read_u16(data, p + 8) as usize;
            if data.len() - (p + 10) < rdlen {
                return Err(DecodeError::Truncated);
            }
            match read_rdata(data, rtype, p + 10, rdlen) {
                Ok(d) => Ok((Record { name, class, ttl, data: d }, p + 10 + rdlen)),
                Err(e) => Err(e),
            }
        },
        Err(e) => Err(e),
    }
}

fn read_questions(data: &Vec<u8>, pos: usize, n: u16) -> (r: Result<
    (Vec<Question>, usize),
    DecodeError,
>)
    requires
        pos <= data@.len(),
    ensures
        match r {
            Ok(p) => parse_questions(data@, pos as int, n as int) == Ok::<
                (Seq<QuestionV>, int),
                DecodeError,
            >((questions_view(p.0@), p.1 as int)) && p.1 <= data@.len(),
            Err(e) => parse_questions(data@, pos as int, n as int) == Err::<
                (Seq<QuestionV>, int),
                DecodeError,
            >(e),
        },
    decreases n,
{
    if n == 0 {
        let v: Vec<Question> = Vec::new();
        assert(questions_view(v@) =~= Seq::<QuestionV>::empty());
        return Ok((v, pos));
    }
    match read_question(data, pos) {
        Ok((q, p)) => match read_questions(data, p, n - 1) {
            Ok((mut rest, p2)) => {
                let ghost prev = rest@;
                rest.insert(0, q);
                assert(questions_view(rest@) =~= seq![q@] + questions_view(prev));
                Ok((rest, p2))
            },
            Err(e) => Err(e),
        },
        Err(e) => Err(e),
    }
}

fn read_records(data: &Vec<u8>, pos: usize, n: u16) -> (r: Result<
    (Vec<Record>, usize),
    DecodeError,
>)
    requires
        pos <= data@.len(),
    ensures
        match r {
            Ok(p) => parse_records(data@, pos as int, n as int) == Ok::<
                (Seq<RecordV>, int),
                DecodeError,
            >((records_view(p.0@), p.1 as int)) && p.1 <= data@.len(),
            Err(e) => parse_records(data@, pos as int, n as int) == Err::<
                (Seq<RecordV>, int),
                DecodeError,
            >(e),
        },
    decreases n,
{
    if n == 0 {
        let v: Vec<Record> = Vec::new();
        assert(records_view(v@) =~= Seq::<RecordV>::empty());
        return Ok((v, pos));
    }
    match read_record(data, pos) {
        Ok((rec, p)) => match read_records(data, p, n - 1) {
            Ok((mut rest, p2)) => {
                let ghost prev = rest@;
                rest.insert(0, rec);
                assert(records_view(rest@) =~= seq![rec@] + records_view(prev));
                Ok((rest, p2))
            },
            Err(e) => Err(e),
        },
        Err(e) => Err(e),
    }
}

/// Parses one datagram. The result is exactly what [`parse_message`] says
/// of the bytes: the structured message on success, and the reason — a
/// truncated buffer, a bad compression pointer, a reserved label form, or
/// a wrong declared length — on failure.
pub fn decode(data: &Vec<u8>) -> (r: Result<Packet, DecodeError>)
    ensures
        match r {
            Ok(p) => parse_message(data@) == Ok::<PacketV, DecodeError>(p@),
            Err(e) => parse_message(data@) == Err::<PacketV, DecodeError>(e),
        },
{
    if data.len() < 12 {
        return Err(DecodeError::Truncated);
    }
    let id: u16 = read_u16(data, 0);
    let flags: u16 = read_u16(data, 2);
    let qd: u16 = read_u16(data, 4);
    let an: u16 = read_u16(data, 6);
    let ns: u16 = read_u16(data, 8);
    let ar: u16 = read_u16(data, 10);
    let (questions, p1) = match read_questions(data, 12, qd) {
        Ok(p) => p,
        Err(e) => {
            return Err(e);
        },
    };
    let (answers, p2) = match read_records(data, p1, an) {
        Ok(p) => p,
        Err(e) => {
            return Err(e);
        },
    };
    let (authorities, p3) = match read_records(data, p2, ns) {
        Ok(p) => p,
        Err(e) => {
            return Err(e);
        },
    };
    let (additionals, _p4) = match read_records(data, p3, ar) {
        Ok(p) => p,
        Err(e) => {
            return Err(e);
        },
    };
    let out = Packet { id, flags, questions, answers, authorities, additionals };
    assert(parse_message(data@) == Ok::<PacketV, DecodeError>(out@)) by {
        assert(out@ =~= parse_message(data@)->Ok_0);
    }
    Ok(out)
}

/// Whether every label of the name fits its length byte.
fn name_wf(n: &Name) -> (r: bool)
    ensures
        r == wf_name(n@),
{
    let mut i: usize = 0;
    while i < n.labels.len()
        invariant
            i <= n.labels@.len(),
            forall|k: int| 0 <= k < i ==> wf_label(#[trigger] n@[k]),
        decreases n.labels@.len() - i,
    {
        assert(n@[i as int] == n.labels@[i as int]@);
        let ll: usize = n.labels[i].len();
        if ll < 1 || ll > 63 {
            assert(!wf_label(n@[i as int]));
            return false;
        }
        assert(wf_label(n@[i as int]));
        i += 1;
    }
    true
}

proof fn lemma_enc_name_len_pos(n: Seq<Seq<u8>>, i: int)
    ensures
        enc_name_from(n, i).len() >= 1,
    decreases n.len() - i,
{
    if 0 <= i < n.len() {
        lemma_enc_name_len_pos(n, i + 1);
    }
}

/// How many bytes the name takes on the wire, or `None` when that exceeds
/// the largest two-byte length.
fn name_wire_len(n: &Name) -> (r: Option<u16>)
    ensures
        match r {
            Some(l) => l as int == enc_name(n@).len(),
            None => enc_name(n@).len() > 0xFFFF,
        },
{
    let mut acc: u32 = 0;
    let mut i: usize = 0;
    while i < n.labels.len()
        invariant
            i <= n.labels@.len(),
            acc <= 0xFFFF,
            acc + enc_name_from(n@, i as int).len() == enc_name(n@).len(),
        decreases n.labels@.len() - i,
    {
        assert(n@[i as int] == n.labels@[i as int]@);
        let ll: usize = n.labels[i].len();
        proof {
            lemma_enc_name_len_pos(n@, i as int + 1);
        }
        if ll > 0xFFFF {
            return None;
        }
        acc = acc + 1 + (ll as u32);
        if acc > 0xFFFF {
            return None;
        }
        i += 1;
    }
    if acc + 1 > 0xFFFF {
        None
    } else {
        Some((acc + 1) as u16)
    }
}

/// How many bytes the TXT strings take on the wire, or `None` when that
/// exceeds the largest two-byte length.
fn txt_wire_len(strings: &Vec<Vec<u8>>) -> (r: Option<u16>)
    ensures
        match r {
            Some(l) => l as int == enc_txt_from(labels_view(strings@), 0).len(),
            None => enc_txt_from(labels_view(strings@), 0).len() > 0xFFFF,
        },
{
    let ghost sv = labels_view(strings@);
    let mut acc: u32 = 0;
    let mut i: usize = 0;
    while i < strings.len()
        invariant
            sv == labels_view(strings@),
            i <= strings@.len(),
            acc <= 0xFFFF,
            acc + enc_txt_from(sv, i as int).len() == enc_txt_from(sv, 0).len(),
        decreases strings@.len() - i,
    {
        assert(sv[i as int] == strings@[i as int]@);
        let ll: usize = strings[i].len();
        if ll > 0xFFFF {
            return None;
        }
        acc = acc + 1 + (ll as u32);
        if acc > 0xFFFF {
            return None;
        }
        i += 1;
    }
    Some(acc as u16)
}

/// Whether a record payload is within the wire format's limits.
fn rdata_wf(d: &RecordData) -> (r: bool)
    ensures
        r == wf_rdata(d@),
{
    match d {
        RecordData::A { .. } => true,
        RecordData::Ptr { name } => name_wf(name) && name_wire_len(name).is_some(),
        RecordData::Srv { target, .. } => {
            if !name_wf(target) {
                return false;
            }
            match name_wire_len(target) {
                Some(l) => l <= 0xFFF9,
                None => false,
            }
        },
        RecordData::Txt { strings } => {
            let mut i: usize = 0;
            while i < strings.len()
                invariant
                    d@ == (RecordDataV::Txt { strings: labels_view(strings@) }),
                    i <= strings@.len(),
                    forall|k: int|
                        0 <= k < i ==> (#[trigger] labels_view(strings@)[k]).len() <= 255,
                decreases strings@.len() - i,
            {
                assert(labels_view(strings@)[i as int] == strings@[i as int]@);
                if strings[i].len() > 255 {
                    return false;
                }
                i += 1;
            }
            txt_wire_len(strings).is_some()
        },
        RecordData::Other { rtype, payload } => {
            *rtype != TYPE_A && *rtype != TYPE_PTR && *rtype != TYPE_TXT && *rtype != TYPE_SRV
                && payload.len() <= 0xFFFF
        },
    }
}

fn question_wf(q: &Question) -> (r: bool)
    ensures
        r == wf_question(q@),
{
    name_wf(&q.name)
}

fn record_wf(rec: &Record) -> (r: bool)
    ensures
        r == wf_record(rec@),
{
    name_wf(&rec.name) && rdata_wf(&rec.data)
}

fn records_wf(rs: &Vec<Record>) -> (r: bool)
    ensures
        r == forall|k: int| 0 <= k < rs@.len() ==> wf_record(#[trigger] records_view(rs@)[k]),
{
    let mut i: usize = 0;
    while i < rs.len()
        invariant
            i <= rs@.len(),
            forall|k: int| 0 <= k < i ==> wf_record(#[trigger] records_view(rs@)[k]),
        decreases rs@.len() - i,
    {
        assert(records_view(rs@)[i as int] == rs@[i as int]@);
        if !record_wf(&rs[i]) {
            return false;
        }
        i += 1;
    }
    true
}

/// Whether the message is within the wire format's limits, so that
/// [`encode`] accepts it: section counts that fit sixteen bits, labels
/// that fit their length byte, TXT strings and payloads that fit theirs.
pub fn message_wf(m: &Packet) -> (r: bool)
    ensures
        r == wf_message(m@),
{
    if m.questions.len() > 0xFFFF || m.answers.len() > 0xFFFF || m.authorities.len() > 0xFFFF
        || m.additionals.len() > 0xFFFF {
        return false;
    }
    let mut i: usize = 0;
    while i < m.questions.len()
        invariant
            i <= m.questions@.len(),
            forall|k: int| 0 <= k < i ==> wf_question(#[trigger] questions_view(m.questions@)[k]),
        decreases m.questions@.len() - i,
    {
        assert(questions_view(m.questions@)[i as int] == m.questions@[i as int]@);
        if !question_wf(&m.questions[i]) {
            return false;
        }
        i += 1;
    }
    records_wf(&m.answers) && records_wf(&m.authorities) && records_wf(&m.additionals)
}

fn push_u16(out: &mut Vec<u8>, x: u16)
    ensures
        final(out)@ == old(out)@ + enc_u16(x),
{
    out.push((x / 256) as u8);
    out.push((x % 256) as u8);
    assert(out@ =~= old(out)@ + enc_u16(x));
}

fn push_u32(out: &mut Vec<u8>, x: u32)
    ensures
        final(out)@ == old(out)@ + enc_u32(x),
{
    out.push((x / 0x1000000) as u8);
    out.push(((x / 0x10000) % 256) as u8);
    out.push(((x / 0x100) % 256) as u8);
    out.push((x % 256) as u8);
    assert(out@ =~= old(out)@ + enc_u32(x));
}

fn push_bytes(out: &mut Vec<u8>, v: &Vec<u8>)
    ensures
        final(out)@ == old(out)@ + v@,
{
    let mut j: usize = 0;
    while j < v.len()
        invariant
            j <= v@.len(),
            out@ == old(out)@ + v@.subrange(0, j as int),
        decreases v@.len() - j,
    {
        out.push(v[j]);
        assert(out@ =~= old(out)@ + v@.subrange(0, j as int + 1));
        j += 1;
    }
    assert(v@.subrange(0, v@.len() as int) =~= v@);
}

/// Writes the labels behind their length bytes, then the zero terminator.
/// Every name leaves flat: compression is an optional size optimization
/// the encoder does not take.
fn write_name(out: &mut Vec<u8>, n: &Name)
    requires
        wf_name(n@),
    ensures
        final(out)@ == old(out)@ + enc_name(n@),
{
    let ghost base = out@;
    let mut i: usize = 0;
    while i < n.labels.len()
        invariant
            wf_name(n@),
            n@ == labels_view(n.labels@),
            i <= n.labels@.len(),
            out@ + enc_name_from(n@, i as int) == base + enc_name_from(n@, 0),
        decreases n.labels@.len() - i,
    {
        let lab: &Vec<u8> = &n.labels[i];
        assert(n@[i as int] == lab@);
        let ghost before = out@;
        out.push(lab.len() as u8);
        push_bytes(out, lab);
        assert(out@ =~= before + seq![lab@.len() as u8] + lab@);
        assert(out@ + enc_name_from(n@, i as int + 1) =~= before + enc_name_from(n@, i as int));
        i += 1;
    }
    out.push(0);
    assert(enc_name_from(n@, n@.len() as int) =~= seq![0u8]);
    assert(out@ =~= base + enc_name(n@));
}

/// Writes TXT strings behind their length bytes; no terminator.
fn write_txt(out: &mut Vec<u8>, strings: &Vec<Vec<u8>>)
    requires
        forall|i: int|
            0 <= i < strings@.len() ==> (#[trigger] labels_view(strings@)[i]).len() <= 255,
    ensures
        final(out)@ == old(out)@ + enc_txt_from(labels_view(strings@), 0),
{
    let ghost sv = labels_view(strings@);
    let ghost base = out@;
    let mut i: usize = 0;
    while i < strings.len()
        invariant
            sv == labels_view(strings@),
            forall|k: int| 0 <= k < sv.len() ==> (#[trigger] sv[k]).len() <= 255,
            i <= strings@.len(),
            out@ + enc_txt_from(sv, i as int) == base + enc_txt_from(sv, 0),
        decreases strings@.len() - i,
    {
        let s: &Vec<u8> = &strings[i];
        assert(sv[i as int] == s@);
        let ghost before = out@;
        out.push(s.len() as u8);
        push_bytes(out, s);
        assert(out@ =~= before + seq![s@.len() as u8] + s@);
        assert(out@ + enc_txt_from(sv, i as int + 1) =~= before + enc_txt_from(sv, i as int));
        i += 1;
    }
    assert(enc_txt_from(sv, sv.len() as int) =~= Seq::<u8>::empty());
    assert(out@ =~= base + enc_txt_from(sv, 0));
}

/// The wire record type of a payload.
fn rtype_code(d: &RecordData) -> (t: u16)
    ensures
        t == rtype_of(d@),
{
    match d {
        RecordData::A { .. } => TYPE_A,
        RecordData::Ptr { .. } => TYPE_PTR,
        RecordData::Srv { .. } => TYPE_SRV,
        RecordData::Txt { .. } => TYPE_TXT,
        RecordData::Other { rtype, .. } => *rtype,
    }
}

fn write_rdata(out: &mut Vec<u8>, d: &RecordData)
    requires
        wf_rdata(d@),
    ensures
        final(out)@ == old(out)@ + enc_rdata(d@),
{
    match d {
        RecordData::A { addr } => {
            push_u32(out, *addr);
        },
        RecordData::Ptr { name } => {
            write_name(out, name);
        },
        RecordData::Srv { priority, weight, port, target } => {
            push_u16(out, *priority);
            push_u16(out, *weight);
            push_u16(out, *port);
            write_name(out, target);
            assert(out@ =~= old(out)@ + enc_rdata(d@));
        },
        RecordData::Txt { strings } => {
            write_txt(out, strings);
        },
        RecordData::Other { payload, .. } => {
            push_bytes(out, payload);
        },
    }
}

fn write_question(out: &mut Vec<u8>, q: &Question)
    requires
        wf_question(q@),
    ensures
        final(out)@ == old(out)@ + enc_question(q@),
{
    write_name(out, &q.name);
    push_u16(out, q.rtype);
    push_u16(out, q.qclass);
    assert(out@ =~= old(out)@ + enc_question(q@));
}

fn write_record(out: &mut Vec<u8>, r: &Record)
    requires
        wf_record(r@),
    ensures
        final(out)@ == old(out)@ + enc_record(r@),
{
    write_name(out, &r.name);
    let t: u16 = rtype_code(&r.data);
    push_u16(out, t);
    push_u16(out, r.class);
    push_u32(out, r.ttl);
    let mut rd: Vec<u8> = Vec::new();
    write_rdata(&mut rd, &r.data);
    assert(rd@ == enc_rdata(r@.data));
    push_u16(out, rd.len() as u16);
    push_bytes(out, &rd);
    assert(out@ =~= old(out)@ + enc_record(r@));
}

fn write_questions(out: &mut Vec<u8>, qs: &Vec<Question>)
    requires
        forall|i: int| 0 <= i < qs@.len() ==> wf_question(#[trigger] questions_view(qs@)[i]),
    ensures
        final(out)@ == old(out)@ + enc_questions_from(questions_view(qs@), 0),
{
    let ghost qv = questions_view(qs@);
    let ghost base = out@;
    let mut i: usize = 0;
    while i < qs.len()
        invariant
            qv == questions_view(qs@),
            forall|k: int| 0 <= k < qv.len() ==> wf_question(#[trigger] qv[k]),
            i <= qs@.len(),
            out@ + enc_questions_from(qv, i as int) == base + enc_questions_from(qv, 0),
        decreases qs@.len() - i,
    {
        assert(qv[i as int] == qs@[i as int]@);
        let ghost before = out@;
        write_question(out, &qs[i]);
        assert(out@ + enc_questions_from(qv, i as int + 1) =~= before + enc_questions_from(
            qv,
            i as int,
        ));
        i += 1;
    }
    assert(enc_questions_from(qv, qv.len() as int) =~= Seq::<u8>::empty());
    assert(out@ =~= base + enc_questions_from(qv, 0));
}

fn write_records(out: &mut Vec<u8>, rs: &Vec<Record>)
    requires
        forall|i: int| 0 <= i < rs@.len() ==> wf_record(#[trigger] records_view(rs@)[i]),
    ensures
        final(out)@ == old(out)@ + enc_records_from(records_view(rs@), 0),
{
    let ghost rv = records_view(rs@);
    let ghost base = out@;
    let mut i: usize = 0;
    while i < rs.len()
        invariant
            rv == records_view(rs@),
            forall|k: int| 0 <= k < rv.len() ==> wf_record(#[trigger] rv[k]),
            i <= rs@.len(),
            out@ + enc_records_from(rv, i as int) == base + enc_records_from(rv, 0),
        decreases rs@.len() - i,
    {
        assert(rv[i as int] == rs@[i as int]@);
        let ghost before = out@;
        write_record(out, &rs[i]);
        assert(out@ + enc_records_from(rv, i as int + 1) =~= before + enc_records_from(
            rv,
            i as int,
        ));
        i += 1;
    }
    assert(enc_records_from(rv, rv.len() as int) =~= Seq::<u8>::empty());
    assert(out@ =~= base + enc_records_from(rv, 0));
}

/// Serializes a message: the header with counts taken from the actual list
/// lengths, then each section in order. The bytes are exactly
/// [`enc_message`] of the message.
pub fn encode(m: &Packet) -> (r: Vec<u8>)
    requires
        wf_message(m@),
    ensures
        r@ == enc_message(m@),
{
    let mut out: Vec<u8> = Vec::new();
    push_u16(&mut out, m.id);
    push_u16(&mut out, m.flags);
    push_u16(&mut out, m.questions.len() as u16);
    push_u16(&mut out, m.answers.len() as u16);
    push_u16(&mut out, m.authorities.len() as u16);
    push_u16(&mut out, m.additionals.len() as u16);
    write_questions(&mut out, &m.questions);
    write_records(&mut out, &m.answers);
    write_records(&mut out, &m.authorities);
    write_records(&mut out, &m.additionals);
    assert(out@ =~= enc_message(m@));
    out
}

} // verus!
