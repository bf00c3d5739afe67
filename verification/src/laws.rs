//! The codec's laws: a well-formed message parses back from its own
//! encoding unchanged, and a compression pointer aiming at or past itself
//! is rejected.

use vstd::prelude::*;

use crate::packet::{wf_label, wf_name, DecodeError, PacketV, QuestionV, RecordDataV, RecordV};
use crate::wire::{
    be16, be32, enc_message, enc_name, enc_name_from, enc_question, enc_questions_from, enc_rdata,
    enc_record, enc_records_from, enc_txt_from, enc_u16, enc_u32, name_end, parse_labels,
    parse_message, parse_question, parse_questions, parse_rdata, parse_record, parse_records,
    parse_txt, wf_message, wf_question, wf_rdata, wf_record,
};

verus! {

/// A window into a window: bytes `a..b` of a known slice of `data`.
proof fn lemma_sub(data: Seq<u8>, pos: int, whole: Seq<u8>, a: int, b: int)
    requires
        0 <= pos,
        pos + whole.len() <= data.len(),
        data.subrange(pos, pos + whole.len() as int) == whole,
        0 <= a <= b <= whole.len(),
    ensures
        data.subrange(pos + a, pos + b) == whole.subrange(a, b),
{
    assert(data.subrange(pos + a, pos + b) =~= whole.subrange(a, b));
}

proof fn lemma_be16_round(x: u16)
    ensures
        be16((x / 256) as u8, (x % 256) as u8) == x,
{
}

proof fn lemma_be32_round(x: u32)
    ensures
        be32(
            (x / 0x1000000) as u8,
            ((x / 0x10000) % 256) as u8,
            ((x / 0x100) % 256) as u8,
            (x % 256) as u8,
        ) == x,
{
    assert((x / 0x1000000) * 0x1000000 + ((x / 0x10000) % 256) * 0x10000 + ((x / 0x100) % 256)
        * 0x100 + (x % 256) == x) by (bit_vector);
}

/// Reading two bytes that are `enc_u16(x)` gives back `x`.
proof fn lemma_read_u16(data: Seq<u8>, pos: int, x: u16)
    requires
        0 <= pos,
        pos + 2 <= data.len(),
        data.subrange(pos, pos + 2) == enc_u16(x),
    ensures
        be16(data[pos], data[pos + 1]) == x,
{
    assert(data[pos] == enc_u16(x)[0]);
    assert(data[pos + 1] == enc_u16(x)[1]);
    lemma_be16_round(x);
}

/// Reading four bytes that are `enc_u32(x)` gives back `x`.
proof fn lemma_read_u32(data: Seq<u8>, pos: int, x: u32)
    requires
        0 <= pos,
        pos + 4 <= data.len(),
        data.subrange(pos, pos + 4) == enc_u32(x),
    ensures
        be32(data[pos], data[pos + 1], data[pos + 2], data[pos + 3]) == x,
{
    assert(data[pos] == enc_u32(x)[0]);
    assert(data[pos + 1] == enc_u32(x)[1]);
    assert(data[pos + 2] == enc_u32(x)[2]);
    assert(data[pos + 3] == enc_u32(x)[3]);
    lemma_be32_round(x);
}

/// A flat-written name reads back as its own labels, under any pointer
/// limit, and ends right after its zero terminator.
proof fn lemma_name_round(data: Seq<u8>, pos: int, n: Seq<Seq<u8>>, i: int, limit: int)
    requires
        wf_name(n),
        0 <= i <= n.len(),
        0 <= pos,
        0 <= limit,
        pos + enc_name_from(n, i).len() <= data.len(),
        data.subrange(pos, pos + enc_name_from(n, i).len() as int) == enc_name_from(n, i),
    ensures
        parse_labels(data, pos, limit) == Ok::<Seq<Seq<u8>>, DecodeError>(n.skip(i)),
        name_end(data, pos) == Ok::<int, DecodeError>(pos + enc_name_from(n, i).len()),
    decreases n.len() - i,
{
    let whole = enc_name_from(n, i);
    if i == n.len() {
        assert(whole == seq![0u8]);
        assert(data[pos] == whole[0]);
        assert(n.skip(i) =~= Seq::<Seq<u8>>::empty());
    } else {
        let lab = n[i];
        let ll = lab.len() as int;
        assert(wf_label(lab));
        let rest = enc_name_from(n, i + 1);
        assert(whole == seq![lab.len() as u8] + lab + rest);
        assert(data[pos] == whole[0]);
        assert(whole[0] == lab.len() as u8);
        assert(1 <= ll <= 63);
        lemma_sub(data, pos, whole, 1, 1 + ll);
        assert(whole.subrange(1, 1 + ll) =~= lab);
        assert(data.subrange(pos + 1, pos + 1 + ll) == lab);
        lemma_sub(data, pos, whole, 1 + ll, whole.len() as int);
        assert(whole.subrange(1 + ll, whole.len() as int) =~= rest);
        lemma_name_round(data, pos + 1 + ll, n, i + 1, limit);
        assert(seq![data.subrange(pos + 1, pos + 1 + ll)] + n.skip(i + 1) =~= n.skip(i));
    }
}

/// Flat-written TXT strings read back as themselves, filling their window
/// exactly.
proof fn lemma_txt_round(data: Seq<u8>, pos: int, s: Seq<Seq<u8>>, i: int)
    requires
        forall|k: int| 0 <= k < s.len() ==> (#[trigger] s[k]).len() <= 255,
        0 <= i <= s.len(),
        0 <= pos,
        pos + enc_txt_from(s, i).len() <= data.len(),
        data.subrange(pos, pos + enc_txt_from(s, i).len() as int) == enc_txt_from(s, i),
    ensures
        parse_txt(data, pos, pos + enc_txt_from(s, i).len() as int) == Ok::<
            Seq<Seq<u8>>,
            DecodeError,
        >(s.skip(i)),
    decreases s.len() - i,
{
    let whole = enc_txt_from(s, i);
    if i == s.len() {
        assert(whole =~= Seq::<u8>::empty());
        assert(s.skip(i) =~= Seq::<Seq<u8>>::empty());
    } else {
        let str0 = s[i];
        let ll = str0.len() as int;
        let rest = enc_txt_from(s, i + 1);
        assert(whole == seq![str0.len() as u8] + str0 + rest);
        assert(data[pos] == whole[0]);
        assert(whole[0] == str0.len() as u8);
        lemma_sub(data, pos, whole, 1, 1 + ll);
        assert(whole.subrange(1, 1 + ll) =~= str0);
        lemma_sub(data, pos, whole, 1 + ll, whole.len() as int);
        assert(whole.subrange(1 + ll, whole.len() as int) =~= rest);
        lemma_txt_round(data, pos + 1 + ll, s, i + 1);
        assert(seq![data.subrange(pos + 1, pos + 1 + ll)] + s.skip(i + 1) =~= s.skip(i));
        assert(parse_txt(data, pos + 1 + ll, pos + 1 + ll + rest.len() as int) == Ok::<
            Seq<Seq<u8>>,
            DecodeError,
        >(s.skip(i + 1)));
        assert(pos + 1 + ll + rest.len() as int == pos + whole.len() as int);
    }
}

/// An encoded question reads back as itself.
proof fn lemma_question_round(data: Seq<u8>, pos: int, q: QuestionV)
    requires
        wf_question(q),
        0 <= pos,
        pos + enc_question(q).len() <= data.len(),
        data.subrange(pos, pos + enc_question(q).len() as int) == enc_question(q),
    ensures
        parse_question(data, pos) == Ok::<(QuestionV, int), DecodeError>(
            (q, pos + enc_question(q).len()),
        ),
{
    let whole = enc_question(q);
    let nl = enc_name(q.name).len() as int;
    assert(whole == enc_name(q.name) + enc_u16(q.rtype) + enc_u16(q.qclass));
    lemma_sub(data, pos, whole, 0, nl);
    assert(whole.subrange(0, nl) =~= enc_name(q.name));
    lemma_name_round(data, pos, q.name, 0, pos);
    assert(q.name.skip(0) =~= q.name);
    let p = pos + nl;
    lemma_sub(data, pos, whole, nl, nl + 2);
    assert(whole.subrange(nl, nl + 2) =~= enc_u16(q.rtype));
    lemma_read_u16(data, p, q.rtype);
    lemma_sub(data, pos, whole, nl + 2, nl + 4);
    assert(whole.subrange(nl + 2, nl + 4) =~= enc_u16(q.qclass));
    lemma_read_u16(data, p + 2, q.qclass);
    assert(parse_question(data, pos)->Ok_0 =~= (q, pos + whole.len() as int));
}

/// An encoded record payload reads back as itself under its own type and
/// length.
proof fn lemma_rdata_round(data: Seq<u8>, pos: int, d: RecordDataV)
    requires
        wf_rdata(d),
        0 <= pos,
        pos + enc_rdata(d).len() <= data.len(),
        data.subrange(pos, pos + enc_rdata(d).len() as int) == enc_rdata(d),
    ensures
        parse_rdata(data, crate::packet::rtype_of(d), pos, enc_rdata(d).len() as int) == Ok::<
            RecordDataV,
            DecodeError,
        >(d),
{
    let whole = enc_rdata(d);
    match d {
        RecordDataV::A { addr } => {
            assert(whole == enc_u32(addr));
            lemma_read_u32(data, pos, addr);
        },
        RecordDataV::Ptr { name } => {
            assert(whole == enc_name(name));
            lemma_name_round(data, pos, name, 0, pos);
            assert(name.skip(0) =~= name);
        },
        RecordDataV::Srv { priority, weight, port, target } => {
            let tn = enc_name(target);
            assert(whole == enc_u16(priority) + enc_u16(weight) + enc_u16(port) + tn);
            lemma_sub(data, pos, whole, 0, 2);
            assert(whole.subrange(0, 2) =~= enc_u16(priority));
            lemma_read_u16(data, pos, priority);
            lemma_sub(data, pos, whole, 2, 4);
            assert(whole.subrange(2, 4) =~= enc_u16(weight));
            lemma_read_u16(data, pos + 2, weight);
            lemma_sub(data, pos, whole, 4, 6);
            assert(whole.subrange(4, 6) =~= enc_u16(port));
            lemma_read_u16(data, pos + 4, port);
            lemma_sub(data, pos, whole, 6, whole.len() as int);
            assert(whole.subrange(6, whole.len() as int) =~= tn);
            lemma_name_round(data, pos + 6, target, 0, pos + 6);
            assert(target.skip(0) =~= target);
        },
        RecordDataV::Txt { strings } => {
            assert(whole == enc_txt_from(strings, 0));
            lemma_txt_round(data, pos, strings, 0);
            assert(strings.skip(0) =~= strings);
        },
        RecordDataV::Other { rtype, payload } => {
            assert(whole == payload);
        },
    }
}

/// An encoded record reads back as itself.
proof fn lemma_record_round(data: Seq<u8>, pos: int, r: RecordV)
    requires
        wf_record(r),
        0 <= pos,
        pos + enc_record(r).len() <= data.len(),
        data.subrange(pos, pos + enc_record(r).len() as int) == enc_record(r),
    ensures
        parse_record(data, pos) == Ok::<(RecordV, int), DecodeError>(
            (r, pos + enc_record(r).len()),
        ),
{
    let whole = enc_record(r);
    let nl = enc_name(r.name).len() as int;
    let rd = enc_rdata(r.data);
    let t = crate::packet::rtype_of(r.data);
    assert(whole == enc_name(r.name) + enc_u16(t) + enc_u16(r.class) + enc_u32(r.ttl) + enc_u16(
        rd.len() as u16,
    ) + rd);
    lemma_sub(data, pos, whole, 0, nl);
    assert(whole.subrange(0, nl) =~= enc_name(r.name));
    lemma_name_round(data, pos, r.name, 0, pos);
    assert(r.name.skip(0) =~= r.name);
    let p = pos + nl;
    lemma_sub(data, pos, whole, nl, nl + 2);
    assert(whole.subrange(nl, nl + 2) =~= enc_u16(t));
    lemma_read_u16(data, p, t);
    lemma_sub(data, pos, whole, nl + 2, nl + 4);
    assert(whole.subrange(nl + 2, nl + 4) =~= enc_u16(r.class));
    lemma_read_u16(data, p + 2, r.class);
    lemma_sub(data, pos, whole, nl + 4, nl + 8);
    assert(whole.subrange(nl + 4, nl + 8) =~= enc_u32(r.ttl));
    lemma_read_u32(data, p + 4, r.ttl);
    lemma_sub(data, pos, whole, nl + 8, nl + 10);
    assert(whole.subrange(nl + 8, nl + 10) =~= enc_u16(rd.len() as u16));
    lemma_read_u16(data, p + 8, rd.len() as u16);
    assert(be16(data[p + 8], data[p + 9]) as int == rd.len() as int);
    lemma_sub(data, pos, whole, nl + 10, whole.len() as int);
    assert(whole.subrange(nl + 10, whole.len() as int) =~= rd);
    lemma_rdata_round(data, p + 10, r.data);
    assert(parse_record(data, pos)->Ok_0 =~= (r, pos + whole.len() as int));
}

/// A run of encoded questions reads back as itself.
proof fn lemma_questions_round(data: Seq<u8>, pos: int, qs: Seq<QuestionV>, i: int)
    requires
        forall|k: int| 0 <= k < qs.len() ==> wf_question(#[trigger] qs[k]),
        0 <= i <= qs.len(),
        0 <= pos,
        pos + enc_questions_from(qs, i).len() <= data.len(),
        data.subrange(pos, pos + enc_questions_from(qs, i).len() as int) == enc_questions_from(
            qs,
            i,
        ),
    ensures
        parse_questions(data, pos, qs.len() - i) == Ok::<(Seq<QuestionV>, int), DecodeError>(
            (qs.skip(i), pos + enc_questions_from(qs, i).len()),
        ),
    decreases qs.len() - i,
{
    let whole = enc_questions_from(qs, i);
    if i == qs.len() {
        assert(qs.skip(i) =~= Seq::<QuestionV>::empty());
    } else {
        let q = qs[i];
        let ql = enc_question(q).len() as int;
        let rest = enc_questions_from(qs, i + 1);
        assert(whole == enc_question(q) + rest);
        lemma_sub(data, pos, whole, 0, ql);
        assert(whole.subrange(0, ql) =~= enc_question(q));
        lemma_question_round(data, pos, q);
        lemma_sub(data, pos, whole, ql, whole.len() as int);
        assert(whole.subrange(ql, whole.len() as int) =~= rest);
        lemma_questions_round(data, pos + ql, qs, i + 1);
        assert(seq![q] + qs.skip(i + 1) =~= qs.skip(i));
    }
}

/// A run of encoded records reads back as itself.
proof fn lemma_records_round(data: Seq<u8>, pos: int, rs: Seq<RecordV>, i: int)
    requires
        forall|k: int| 0 <= k < rs.len() ==> wf_record(#[trigger] rs[k]),
        0 <= i <= rs.len(),
        0 <= pos,
        pos + enc_records_from(rs, i).len() <= data.len(),
        data.subrange(pos, pos + enc_records_from(rs, i).len() as int) == enc_records_from(rs, i),
    ensures
        parse_records(data, pos, rs.len() - i) == Ok::<(Seq<RecordV>, int), DecodeError>(
            (rs.skip(i), pos + enc_records_from(rs, i).len()),
        ),
    decreases rs.len() - i,
{
    let whole = enc_records_from(rs, i);
    if i == rs.len() {
        assert(rs.skip(i) =~= Seq::<RecordV>::empty());
    } else {
        let r = rs[i];
        let rl = enc_record(r).len() as int;
        let rest = enc_records_from(rs, i + 1);
        assert(whole == enc_record(r) + rest);
        lemma_sub(data, pos, whole, 0, rl);
        assert(whole.subrange(0, rl) =~= enc_record(r));
        lemma_record_round(data, pos, r);
        lemma_sub(data, pos, whole, rl, whole.len() as int);
        assert(whole.subrange(rl, whole.len() as int) =~= rest);
        lemma_records_round(data, pos + rl, rs, i + 1);
        assert(seq![r] + rs.skip(i + 1) =~= rs.skip(i));
    }
}

/// Round trip: a well-formed message, encoded and parsed back, is itself —
/// same transaction id and flags, and the same questions, answers,
/// authorities and additionals.
/// Splits a known prefix of `data` at the seam of a concatenation.
proof fn lemma_split(data: Seq<u8>, x: Seq<u8>, y: Seq<u8>, e: int)
    requires
        0 <= e <= data.len(),
        e == x.len() + y.len(),
        data.subrange(0, e) == x + y,
    ensures
        data.subrange(0, x.len() as int) == x,
        data.subrange(x.len() as int, e) == y,
{
    assert(data.subrange(0, x.len() as int) =~= x) by {
        assert forall|k: int| 0 <= k < x.len() implies data.subrange(0, x.len() as int)[k]
            == x[k] by {
            assert((x + y)[k] == x[k]);
            assert(data.subrange(0, e)[k] == data[k]);
        }
    }
    assert(data.subrange(x.len() as int, e) =~= y) by {
        assert forall|k: int| 0 <= k < y.len() implies data.subrange(x.len() as int, e)[k]
            == y[k] by {
            assert((x + y)[x.len() + k] == y[k]);
            assert(data.subrange(0, e)[x.len() + k] == data[x.len() + k]);
        }
    }
}

/// Where each piece of an encoded message sits in the buffer.
proof fn lemma_message_sections(m: PacketV)
    requires
        wf_message(m),
    ensures
        enc_message(m).len() >= 12,
        enc_message(m).subrange(0, 2) == enc_u16(m.id),
        enc_message(m).subrange(2, 4) == enc_u16(m.flags),
        enc_message(m).subrange(4, 6) == enc_u16(m.questions.len() as u16),
        enc_message(m).subrange(6, 8) == enc_u16(m.answers.len() as u16),
        enc_message(m).subrange(8, 10) == enc_u16(m.authorities.len() as u16),
        enc_message(m).subrange(10, 12) == enc_u16(m.additionals.len() as u16),
        enc_message(m).subrange(12, 12 + enc_questions_from(m.questions, 0).len() as int)
            == enc_questions_from(m.questions, 0),
        ({
            let p1 = 12 + enc_questions_from(m.questions, 0).len() as int;
            enc_message(m).subrange(p1, p1 + enc_records_from(m.answers, 0).len() as int)
                == enc_records_from(m.answers, 0)
        }),
        ({
            let p2 = 12 + enc_questions_from(m.questions, 0).len() as int + enc_records_from(
                m.answers,
                0,
            ).len() as int;
            enc_message(m).subrange(p2, p2 + enc_records_from(m.authorities, 0).len() as int)
                == enc_records_from(m.authorities, 0)
        }),
        ({
            let p3 = 12 + enc_questions_from(m.questions, 0).len() as int + enc_records_from(
                m.answers,
                0,
            ).len() as int + enc_records_from(m.authorities, 0).len() as int;
            enc_message(m).subrange(p3, p3 + enc_records_from(m.additionals, 0).len() as int)
                == enc_records_from(m.additionals, 0) && p3 + enc_records_from(
                m.additionals,
                0,
            ).len() as int == enc_message(m).len()
        }),
{
    let data = enc_message(m);
    let qsec = enc_questions_from(m.questions, 0);
    let asec = enc_records_from(m.answers, 0);
    let nsec = enc_records_from(m.authorities, 0);
    let rsec = enc_records_from(m.additionals, 0);
    let c1 = enc_u16(m.id);
    let c2 = c1 + enc_u16(m.flags);
    let c3 = c2 + enc_u16(m.questions.len() as u16);
    let c4 = c3 + enc_u16(m.answers.len() as u16);
    let c5 = c4 + enc_u16(m.authorities.len() as u16);
    let c6 = c5 + enc_u16(m.additionals.len() as u16);
    let c7 = c6 + qsec;
    let c8 = c7 + asec;
    let c9 = c8 + nsec;
    assert(data == c9 + rsec);
    assert(data.subrange(0, data.len() as int) =~= data);
    lemma_split(data, c9, rsec, data.len() as int);
    lemma_split(data, c8, nsec, c9.len() as int);
    lemma_split(data, c7, asec, c8.len() as int);
    lemma_split(data, c6, qsec, c7.len() as int);
    lemma_split(data, c5, enc_u16(m.additionals.len() as u16), c6.len() as int);
    lemma_split(data, c4, enc_u16(m.authorities.len() as u16), c5.len() as int);
    lemma_split(data, c3, enc_u16(m.answers.len() as u16), c4.len() as int);
    lemma_split(data, c2, enc_u16(m.questions.len() as u16), c3.len() as int);
    lemma_split(data, c1, enc_u16(m.flags), c2.len() as int);
}

/// Round trip: a well-formed message, encoded and parsed back, is itself —
/// same transaction id and flags, and the same questions, answers,
/// authorities and additionals.
#[verifier::rlimit(60)]
pub proof fn lemma_round_trip(m: PacketV)
    requires
        wf_message(m),
    ensures
        parse_message(enc_message(m)) == Ok::<PacketV, DecodeError>(m),
{
    let data = enc_message(m);
    let qsec = enc_questions_from(m.questions, 0);
    let asec = enc_records_from(m.answers, 0);
    let nsec = enc_records_from(m.authorities, 0);
    let rsec = enc_records_from(m.additionals, 0);
    lemma_message_sections(m);
    lemma_read_u16(data, 0, m.id);
    lemma_read_u16(data, 2, m.flags);
    lemma_read_u16(data, 4, m.questions.len() as u16);
    lemma_read_u16(data, 6, m.answers.len() as u16);
    lemma_read_u16(data, 8, m.authorities.len() as u16);
    lemma_read_u16(data, 10, m.additionals.len() as u16);
    let p1 = 12 + qsec.len() as int;
    let p2 = p1 + asec.len() as int;
    let p3 = p2 + nsec.len() as int;
    lemma_questions_round(data, 12, m.questions, 0);
    assert(m.questions.skip(0) =~= m.questions);
    lemma_records_round(data, p1, m.answers, 0);
    assert(m.answers.skip(0) =~= m.answers);
    lemma_records_round(data, p2, m.authorities, 0);
    assert(m.authorities.skip(0) =~= m.authorities);
    lemma_records_round(data, p3, m.additionals, 0);
    assert(m.additionals.skip(0) =~= m.additionals);
    assert(parse_message(data)->Ok_0 =~= m);
}

/// Compression safety: a length byte that is a pointer aiming at its own
/// offset or any later one is rejected with `BadPointer`; the decoder
/// never follows it.
pub proof fn lemma_bad_pointer_rejected(data: Seq<u8>, pos: int, limit: int)
    requires
        0 <= limit <= pos,
        pos + 2 <= data.len(),
        data[pos] >= 192,
        ((data[pos] as int) - 192) * 256 + (data[pos + 1] as int) >= pos,
    ensures
        parse_labels(data, pos, limit) == Err::<Seq<Seq<u8>>, DecodeError>(DecodeError::BadPointer),
{
}

} // verus!
