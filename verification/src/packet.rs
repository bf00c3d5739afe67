//! The DNS message model: names, questions, resource records, and the
//! well-formedness conditions under which a message has a wire encoding.
//!
//! Exec types hold `Vec`s; each views to a ghost counterpart over `Seq`s,
//! and the codec's contracts are stated over those views.

use vstd::prelude::*;

verus! {

pub const TYPE_A: u16 = 1;
pub const TYPE_PTR: u16 = 12;
pub const TYPE_TXT: u16 = 16;
pub const TYPE_SRV: u16 = 33;
pub const CLASS_IN: u16 = 1;
/// Top bit of a question's class: the querier asks for a unicast reply.
pub const UNICAST_FLAG: u16 = 0x8000;
/// Top bit of the header flags: the message is a response, not a query.
pub const QR_FLAG: u16 = 0x8000;
/// Header flags of every reply this library produces: response + authoritative.
pub const RESPONSE_FLAGS: u16 = 0x8400;
/// Time-to-live written on every advertised record.
pub const RECORD_TTL: u32 = 3600;

/// The views of a sequence of byte vectors.
pub open spec fn labels_view(v: Seq<Vec<u8>>) -> Seq<Seq<u8>> {
    v.map_values(|l: Vec<u8>| l@)
}

/// A DNS name: dot-separated labels, stored without the dots.
pub struct Name {
    pub labels: Vec<Vec<u8>>,
}

impl View for Name {
    type V = Seq<Seq<u8>>;

    open spec fn view(&self) -> Seq<Seq<u8>> {
        labels_view(self.labels@)
    }
}

/// The typed payload of a resource record. Types the responder does not
/// synthesize are carried through as an opaque blob rather than rejected.
pub enum RecordData {
    A { addr: u32 },
    Ptr { name: Name },
    Srv { priority: u16, weight: u16, port: u16, target: Name },
    Txt { strings: Vec<Vec<u8>> },
    Other { rtype: u16, payload: Vec<u8> },
}

#[verifier::ext_equal]
pub enum RecordDataV {
    A { addr: u32 },
    Ptr { name: Seq<Seq<u8>> },
    Srv { priority: u16, weight: u16, port: u16, target: Seq<Seq<u8>> },
    Txt { strings: Seq<Seq<u8>> },
    Other { rtype: u16, payload: Seq<u8> },
}

impl View for RecordData {
    type V = RecordDataV;

    open spec fn view(&self) -> RecordDataV {
        match self {
            RecordData::A { addr } => RecordDataV::A { addr: *addr },
            RecordData::Ptr { name } => RecordDataV::Ptr { name: name@ },
            RecordData::Srv { priority, weight, port, target } => RecordDataV::Srv {
                priority: *priority,
                weight: *weight,
                port: *port,
                target: target@,
            },
            RecordData::Txt { strings } => RecordDataV::Txt { strings: labels_view(strings@) },
            RecordData::Other { rtype, payload } => RecordDataV::Other {
                rtype: *rtype,
                payload: payload@,
            },
        }
    }
}

/// One question of a query. The unicast-reply request sits in the class
/// field's top bit and is kept there.
pub struct Question {
    pub name: Name,
    pub rtype: u16,
    pub qclass: u16,
}

#[verifier::ext_equal]
pub struct QuestionV {
    pub name: Seq<Seq<u8>>,
    pub rtype: u16,
    pub qclass: u16,
}

impl View for Question {
    type V = QuestionV;

    open spec fn view(&self) -> QuestionV {
        QuestionV { name: self.name@, rtype: self.rtype, qclass: self.qclass }
    }
}

/// A resource record. Its numeric type is determined by the payload variant.
pub struct Record {
    pub name: Name,
    pub class: u16,
    pub ttl: u32,
    pub data: RecordData,
}

#[verifier::ext_equal]
pub struct RecordV {
    pub name: Seq<Seq<u8>>,
    pub class: u16,
    pub ttl: u32,
    pub data: RecordDataV,
}

impl View for Record {
    type V = RecordV;

    open spec fn view(&self) -> RecordV {
        RecordV { name: self.name@, class: self.class, ttl: self.ttl, data: self.data@ }
    }
}

/// A whole DNS message: header fields plus the four record sections.
pub struct Packet {
    pub id: u16,
    pub flags: u16,
    pub questions: Vec<Question>,
    pub answers: Vec<Record>,
    pub authorities: Vec<Record>,
    pub additionals: Vec<Record>,
}

#[verifier::ext_equal]
pub struct PacketV {
    pub id: u16,
    pub flags: u16,
    pub questions: Seq<QuestionV>,
    pub answers: Seq<RecordV>,
    pub authorities: Seq<RecordV>,
    pub additionals: Seq<RecordV>,
}

/// The views of a sequence of questions.
pub open spec fn questions_view(v: Seq<Question>) -> Seq<QuestionV> {
    v.map_values(|q: Question| q@)
}

/// The views of a sequence of records.
pub open spec fn records_view(v: Seq<Record>) -> Seq<RecordV> {
    v.map_values(|r: Record| r@)
}

impl View for Packet {
    type V = PacketV;

    open spec fn view(&self) -> PacketV {
        PacketV {
            id: self.id,
            flags: self.flags,
            questions: questions_view(self.questions@),
            answers: records_view(self.answers@),
            authorities: records_view(self.authorities@),
            additionals: records_view(self.additionals@),
        }
    }
}

/// Why a buffer failed to decode: it ended early, a compression pointer
/// aimed at itself or forward, a label length byte used a reserved form,
/// or a declared length did not fit what followed.
#[derive(Clone, Copy, Debug, PartialEq, Eq, Structural)]
pub enum DecodeError {
    Truncated,
    BadPointer,
    BadLabel,
    BadLength,
}

/// The wire record type that a payload encodes under.
pub open spec fn rtype_of(d: RecordDataV) -> u16 {
    match d {
        RecordDataV::A { .. } => TYPE_A,
        RecordDataV::Ptr { .. } => TYPE_PTR,
        RecordDataV::Srv { .. } => TYPE_SRV,
        RecordDataV::Txt { .. } => TYPE_TXT,
        RecordDataV::Other { rtype, .. } => rtype,
    }
}

/// A label must fit its one-byte length prefix, whose two top bits are
/// reserved for pointers, and must be non-empty since a zero length byte
/// terminates the name.
pub open spec fn wf_label(l: Seq<u8>) -> bool {
    1 <= l.len() <= 63
}

pub open spec fn wf_name(n: Seq<Seq<u8>>) -> bool {
    forall|i: int| 0 <= i < n.len() ==> wf_label(#[trigger] n[i])
}

pub open spec fn question_unicast(q: QuestionV) -> bool {
    q.qclass & UNICAST_FLAG != 0
}

pub open spec fn is_query(flags: u16) -> bool {
    flags & QR_FLAG == 0
}

} // verus!
