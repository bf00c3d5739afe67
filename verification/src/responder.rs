//! The responder: owns the advertised services, the host's mDNS name and
//! the local interface bindings, and turns one decoded query into the
//! records to answer with — a unicast bucket and a multicast bucket,
//! chosen per question by its unicast-reply flag.
//!
//! It is stateless: a pure function of the configuration and the query.

use vstd::prelude::*;

use crate::net::{
    spec_bindings_from, spec_subnet_contains, subnet_contains, wf_binding, InterfaceBinding,
};
use crate::packet::{
    is_query, labels_view, question_unicast, records_view, wf_name, Name, Packet, PacketV,
    Question, QuestionV, Record, RecordData, RecordDataV, RecordV, CLASS_IN, QR_FLAG, RECORD_TTL,
    RESPONSE_FLAGS, TYPE_PTR, UNICAST_FLAG,
};
use crate::wire::{enc_name, enc_txt_from, parse_message, wf_message, wf_record};

verus! {

/// A service to advertise: type name, instance name, port, and TXT
/// strings. A value object; the responder reads it and never changes it.
pub struct Service {
    pub service_type: Name,
    pub instance_name: Name,
    pub port: u16,
    pub txt: Vec<Vec<u8>>,
}

#[verifier::ext_equal]
pub struct ServiceV {
    pub service_type: Seq<Seq<u8>>,
    pub instance_name: Seq<Seq<u8>>,
    pub port: u16,
    pub txt: Seq<Seq<u8>>,
}

impl View for Service {
    type V = ServiceV;

    open spec fn view(&self) -> ServiceV {
        ServiceV {
            service_type: self.service_type@,
            instance_name: self.instance_name@,
            port: self.port,
            txt: labels_view(self.txt@),
        }
    }
}

/// One datagram with its transport tags: the payload, the sender, and the
/// identifier of the interface it arrived on. A reply is sent back pinned
/// to that same interface.
pub struct Message {
    pub data: Vec<u8>,
    pub sender_ip: u32,
    pub sender_port: u16,
    pub interface: i32,
}

/// The byte that separates labels in a dotted name.
pub const DOT: u8 = 46;

/// A dotted byte string split at every dot. The empty string splits to
/// one empty label, and every dot adds a piece, so joining with dots is
/// the exact inverse.
pub open spec fn split_dots(s: Seq<u8>) -> Seq<Seq<u8>>
    decreases s.len(),
{
    if s.len() == 0 {
        seq![Seq::<u8>::empty()]
    } else if s[0] == DOT {
        seq![Seq::<u8>::empty()] + split_dots(s.subrange(1, s.len() as int))
    } else {
        let rest = split_dots(s.subrange(1, s.len() as int));
        seq![seq![s[0]] + rest[0]] + rest.subrange(1, rest.len() as int)
    }
}

proof fn lemma_split_dots_nonempty(s: Seq<u8>)
    ensures
        split_dots(s).len() >= 1,
    decreases s.len(),
{
    if s.len() != 0 {
        lemma_split_dots_nonempty(s.subrange(1, s.len() as int));
    }
}

/// Splits the bytes of `s` from index `i` on at every dot.
fn split_dots_from(s: &Vec<u8>, i: usize) -> (r: Vec<Vec<u8>>)
    requires
        i <= s@.len(),
    ensures
        labels_view(r@) == split_dots(s@.subrange(i as int, s@.len() as int)),
        r@.len() >= 1,
    decreases s@.len() - i,
{
    let ghost tail = s@.subrange(i as int, s@.len() as int);
    proof {
        lemma_split_dots_nonempty(tail);
    }
    if i == s.len() {
        let mut v: Vec<Vec<u8>> = Vec::new();
        v.push(Vec::new());
        assert(tail =~= Seq::<u8>::empty());
        assert(labels_view(v@) =~= seq![Seq::<u8>::empty()]);
        v
    } else {
        let ghost tail1 = s@.subrange(i as int + 1, s@.len() as int);
        assert(tail.subrange(1, tail.len() as int) =~= tail1);
        assert(tail[0] == s@[i as int]);
        let mut rest = split_dots_from(s, i + 1);
        if s[i] == DOT {
            let ghost prev = rest@;
            rest.insert(0, Vec::new());
            assert(labels_view(rest@) =~= seq![Seq::<u8>::empty()] + labels_view(prev));
            rest
        } else {
            let head: Vec<u8> = rest.remove(0);
            let ghost prev = rest@;
            let ghost headv = head@;
            let mut first: Vec<u8> = Vec::new();
            first.push(s[i]);
            let mut head_tail = head;
            first.append(&mut head_tail);
            assert(first@ =~= seq![s@[i as int]] + headv);
            rest.insert(0, first);
            assert(labels_view(rest@) =~= seq![seq![s@[i as int]] + headv] + labels_view(prev));
            assert(labels_view(prev) =~= split_dots(tail1).subrange(
                1,
                split_dots(tail1).len() as int,
            ));
            assert(headv == split_dots(tail1)[0]);
            rest
        }
    }
}

/// The six bytes of the mDNS domain suffix, dot included.
pub open spec fn local_suffix() -> Seq<u8> {
    seq![DOT, 108u8, 111u8, 99u8, 97u8, 108u8]
}

/// Whether the byte string already ends in the mDNS domain suffix.
pub open spec fn ends_with_local(s: Seq<u8>) -> bool {
    s.len() >= 6 && s.subrange(s.len() - 6, s.len() as int) == local_suffix()
}

/// A host name completed with the mDNS domain: unchanged when the suffix
/// is already there, with it appended otherwise.
pub open spec fn with_local_suffix(s: Seq<u8>) -> Seq<u8> {
    if ends_with_local(s) {
        s
    } else {
        s + local_suffix()
    }
}

/// Appends the mDNS domain suffix unless the name already ends in it.
fn ensure_local_suffix(hostname: Vec<u8>) -> (r: Vec<u8>)
    ensures
        r@ == with_local_suffix(hostname@),
{
    let ghost h0 = hostname@;
    let n: usize = hostname.len();
    if n >= 6 && hostname[n - 6] == DOT && hostname[n - 5] == 108 && hostname[n - 4] == 111
        && hostname[n - 3] == 99 && hostname[n - 2] == 97 && hostname[n - 1] == 108 {
        proof {
            assert(h0.subrange(h0.len() - 6, h0.len() as int) =~= local_suffix());
        }
        hostname
    } else {
        proof {
            if ends_with_local(h0) {
                assert(h0[h0.len() - 6] == local_suffix()[0]);
                assert(h0[h0.len() - 5] == local_suffix()[1]);
                assert(h0[h0.len() - 4] == local_suffix()[2]);
                assert(h0[h0.len() - 3] == local_suffix()[3]);
                assert(h0[h0.len() - 2] == local_suffix()[4]);
                assert(h0[h0.len() - 1] == local_suffix()[5]);
            }
        }
        let mut out = hostname;
        out.push(DOT);
        out.push(108);
        out.push(111);
        out.push(99);
        out.push(97);
        out.push(108);
        assert(out@ =~= h0 + local_suffix());
        out
    }
}

/// An owned copy of a byte vector, equal in view.
fn clone_bytes(v: &Vec<u8>) -> (r: Vec<u8>)
    ensures
        r@ == v@,
{
    let mut out: Vec<u8> = Vec::new();
    let mut i: usize = 0;
    while i < v.len()
        invariant
            i <= v@.len(),
            out@ == v@.subrange(0, i as int),
        decreases v@.len() - i,
    {
        out.push(v[i]);
        assert(out@ =~= v@.subrange(0, i as int + 1));
        i += 1;
    }
    assert(v@.subrange(0, v@.len() as int) =~= v@);
    out
}

/// An owned copy of a list of byte strings, equal in view.
fn clone_strings(v: &Vec<Vec<u8>>) -> (r: Vec<Vec<u8>>)
    ensures
        labels_view(r@) == labels_view(v@),
{
    let mut out: Vec<Vec<u8>> = Vec::new();
    let mut i: usize = 0;
    while i < v.len()
        invariant
            i <= v@.len(),
            out@.len() == i,
            forall|k: int| 0 <= k < i ==> (#[trigger] out@[k])@ == v@[k]@,
        decreases v@.len() - i,
    {
        out.push(clone_bytes(&v[i]));
        i += 1;
    }
    assert(labels_view(out@) =~= labels_view(v@));
    out
}

impl Name {
    /// An owned copy of this name, equal in view.
    pub fn duplicate(&self) -> (r: Name)
        ensures
            r@ == self@,
    {
        Name { labels: clone_strings(&self.labels) }
    }
}

/// Whether two byte vectors hold the same bytes.
fn bytes_equal(a: &Vec<u8>, b: &Vec<u8>) -> (r: bool)
    ensures
        r == (a@ == b@),
{
    if a.len() != b.len() {
        return false;
    }
    let mut i: usize = 0;
    while i < a.len()
        invariant
            i <= a@.len(),
            a@.len() == b@.len(),
            forall|k: int| 0 <= k < i ==> a@[k] == b@[k],
        decreases a@.len() - i,
    {
        if a[i] != b[i] {
            return false;
        }
        i += 1;
    }
    assert(a@ =~= b@);
    true
}

/// Whether two names hold the same labels.
pub fn names_equal(a: &Name, b: &Name) -> (r: bool)
    ensures
        r == (a@ == b@),
{
    if a.labels.len() != b.labels.len() {
        assert(a@.len() != b@.len());
        return false;
    }
    let mut i: usize = 0;
    while i < a.labels.len()
        invariant
            i <= a.labels@.len(),
            a.labels@.len() == b.labels@.len(),
            forall|k: int| 0 <= k < i ==> a@[k] == b@[k],
        decreases a.labels@.len() - i,
    {
        if !bytes_equal(&a.labels[i], &b.labels[i]) {
            assert(a@[i as int] != b@[i as int]);
            return false;
        }
        assert(a@[i as int] == b@[i as int]);
        i += 1;
    }
    assert(a@ =~= b@);
    true
}

impl Service {
    /// Builds a service description from dotted names. Returns `None` when
    /// the type or the instance name is empty — the only validation done;
    /// in particular nothing checks uniqueness.
    pub fn new(
        service_type: &Vec<u8>,
        instance_name: &Vec<u8>,
        port: u16,
        txt: Vec<Vec<u8>>,
    ) -> (r: Option<Service>)
        ensures
            r is None <==> (service_type@.len() == 0 || instance_name@.len() == 0),
            r matches Some(s) ==> s@ == (ServiceV {
                service_type: split_dots(service_type@),
                instance_name: split_dots(instance_name@),
                port,
                txt: labels_view(txt@),
            }),
    {
        if service_type.len() == 0 || instance_name.len() == 0 {
            return None;
        }
        let t = split_dots_from(service_type, 0);
        let n = split_dots_from(instance_name, 0);
        proof {
            assert(service_type@.subrange(0, service_type@.len() as int) =~= service_type@);
            assert(instance_name@.subrange(0, instance_name@.len() as int) =~= instance_name@);
        }
        Some(
            Service {
                service_type: Name { labels: t },
                instance_name: Name { labels: n },
                port,
                txt,
            },
        )
    }
}

/// The responder's configuration: advertised services, the host's mDNS
/// name, and the local interface bindings. All immutable once built.
pub struct Server {
    pub services: Vec<Service>,
    pub hostname: Name,
    pub bindings: Vec<InterfaceBinding>,
}

#[verifier::ext_equal]
pub struct ServerV {
    pub services: Seq<ServiceV>,
    pub hostname: Seq<Seq<u8>>,
    pub bindings: Seq<InterfaceBinding>,
}

/// The views of a sequence of services.
pub open spec fn services_view(v: Seq<Service>) -> Seq<ServiceV> {
    v.map_values(|s: Service| s@)
}

impl View for Server {
    type V = ServerV;

    open spec fn view(&self) -> ServerV {
        ServerV {
            services: services_view(self.services@),
            hostname: self.hostname@,
            bindings: self.bindings@,
        }
    }
}

/// The bindings all describe real subnets.
pub open spec fn wf_server(s: ServerV) -> bool {
    forall|i: int| 0 <= i < s.bindings.len() ==> wf_binding(#[trigger] s.bindings[i])
}

/// The address of the first binding whose subnet contains `remote`,
/// searched from index `i` on; `None` when no subnet does.
pub open spec fn local_ip_from(bindings: Seq<InterfaceBinding>, remote: u32, i: int) -> Option<u32>
    decreases bindings.len() - i,
{
    if i < 0 || i >= bindings.len() {
        None
    } else if spec_subnet_contains(bindings[i].addr, bindings[i].prefix_len, remote) {
        Some(bindings[i].addr)
    } else {
        local_ip_from(bindings, remote, i + 1)
    }
}

/// The local address advertised to `remote`: that of the first binding
/// whose subnet contains it.
pub open spec fn local_ip_for(bindings: Seq<InterfaceBinding>, remote: u32) -> Option<u32> {
    local_ip_from(bindings, remote, 0)
}

/// The one PTR answer for a matched service: its type name maps to its
/// instance name.
pub open spec fn ptr_answer(svc: ServiceV) -> RecordV {
    RecordV {
        name: svc.service_type,
        class: CLASS_IN,
        ttl: RECORD_TTL,
        data: RecordDataV::Ptr { name: svc.instance_name },
    }
}

/// The additionals for a matched service: SRV to the host and port, TXT
/// when the service has text strings, and the A record with the local
/// address facing the requester.
pub open spec fn service_additionals(svc: ServiceV, hostname: Seq<Seq<u8>>, ip: u32) -> Seq<
    RecordV,
> {
    let srv = RecordV {
        name: svc.instance_name,
        class: CLASS_IN,
        ttl: RECORD_TTL,
        data: RecordDataV::Srv { priority: 0, weight: 0, port: svc.port, target: hostname },
    };
    let a = RecordV {
        name: hostname,
        class: CLASS_IN,
        ttl: RECORD_TTL,
        data: RecordDataV::A { addr: ip },
    };
    if svc.txt.len() > 0 {
        let txt = RecordV {
            name: svc.instance_name,
            class: CLASS_IN,
            ttl: RECORD_TTL,
            data: RecordDataV::Txt { strings: svc.txt },
        };
        seq![srv, txt, a]
    } else {
        seq![srv, a]
    }
}

/// Answers and additionals contributed by the services from index `i` on,
/// for one PTR question naming `qname`. A service whose type name is not
/// `qname` contributes nothing; so does a matched one when no binding's
/// subnet contains the requester — skipped silently, not an error.
pub open spec fn svc_records_from(server: ServerV, qname: Seq<Seq<u8>>, remote: u32, i: int) -> (
    Seq<RecordV>,
    Seq<RecordV>,
)
    decreases server.services.len() - i,
{
    if i < 0 || i >= server.services.len() {
        (Seq::empty(), Seq::empty())
    } else {
        let rest = svc_records_from(server, qname, remote, i + 1);
        let svc = server.services[i];
        if svc.service_type == qname {
            match local_ip_for(server.bindings, remote) {
                Some(ip) => (
                    seq![ptr_answer(svc)] + rest.0,
                    service_additionals(svc, server.hostname, ip) + rest.1,
                ),
                None => rest,
            }
        } else {
            rest
        }
    }
}

/// What one question contributes: records for every hosted service a PTR
/// question names exactly; nothing for any other question.
pub open spec fn question_records(server: ServerV, q: QuestionV, remote: u32) -> (
    Seq<RecordV>,
    Seq<RecordV>,
) {
    if q.rtype == TYPE_PTR {
        svc_records_from(server, q.name, remote, 0)
    } else {
        (Seq::empty(), Seq::empty())
    }
}

/// The two reply buckets: answers and additionals bound for a unicast
/// reply, and the same bound for the multicast group.
#[verifier::ext_equal]
pub struct Buckets {
    pub u_ans: Seq<RecordV>,
    pub u_add: Seq<RecordV>,
    pub m_ans: Seq<RecordV>,
    pub m_add: Seq<RecordV>,
}

/// The buckets filled by the questions from index `i` on: each question's
/// records go to the unicast buckets when its unicast-reply flag is set,
/// to the multicast buckets otherwise.
pub open spec fn buckets_from(
    server: ServerV,
    questions: Seq<QuestionV>,
    remote: u32,
    i: int,
) -> Buckets
    decreases questions.len() - i,
{
    if i < 0 || i >= questions.len() {
        Buckets {
            u_ans: Seq::empty(),
            u_add: Seq::empty(),
            m_ans: Seq::empty(),
            m_add: Seq::empty(),
        }
    } else {
        let rest = buckets_from(server, questions, remote, i + 1);
        let qr = question_records(server, questions[i], remote);
        if question_unicast(questions[i]) {
            Buckets { u_ans: qr.0 + rest.u_ans, u_add: qr.1 + rest.u_add, ..rest }
        } else {
            Buckets { m_ans: qr.0 + rest.m_ans, m_add: qr.1 + rest.m_add, ..rest }
        }
    }
}

/// A reply carrying `answers` and `additionals` under transaction id `id`,
/// or nothing when both lists are empty.
pub open spec fn reply_of(id: u16, answers: Seq<RecordV>, additionals: Seq<RecordV>) -> Option<
    PacketV,
> {
    if answers.len() == 0 && additionals.len() == 0 {
        None
    } else {
        Some(
            PacketV {
                id,
                flags: RESPONSE_FLAGS,
                questions: Seq::empty(),
                answers,
                authorities: Seq::empty(),
                additionals,
            },
        )
    }
}

/// The responder's answer to one parsed message: the unicast reply and the
/// multicast reply. A message that is not a query yields neither.
pub open spec fn response_to(server: ServerV, query: PacketV, remote: u32) -> (
    Option<PacketV>,
    Option<PacketV>,
) {
    if !is_query(query.flags) {
        (None, None)
    } else {
        let b = buckets_from(server, query.questions, remote, 0);
        (reply_of(query.id, b.u_ans, b.u_add), reply_of(query.id, b.m_ans, b.m_add))
    }
}

/// The responder's answer to one raw datagram: a datagram that does not
/// parse yields neither reply, and is no error.
pub open spec fn handle_spec(server: ServerV, data: Seq<u8>, remote: u32) -> (
    Option<PacketV>,
    Option<PacketV>,
) {
    match parse_message(data) {
        Ok(query) => response_to(server, query, remote),
        Err(_) => (None, None),
    }
}

/// The view of an optional packet.
pub open spec fn opt_packet_view(o: Option<Packet>) -> Option<PacketV> {
    match o {
        Some(p) => Some(p@),
        None => None,
    }
}

impl Server {
    /// Builds the responder configuration from plain inputs: the services,
    /// the raw host name, and the local interfaces as (address, netmask)
    /// pairs. The mDNS domain suffix is appended to the host name when
    /// absent; an interface whose netmask is all-zero, all-ones or not
    /// contiguous is dropped.
    pub fn new(services: Vec<Service>, hostname: Vec<u8>, interfaces: &Vec<(u32, u32)>) -> (r:
        Server)
        ensures
            r@.services == services_view(services@),
            r@.hostname == split_dots(with_local_suffix(hostname@)),
            r@.bindings == spec_bindings_from(interfaces@, 0),
            wf_server(r@),
    {
        let suffixed = ensure_local_suffix(hostname);
        let labels = split_dots_from(&suffixed, 0);
        proof {
            assert(suffixed@.subrange(0, suffixed@.len() as int) =~= suffixed@);
        }
        let bindings = crate::net::bindings_of(interfaces);
        Server { services, hostname: Name { labels }, bindings }
    }

    /// The local address facing `remote`: that of the first binding whose
    /// subnet contains it, or `None` when no subnet does.
    pub fn find_local_ip(&self, remote: u32) -> (r: Option<u32>)
        requires
            wf_server(self@),
        ensures
            r == local_ip_for(self@.bindings, remote),
    {
        let mut i: usize = 0;
        while i < self.bindings.len()
            invariant
                wf_server(self@),
                i <= self.bindings@.len(),
                local_ip_for(self@.bindings, remote) == local_ip_from(
                    self@.bindings,
                    remote,
                    i as int,
                ),
            decreases self.bindings@.len() - i,
        {
            if subnet_contains(&self.bindings[i], remote) {
                return Some(self.bindings[i].addr);
            }
            i += 1;
        }
        None
    }

    /// The records one question earns: a PTR answer for every hosted
    /// service whose type name the question names exactly, with that
    /// service's additionals.
    fn records_for_question(&self, q: &Question, remote: u32) -> (r: (Vec<Record>, Vec<Record>))
        requires
            wf_server(self@),
        ensures
            records_view(r.0@) == question_records(self@, q@, remote).0,
            records_view(r.1@) == question_records(self@, q@, remote).1,
    {
        let mut answers: Vec<Record> = Vec::new();
        let mut additionals: Vec<Record> = Vec::new();
        assert(records_view(answers@) =~= Seq::<RecordV>::empty());
        assert(records_view(additionals@) =~= Seq::<RecordV>::empty());
        if q.rtype != TYPE_PTR {
            return (answers, additionals);
        }
        let ghost qname = q@.name;
        let mut i: usize = 0;
        while i < self.services.len()
            invariant
                wf_server(self@),
                qname == q@.name,
                i <= self.services@.len(),
                records_view(answers@) + svc_records_from(self@, qname, remote, i as int).0
                    == svc_records_from(self@, qname, remote, 0).0,
                records_view(additionals@) + svc_records_from(self@, qname, remote, i as int).1
                    == svc_records_from(self@, qname, remote, 0).1,
            decreases self.services@.len() - i,
        {
            let svc = &self.services[i];
            assert(self@.services[i as int] == svc@);
            let ghost before_ans = records_view(answers@);
            let ghost before_add = records_view(additionals@);
            if names_equal(&svc.service_type, &q.name) {
                match self.find_local_ip(remote) {
                    Some(ip) => {
                        answers.push(
                            Record {
                                name: svc.service_type.duplicate(),
                                class: CLASS_IN,
                                ttl: RECORD_TTL,
                                data: RecordData::Ptr { name: svc.instance_name.duplicate() },
                            },
                        );
                        additionals.push(
                            Record {
                                name: svc.instance_name.duplicate(),
                                class: CLASS_IN,
                                ttl: RECORD_TTL,
                                data: RecordData::Srv {
                                    priority: 0,
                                    weight: 0,
                                    port: svc.port,
                                    target: self.hostname.duplicate(),
                                },
                            },
                        );
                        if svc.txt.len() > 0 {
                            additionals.push(
                                Record {
                                    name: svc.instance_name.duplicate(),
                                    class: CLASS_IN,
                                    ttl: RECORD_TTL,
                                    data: RecordData::Txt { strings: clone_strings(&svc.txt) },
                                },
                            );
                        }
                        additionals.push(
                            Record {
                                name: self.hostname.duplicate(),
                                class: CLASS_IN,
                                ttl: RECORD_TTL,
                                data: RecordData::A { addr: ip },
                            },
                        );
                        proof {
                            assert(records_view(answers@) =~= before_ans + seq![ptr_answer(svc@)]);
                            assert(records_view(additionals@) =~= before_add + service_additionals(
                                svc@,
                                self@.hostname,
                                ip,
                            ));
                        }
                    },
                    None => {},
                }
            }
            proof {
                assert(records_view(answers@) + svc_records_from(
                    self@,
                    qname,
                    remote,
                    i as int + 1,
                ).0 =~= before_ans + svc_records_from(self@, qname, remote, i as int).0);
                assert(records_view(additionals@) + svc_records_from(
                    self@,
                    qname,
                    remote,
                    i as int + 1,
                ).1 =~= before_add + svc_records_from(self@, qname, remote, i as int).1);
            }
            i += 1;
        }
        proof {
            assert(svc_records_from(self@, qname, remote, self@.services.len() as int).0
                =~= Seq::<RecordV>::empty());
            assert(svc_records_from(self@, qname, remote, self@.services.len() as int).1
                =~= Seq::<RecordV>::empty());
            assert(records_view(answers@) =~= svc_records_from(self@, qname, remote, 0).0);
            assert(records_view(additionals@) =~= svc_records_from(self@, qname, remote, 0).1);
        }
        (answers, additionals)
    }

    /// Turns one arriving datagram into its replies: first the unicast
    /// reply, then the multicast reply, either absent. A datagram that
    /// does not parse, or is not a query, yields neither — and no error.
    pub fn handle(&self, envelope: &Message) -> (r: (Option<Packet>, Option<Packet>))
        requires
            wf_server(self@),
        ensures
            opt_packet_view(r.0) == handle_spec(self@, envelope.data@, envelope.sender_ip).0,
            opt_packet_view(r.1) == handle_spec(self@, envelope.data@, envelope.sender_ip).1,
    {
        let query = match crate::codec::decode(&envelope.data) {
            Ok(p) => p,
            Err(_) => {
                return (None, None);
            },
        };
        if query.flags & QR_FLAG != 0 {
            return (None, None);
        }
        let remote: u32 = envelope.sender_ip;
        let mut u_ans: Vec<Record> = Vec::new();
        let mut u_add: Vec<Record> = Vec::new();
        let mut m_ans: Vec<Record> = Vec::new();
        let mut m_add: Vec<Record> = Vec::new();
        let ghost qv = query@.questions;
        proof {
            assert(records_view(u_ans@) =~= Seq::<RecordV>::empty());
            assert(records_view(u_add@) =~= Seq::<RecordV>::empty());
            assert(records_view(m_ans@) =~= Seq::<RecordV>::empty());
            assert(records_view(m_add@) =~= Seq::<RecordV>::empty());
        }
        let mut i: usize = 0;
        while i < query.questions.len()
            invariant
                wf_server(self@),
                qv == query@.questions,
                i <= query.questions@.len(),
                records_view(u_ans@) + buckets_from(self@, qv, remote, i as int).u_ans
                    == buckets_from(self@, qv, remote, 0).u_ans,
                records_view(u_add@) + buckets_from(self@, qv, remote, i as int).u_add
                    == buckets_from(self@, qv, remote, 0).u_add,
                records_view(m_ans@) + buckets_from(self@, qv, remote, i as int).m_ans
                    == buckets_from(self@, qv, remote, 0).m_ans,
                records_view(m_add@) + buckets_from(self@, qv, remote, i as int).m_add
                    == buckets_from(self@, qv, remote, 0).m_add,
            decreases query.questions@.len() - i,
        {
            let q = &query.questions[i];
            assert(qv[i as int] == q@);
            let (mut ans, mut add) = self.records_for_question(q, remote);
            let ghost pu_ans = records_view(u_ans@);
            let ghost pu_add = records_view(u_add@);
            let ghost pm_ans = records_view(m_ans@);
            let ghost pm_add = records_view(m_add@);
            let ghost qr = question_records(self@, qv[i as int], remote);
            if q.qclass & UNICAST_FLAG != 0 {
                u_ans.append(&mut ans);
                u_add.append(&mut add);
                proof {
                    assert(records_view(u_ans@) =~= pu_ans + qr.0);
                    assert(records_view(u_add@) =~= pu_add + qr.1);
                }
            } else {
                m_ans.append(&mut ans);
                m_add.append(&mut add);
                proof {
                    assert(records_view(m_ans@) =~= pm_ans + qr.0);
                    assert(records_view(m_add@) =~= pm_add + qr.1);
                }
            }
            proof {
                assert(records_view(u_ans@) + buckets_from(self@, qv, remote, i as int + 1).u_ans
                    =~= pu_ans + buckets_from(self@, qv, remote, i as int).u_ans);
                assert(records_view(u_add@) + buckets_from(self@, qv, remote, i as int + 1).u_add
                    =~= pu_add + buckets_from(self@, qv, remote, i as int).u_add);
                assert(records_view(m_ans@) + buckets_from(self@, qv, remote, i as int + 1).m_ans
                    =~= pm_ans + buckets_from(self@, qv, remote, i as int).m_ans);
                assert(records_view(m_add@) + buckets_from(self@, qv, remote, i as int + 1).m_add
                    =~= pm_add + buckets_from(self@, qv, remote, i as int).m_add);
            }
            i += 1;
        }
        let ghost b = buckets_from(self@, qv, remote, 0);
        proof {
            assert(buckets_from(self@, qv, remote, qv.len() as int).u_ans =~= Seq::<
                RecordV,
            >::empty());
            assert(buckets_from(self@, qv, remote, qv.len() as int).u_add =~= Seq::<
                RecordV,
            >::empty());
            assert(buckets_from(self@, qv, remote, qv.len() as int).m_ans =~= Seq::<
                RecordV,
            >::empty());
            assert(buckets_from(self@, qv, remote, qv.len() as int).m_add =~= Seq::<
                RecordV,
            >::empty());
            assert(records_view(u_ans@) =~= b.u_ans);
            assert(records_view(u_add@) =~= b.u_add);
            assert(records_view(m_ans@) =~= b.m_ans);
            assert(records_view(m_add@) =~= b.m_add);
        }
        let id: u16 = query.id;
        let unicast: Option<Packet> = if u_ans.len() > 0 || u_add.len() > 0 {
            let p = Packet {
                id,
                flags: RESPONSE_FLAGS,
                questions: Vec::new(),
                answers: u_ans,
                authorities: Vec::new(),
                additionals: u_add,
            };
            proof {
                assert(p@ =~= reply_of(id, b.u_ans, b.u_add)->Some_0);
            }
            Some(p)
        } else {
            None
        };
        let multicast: Option<Packet> = if m_ans.len() > 0 || m_add.len() > 0 {
            let p = Packet {
                id,
                flags: RESPONSE_FLAGS,
                questions: Vec::new(),
                answers: m_ans,
                authorities: Vec::new(),
                additionals: m_add,
            };
            proof {
                assert(p@ =~= reply_of(id, b.m_ans, b.m_add)->Some_0);
            }
            Some(p)
        } else {
            None
        };
        (unicast, multicast)
    }
}

/// A configuration whose replies always fit the wire format: every name
/// within its length bytes, every TXT string within one byte's length,
/// every synthesized payload within its two-byte length.
pub open spec fn wf_advertised(svc: ServiceV, hostname: Seq<Seq<u8>>) -> bool {
    &&& wf_name(svc.service_type)
    &&& wf_name(svc.instance_name)
    &&& enc_name(svc.instance_name).len() <= 0xFFFF
    &&& forall|k: int| 0 <= k < svc.txt.len() ==> (#[trigger] svc.txt[k]).len() <= 255
    &&& enc_txt_from(svc.txt, 0).len() <= 0xFFFF
}

pub open spec fn wf_config(server: ServerV) -> bool {
    &&& wf_name(server.hostname)
    &&& enc_name(server.hostname).len() + 6 <= 0xFFFF
    &&& forall|i: int|
        0 <= i < server.services.len() ==> wf_advertised(
            #[trigger] server.services[i],
            server.hostname,
        )
}

/// The records synthesized for one matched service all fit the wire
/// format.
proof fn lemma_additionals_wf(svc: ServiceV, hostname: Seq<Seq<u8>>, ip: u32)
    requires
        wf_advertised(svc, hostname),
        wf_name(hostname),
        enc_name(hostname).len() + 6 <= 0xFFFF,
    ensures
        wf_record(ptr_answer(svc)),
        service_additionals(svc, hostname, ip).len() <= 3,
        forall|k: int|
            0 <= k < service_additionals(svc, hostname, ip).len() ==> wf_record(
                #[trigger] service_additionals(svc, hostname, ip)[k],
            ),
{
    let ad = service_additionals(svc, hostname, ip);
    assert(wf_record(ad[0]));
    assert(wf_record(ad[ad.len() - 1]));
    if svc.txt.len() > 0 {
        assert(wf_record(ad[1]));
    }
}

/// Bounds and well-formedness of what the services from index `i` on
/// contribute to one question.
proof fn lemma_svc_records_wf(server: ServerV, qname: Seq<Seq<u8>>, remote: u32, i: int)
    requires
        wf_config(server),
        0 <= i <= server.services.len(),
    ensures
        ({
            let r = svc_records_from(server, qname, remote, i);
            &&& r.0.len() <= server.services.len() - i
            &&& r.1.len() <= 3 * (server.services.len() - i)
            &&& forall|k: int| 0 <= k < r.0.len() ==> wf_record(#[trigger] r.0[k])
            &&& forall|k: int| 0 <= k < r.1.len() ==> wf_record(#[trigger] r.1[k])
        }),
    decreases server.services.len() - i,
{
    if i < server.services.len() {
        lemma_svc_records_wf(server, qname, remote, i + 1);
        let rest = svc_records_from(server, qname, remote, i + 1);
        let r = svc_records_from(server, qname, remote, i);
        let svc = server.services[i];
        if svc.service_type == qname && local_ip_for(server.bindings, remote) is Some {
            let ip = local_ip_for(server.bindings, remote)->Some_0;
            lemma_additionals_wf(svc, server.hostname, ip);
            let ad = service_additionals(svc, server.hostname, ip);
            assert forall|k: int| 0 <= k < r.0.len() implies wf_record(#[trigger] r.0[k]) by {
                if k == 0 {
                    assert(r.0[k] == ptr_answer(svc));
                } else {
                    assert(r.0[k] == rest.0[k - 1]);
                }
            }
            assert forall|k: int| 0 <= k < r.1.len() implies wf_record(#[trigger] r.1[k]) by {
                if k < ad.len() {
                    assert(r.1[k] == ad[k]);
                } else {
                    assert(r.1[k] == rest.1[k - ad.len()]);
                }
            }
        }
    }
}

/// Bounds and well-formedness of the buckets filled by the questions from
/// index `i` on.
proof fn lemma_buckets_wf(server: ServerV, questions: Seq<QuestionV>, remote: u32, i: int)
    requires
        wf_config(server),
        0 <= i <= questions.len(),
    ensures
        ({
            let b = buckets_from(server, questions, remote, i);
            let s = server.services.len() as int;
            let q = questions.len() - i;
            &&& b.u_ans.len() <= q * s
            &&& b.u_add.len() <= 3 * (q * s)
            &&& b.m_ans.len() <= q * s
            &&& b.m_add.len() <= 3 * (q * s)
            &&& forall|k: int| 0 <= k < b.u_ans.len() ==> wf_record(#[trigger] b.u_ans[k])
            &&& forall|k: int| 0 <= k < b.u_add.len() ==> wf_record(#[trigger] b.u_add[k])
            &&& forall|k: int| 0 <= k < b.m_ans.len() ==> wf_record(#[trigger] b.m_ans[k])
            &&& forall|k: int| 0 <= k < b.m_add.len() ==> wf_record(#[trigger] b.m_add[k])
        }),
    decreases questions.len() - i,
{
    let s = server.services.len() as int;
    let q = questions.len() - i;
    if i < questions.len() {
        lemma_buckets_wf(server, questions, remote, i + 1);
        if questions[i].rtype == TYPE_PTR {
            lemma_svc_records_wf(server, questions[i].name, remote, 0);
        }
        let rest = buckets_from(server, questions, remote, i + 1);
        let qr = question_records(server, questions[i], remote);
        let b = buckets_from(server, questions, remote, i);
        assert((q - 1) * s + s == q * s) by (nonlinear_arith);
        assert(3 * ((q - 1) * s) + 3 * s == 3 * (q * s)) by (nonlinear_arith);
        assert forall|k: int| 0 <= k < b.u_ans.len() implies wf_record(#[trigger] b.u_ans[k]) by {
            if question_unicast(questions[i]) {
                if k < qr.0.len() {
                    assert(b.u_ans[k] == qr.0[k]);
                } else {
                    assert(b.u_ans[k] == rest.u_ans[k - qr.0.len()]);
                }
            } else {
                assert(b.u_ans[k] == rest.u_ans[k]);
            }
        }
        assert forall|k: int| 0 <= k < b.u_add.len() implies wf_record(#[trigger] b.u_add[k]) by {
            if question_unicast(questions[i]) {
                if k < qr.1.len() {
                    assert(b.u_add[k] == qr.1[k]);
                } else {
                    assert(b.u_add[k] == rest.u_add[k - qr.1.len()]);
                }
            } else {
                assert(b.u_add[k] == rest.u_add[k]);
            }
        }
        assert forall|k: int| 0 <= k < b.m_ans.len() implies wf_record(#[trigger] b.m_ans[k]) by {
            if !question_unicast(questions[i]) {
                if k < qr.0.len() {
                    assert(b.m_ans[k] == qr.0[k]);
                } else {
                    assert(b.m_ans[k] == rest.m_ans[k - qr.0.len()]);
                }
            } else {
                assert(b.m_ans[k] == rest.m_ans[k]);
            }
        }
        assert forall|k: int| 0 <= k < b.m_add.len() implies wf_record(#[trigger] b.m_add[k]) by {
            if !question_unicast(questions[i]) {
                if k < qr.1.len() {
                    assert(b.m_add[k] == qr.1[k]);
                } else {
                    assert(b.m_add[k] == rest.m_add[k - qr.1.len()]);
                }
            } else {
                assert(b.m_add[k] == rest.m_add[k]);
            }
        }
    } else {
        assert(q * s == 0) by (nonlinear_arith)
            requires
                q == 0,
        ;
    }
}

/// Every reply produced from a well-formed configuration fits the wire
/// format — `encode` accepts it — provided questions times services stays
/// within the sixteen-bit record counts.
pub proof fn lemma_reply_encodable(server: ServerV, data: Seq<u8>, remote: u32)
    requires
        wf_config(server),
        parse_message(data) matches Ok(q) ==> 3 * (q.questions.len() * server.services.len() as int)
            <= 0xFFFF,
    ensures
        handle_spec(server, data, remote).0 matches Some(p) ==> wf_message(p),
        handle_spec(server, data, remote).1 matches Some(p) ==> wf_message(p),
{
    match parse_message(data) {
        Ok(q) => {
            if is_query(q.flags) {
                lemma_buckets_wf(server, q.questions, remote, 0);
                let nq = q.questions.len() as int;
                let ns = server.services.len() as int;
                assert(nq * ns >= 0) by (nonlinear_arith)
                    requires
                        nq >= 0,
                        ns >= 0,
                ;
            }
        },
        Err(_) => {},
    }
}

/// Every reply the responder produces reuses the query's transaction id,
/// is marked as an authoritative response, carries no questions and no
/// authorities, and exists only when it has answers or additionals.
pub proof fn lemma_reply_shape(server: ServerV, data: Seq<u8>, remote: u32)
    ensures
        handle_spec(server, data, remote).0 matches Some(p) ==> parse_message(data) matches Ok(q)
            && p.id == q.id && p.flags == RESPONSE_FLAGS && p.questions.len() == 0
            && p.authorities.len() == 0 && (p.answers.len() > 0 || p.additionals.len() > 0),
        handle_spec(server, data, remote).1 matches Some(p) ==> parse_message(data) matches Ok(q)
            && p.id == q.id && p.flags == RESPONSE_FLAGS && p.questions.len() == 0
            && p.authorities.len() == 0 && (p.answers.len() > 0 || p.additionals.len() > 0),
{
}

} // verus!
