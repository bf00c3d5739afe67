use simple_mdns::codec::encode;
use simple_mdns::net::ipv4;
use simple_mdns::packet::{Name, Packet, Question, RecordData};
use simple_mdns::responder::{Message, Server, Service};

fn service(stype: &[u8], instance: &[u8], port: u16, txt: Vec<Vec<u8>>) -> Service {
    Service::new(&stype.to_vec(), &instance.to_vec(), port, txt).expect("non-empty names")
}

fn server_with(bindings: Vec<(u32, u32)>) -> Server {
    let svc = service(b"_http._tcp.local", b"web._http._tcp.local", 8080, vec![b"path=/".to_vec()]);
    Server::new(vec![svc], b"myhost".to_vec(), &bindings)
}

fn ptr_query(qname: &[&[u8]], unicast: bool) -> Vec<u8> {
    let qclass: u16 = if unicast { 0x8001 } else { 1 };
    let q = Question {
        name: Name { labels: qname.iter().map(|l| l.to_vec()).collect() },
        rtype: 12,
        qclass,
    };
    let m = Packet {
        id: 0x4242,
        flags: 0,
        questions: vec![q],
        answers: vec![],
        authorities: vec![],
        additionals: vec![],
    };
    encode(&m)
}

fn envelope(data: Vec<u8>, sender_ip: u32) -> Message {
    Message { data, sender_ip, sender_port: 5353, interface: 2 }
}

fn check_reply(reply: &Packet, want_addr: u32, want_txt: bool) {
    assert_eq!(reply.id, 0x4242);
    assert_eq!(reply.flags, 0x8400);
    assert_eq!(reply.questions.len(), 0);
    assert_eq!(reply.authorities.len(), 0);
    assert_eq!(reply.answers.len(), 1);
    let ans = &reply.answers[0];
    assert_eq!(ans.name.labels, vec![b"_http".to_vec(), b"_tcp".to_vec(), b"local".to_vec()]);
    assert_eq!(ans.ttl, 3600);
    match &ans.data {
        RecordData::Ptr { name } => {
            assert_eq!(
                name.labels,
                vec![b"web".to_vec(), b"_http".to_vec(), b"_tcp".to_vec(), b"local".to_vec()]
            );
        }
        _ => panic!("the answer must be a PTR record"),
    }
    let want_len = if want_txt { 3 } else { 2 };
    assert_eq!(reply.additionals.len(), want_len);
    match &reply.additionals[0].data {
        RecordData::Srv { priority, weight, port, target } => {
            assert_eq!((*priority, *weight, *port), (0, 0, 8080));
            assert_eq!(target.labels, vec![b"myhost".to_vec(), b"local".to_vec()]);
        }
        _ => panic!("the first additional must be an SRV record"),
    }
    if want_txt {
        match &reply.additionals[1].data {
            RecordData::Txt { strings } => assert_eq!(strings, &vec![b"path=/".to_vec()]),
            _ => panic!("the second additional must be a TXT record"),
        }
    }
    let a = &reply.additionals[want_len - 1];
    assert_eq!(a.name.labels, vec![b"myhost".to_vec(), b"local".to_vec()]);
    match &a.data {
        RecordData::A { addr } => assert_eq!(*addr, want_addr),
        _ => panic!("the last additional must be an A record"),
    }
}

#[test]
fn matching_query_multicast_reply() {
    let server = server_with(vec![(ipv4(10, 0, 0, 5), ipv4(255, 255, 255, 0))]);
    let env = envelope(ptr_query(&[b"_http", b"_tcp", b"local"], false), ipv4(10, 0, 0, 9));
    let (unicast, multicast) = server.handle(&env);
    assert!(unicast.is_none());
    let reply = multicast.expect("a multicast reply is owed");
    check_reply(&reply, ipv4(10, 0, 0, 5), true);
}

#[test]
fn matching_query_unicast_reply() {
    let server = server_with(vec![(ipv4(10, 0, 0, 5), ipv4(255, 255, 255, 0))]);
    let env = envelope(ptr_query(&[b"_http", b"_tcp", b"local"], true), ipv4(10, 0, 0, 9));
    let (unicast, multicast) = server.handle(&env);
    assert!(multicast.is_none());
    let reply = unicast.expect("a unicast reply is owed");
    check_reply(&reply, ipv4(10, 0, 0, 5), true);
}

#[test]
fn unrelated_query_no_reply() {
    let server = server_with(vec![(ipv4(10, 0, 0, 5), ipv4(255, 255, 255, 0))]);
    let env = envelope(ptr_query(&[b"_ipp", b"_tcp", b"local"], false), ipv4(10, 0, 0, 9));
    let (unicast, multicast) = server.handle(&env);
    assert!(unicast.is_none());
    assert!(multicast.is_none());
}

#[test]
fn subnet_selection_picks_nearest_address() {
    let bindings = vec![
        (ipv4(10, 0, 0, 5), ipv4(255, 255, 255, 0)),
        (ipv4(192, 168, 1, 5), ipv4(255, 255, 255, 0)),
    ];
    let server = server_with(bindings);
    let query = ptr_query(&[b"_http", b"_tcp", b"local"], false);

    let (_, multicast) = server.handle(&envelope(query.clone(), ipv4(10, 0, 0, 9)));
    check_reply(&multicast.expect("reply owed"), ipv4(10, 0, 0, 5), true);

    let (_, multicast) = server.handle(&envelope(query.clone(), ipv4(192, 168, 1, 77)));
    check_reply(&multicast.expect("reply owed"), ipv4(192, 168, 1, 5), true);
}

#[test]
fn peer_outside_every_subnet_is_skipped_silently() {
    let bindings = vec![
        (ipv4(10, 0, 0, 5), ipv4(255, 255, 255, 0)),
        (ipv4(192, 168, 1, 5), ipv4(255, 255, 255, 0)),
    ];
    let server = server_with(bindings);
    let env = envelope(ptr_query(&[b"_http", b"_tcp", b"local"], false), ipv4(172, 16, 0, 1));
    let (unicast, multicast) = server.handle(&env);
    assert!(unicast.is_none());
    assert!(multicast.is_none());
}

#[test]
fn non_query_gets_no_reply() {
    let server = server_with(vec![(ipv4(10, 0, 0, 5), ipv4(255, 255, 255, 0))]);
    let mut bytes = ptr_query(&[b"_http", b"_tcp", b"local"], false);
    bytes[2] = 0x84; // mark the message as a response
    let (unicast, multicast) = server.handle(&envelope(bytes, ipv4(10, 0, 0, 9)));
    assert!(unicast.is_none());
    assert!(multicast.is_none());
}

#[test]
fn malformed_datagram_is_absorbed() {
    let server = server_with(vec![(ipv4(10, 0, 0, 5), ipv4(255, 255, 255, 0))]);
    let (unicast, multicast) = server.handle(&envelope(vec![0xC0, 0xFF, 0xEE], ipv4(10, 0, 0, 9)));
    assert!(unicast.is_none());
    assert!(multicast.is_none());
}

#[test]
fn service_without_txt_gets_no_txt_record() {
    let svc = service(b"_http._tcp.local", b"web._http._tcp.local", 8080, vec![]);
    let server = Server::new(
        vec![svc],
        b"myhost".to_vec(),
        &vec![(ipv4(10, 0, 0, 5), ipv4(255, 255, 255, 0))],
    );
    let env = envelope(ptr_query(&[b"_http", b"_tcp", b"local"], false), ipv4(10, 0, 0, 9));
    let (_, multicast) = server.handle(&env);
    check_reply(&multicast.expect("reply owed"), ipv4(10, 0, 0, 5), false);
}

#[test]
fn mixed_questions_fill_both_buckets() {
    let server = server_with(vec![(ipv4(10, 0, 0, 5), ipv4(255, 255, 255, 0))]);
    let qname = Name {
        labels: vec![b"_http".to_vec(), b"_tcp".to_vec(), b"local".to_vec()],
    };
    let m = Packet {
        id: 0x4242,
        flags: 0,
        questions: vec![
            Question { name: Name { labels: qname.labels.clone() }, rtype: 12, qclass: 0x8001 },
            Question { name: qname, rtype: 12, qclass: 1 },
        ],
        answers: vec![],
        authorities: vec![],
        additionals: vec![],
    };
    let env = envelope(encode(&m), ipv4(10, 0, 0, 9));
    let (unicast, multicast) = server.handle(&env);
    check_reply(&unicast.expect("unicast reply owed"), ipv4(10, 0, 0, 5), true);
    check_reply(&multicast.expect("multicast reply owed"), ipv4(10, 0, 0, 5), true);
}

#[test]
fn non_ptr_question_earns_nothing() {
    let server = server_with(vec![(ipv4(10, 0, 0, 5), ipv4(255, 255, 255, 0))]);
    let q = Question {
        name: Name { labels: vec![b"_http".to_vec(), b"_tcp".to_vec(), b"local".to_vec()] },
        rtype: 1, // an A question, not PTR
        qclass: 1,
    };
    let m = Packet {
        id: 1,
        flags: 0,
        questions: vec![q],
        answers: vec![],
        authorities: vec![],
        additionals: vec![],
    };
    let (unicast, multicast) = server.handle(&envelope(encode(&m), ipv4(10, 0, 0, 9)));
    assert!(unicast.is_none());
    assert!(multicast.is_none());
}

#[test]
fn service_rejects_empty_names() {
    assert!(Service::new(&vec![], &b"inst".to_vec(), 1, vec![]).is_none());
    assert!(Service::new(&b"_x._tcp.local".to_vec(), &vec![], 1, vec![]).is_none());
    let svc = Service::new(&b"_x._tcp.local".to_vec(), &b"i._x._tcp.local".to_vec(), 1, vec![])
        .expect("valid names");
    assert_eq!(
        svc.service_type.labels,
        vec![b"_x".to_vec(), b"_tcp".to_vec(), b"local".to_vec()]
    );
    assert_eq!(
        svc.instance_name.labels,
        vec![b"i".to_vec(), b"_x".to_vec(), b"_tcp".to_vec(), b"local".to_vec()]
    );
}

#[test]
fn hostname_suffix_added_once() {
    let no_suffix = Server::new(vec![], b"myhost".to_vec(), &vec![]);
    assert_eq!(no_suffix.hostname.labels, vec![b"myhost".to_vec(), b"local".to_vec()]);
    let with_suffix = Server::new(vec![], b"myhost.local".to_vec(), &vec![]);
    assert_eq!(with_suffix.hostname.labels, vec![b"myhost".to_vec(), b"local".to_vec()]);
}

#[test]
fn trivial_netmasks_are_dropped() {
    let bindings = vec![
        (ipv4(10, 0, 0, 5), ipv4(0, 0, 0, 0)),
        (ipv4(10, 0, 1, 5), ipv4(255, 255, 255, 255)),
        (ipv4(10, 0, 2, 5), ipv4(255, 0, 255, 0)),
        (ipv4(10, 0, 3, 5), ipv4(255, 255, 0, 0)),
    ];
    let server = Server::new(vec![], b"myhost".to_vec(), &bindings);
    assert_eq!(server.bindings.len(), 1);
    assert_eq!(server.bindings[0].addr, ipv4(10, 0, 3, 5));
    assert_eq!(server.bindings[0].prefix_len, 16);
}

#[test]
fn reply_survives_the_wire() {
    // the whole pipeline: decode -> decide -> encode -> decode
    let server = server_with(vec![(ipv4(10, 0, 0, 5), ipv4(255, 255, 255, 0))]);
    let env = envelope(ptr_query(&[b"_http", b"_tcp", b"local"], false), ipv4(10, 0, 0, 9));
    let (_, multicast) = server.handle(&env);
    let reply = multicast.expect("reply owed");
    assert!(simple_mdns::codec::message_wf(&reply));
    let bytes = encode(&reply);
    let back = simple_mdns::codec::decode(&bytes).expect("a reply must round-trip");
    check_reply(&back, ipv4(10, 0, 0, 5), true);
}
