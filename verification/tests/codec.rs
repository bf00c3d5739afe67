use simple_mdns::codec::{decode, encode, message_wf};
use simple_mdns::packet::{DecodeError, Name, Packet, Question, Record, RecordData};

fn name(labels: &[&[u8]]) -> Name {
    Name { labels: labels.iter().map(|l| l.to_vec()).collect() }
}

fn labels_of(n: &Name) -> Vec<Vec<u8>> {
    n.labels.clone()
}

#[test]
fn round_trip_full_message() {
    let q = Question { name: name(&[b"_http", b"_tcp", b"local"]), rtype: 12, qclass: 1 };
    let ptr = Record {
        name: name(&[b"_http", b"_tcp", b"local"]),
        class: 1,
        ttl: 3600,
        data: RecordData::Ptr { name: name(&[b"web", b"_http", b"_tcp", b"local"]) },
    };
    let srv = Record {
        name: name(&[b"web", b"_http", b"_tcp", b"local"]),
        class: 1,
        ttl: 3600,
        data: RecordData::Srv {
            priority: 0,
            weight: 0,
            port: 8080,
            target: name(&[b"myhost", b"local"]),
        },
    };
    let txt = Record {
        name: name(&[b"web", b"_http", b"_tcp", b"local"]),
        class: 1,
        ttl: 3600,
        data: RecordData::Txt { strings: vec![b"path=/".to_vec(), b"".to_vec()] },
    };
    let a = Record {
        name: name(&[b"myhost", b"local"]),
        class: 1,
        ttl: 3600,
        data: RecordData::A { addr: 0x0A000005 },
    };
    let other = Record {
        name: name(&[b"myhost", b"local"]),
        class: 1,
        ttl: 120,
        data: RecordData::Other { rtype: 47, payload: vec![1, 2, 3] },
    };
    let m = Packet {
        id: 0x1234,
        flags: 0x8400,
        questions: vec![q],
        answers: vec![ptr],
        authorities: vec![other],
        additionals: vec![srv, txt, a],
    };
    let bytes = encode(&m);
    let back = decode(&bytes).expect("must decode");
    assert_eq!(back.id, 0x1234);
    assert_eq!(back.flags, 0x8400);
    assert_eq!(back.questions.len(), 1);
    assert_eq!(labels_of(&back.questions[0].name), labels_of(&m.questions[0].name));
    assert_eq!(back.questions[0].rtype, 12);
    assert_eq!(back.questions[0].qclass, 1);
    assert_eq!(back.answers.len(), 1);
    assert_eq!(labels_of(&back.answers[0].name), labels_of(&m.answers[0].name));
    match &back.answers[0].data {
        RecordData::Ptr { name: n } => {
            assert_eq!(labels_of(n), labels_of(&name(&[b"web", b"_http", b"_tcp", b"local"])));
        }
        _ => panic!("expected a PTR answer"),
    }
    assert_eq!(back.authorities.len(), 1);
    match &back.authorities[0].data {
        RecordData::Other { rtype, payload } => {
            assert_eq!(*rtype, 47);
            assert_eq!(payload, &vec![1, 2, 3]);
        }
        _ => panic!("expected an opaque record"),
    }
    assert_eq!(back.additionals.len(), 3);
    match &back.additionals[0].data {
        RecordData::Srv { priority, weight, port, target } => {
            assert_eq!((*priority, *weight, *port), (0, 0, 8080));
            assert_eq!(labels_of(target), labels_of(&name(&[b"myhost", b"local"])));
        }
        _ => panic!("expected an SRV additional"),
    }
    match &back.additionals[1].data {
        RecordData::Txt { strings } => {
            assert_eq!(strings, &vec![b"path=/".to_vec(), b"".to_vec()]);
        }
        _ => panic!("expected a TXT additional"),
    }
    match &back.additionals[2].data {
        RecordData::A { addr } => assert_eq!(*addr, 0x0A000005),
        _ => panic!("expected an A additional"),
    }
    assert_eq!(back.additionals[2].ttl, 3600);
}

#[test]
fn encode_exact_bytes() {
    let q = Question { name: name(&[b"ab", b"c"]), rtype: 12, qclass: 0x8001 };
    let m = Packet {
        id: 0x0102,
        flags: 0,
        questions: vec![q],
        answers: vec![],
        authorities: vec![],
        additionals: vec![],
    };
    let bytes = encode(&m);
    let expected: Vec<u8> = vec![
        0x01, 0x02, // id
        0x00, 0x00, // flags
        0x00, 0x01, // one question
        0x00, 0x00, 0x00, 0x00, 0x00, 0x00, // no records
        2, b'a', b'b', 1, b'c', 0, // the name, flat
        0x00, 0x0C, // PTR
        0x80, 0x01, // class IN with the unicast bit
    ];
    assert_eq!(bytes, expected);
}

#[test]
fn decode_rejects_truncated_header() {
    let bytes: Vec<u8> = vec![0; 11];
    assert!(matches!(decode(&bytes), Err(DecodeError::Truncated)));
}

#[test]
fn decode_rejects_truncated_label() {
    // one question; the label promises 5 bytes but the buffer ends
    let mut bytes: Vec<u8> = vec![0, 1, 0, 0, 0, 1, 0, 0, 0, 0, 0, 0];
    bytes.extend_from_slice(&[5, b'a', b'b']);
    assert!(matches!(decode(&bytes), Err(DecodeError::Truncated)));
}

#[test]
fn decode_rejects_self_pointer() {
    // the question's name is a pointer to its own offset (12)
    let mut bytes: Vec<u8> = vec![0, 1, 0, 0, 0, 1, 0, 0, 0, 0, 0, 0];
    bytes.extend_from_slice(&[0xC0, 12, 0, 12, 0, 1]);
    assert!(matches!(decode(&bytes), Err(DecodeError::BadPointer)));
}

#[test]
fn decode_rejects_forward_pointer() {
    // the pointer aims past itself, at offset 20
    let mut bytes: Vec<u8> = vec![0, 1, 0, 0, 0, 1, 0, 0, 0, 0, 0, 0];
    bytes.extend_from_slice(&[0xC0, 20, 0, 12, 0, 1, 1, b'x', 0]);
    assert!(matches!(decode(&bytes), Err(DecodeError::BadPointer)));
}

#[test]
fn decode_rejects_pointer_loop() {
    // a name that ends in a pointer back to its own start would loop
    // forever; the jump does not move strictly backwards and is refused
    let mut bytes: Vec<u8> = vec![0, 1, 0, 0, 0, 1, 0, 0, 0, 0, 0, 0];
    // offset 12: label "x", then a pointer to offset 12
    bytes.extend_from_slice(&[1, b'x', 0xC0, 12, 0, 12, 0, 1]);
    assert!(matches!(decode(&bytes), Err(DecodeError::BadPointer)));
}

#[test]
fn decode_follows_backward_pointer() {
    // second question's name is a pointer to the first question's name
    let mut bytes: Vec<u8> = vec![0x30, 0x39, 0, 0, 0, 2, 0, 0, 0, 0, 0, 0];
    bytes.extend_from_slice(&[1, b'a', 1, b'b', 0, 0, 12, 0, 1]); // "a.b" at offset 12
    bytes.extend_from_slice(&[0xC0, 12, 0, 12, 0, 1]);
    let p = decode(&bytes).expect("must decode");
    assert_eq!(p.questions.len(), 2);
    assert_eq!(p.questions[0].name.labels, vec![b"a".to_vec(), b"b".to_vec()]);
    assert_eq!(p.questions[1].name.labels, vec![b"a".to_vec(), b"b".to_vec()]);
}

#[test]
fn decode_rejects_reserved_label_byte() {
    let mut bytes: Vec<u8> = vec![0, 1, 0, 0, 0, 1, 0, 0, 0, 0, 0, 0];
    bytes.extend_from_slice(&[0x80, 0, 0, 12, 0, 1]);
    assert!(matches!(decode(&bytes), Err(DecodeError::BadLabel)));
}

#[test]
fn decode_rejects_wrong_a_length() {
    // one answer: root name, type A, class 1, ttl 0, rdlength 5
    let mut bytes: Vec<u8> = vec![0, 1, 0, 0, 0, 0, 0, 1, 0, 0, 0, 0];
    bytes.extend_from_slice(&[0, 0, 1, 0, 1, 0, 0, 0, 0, 0, 5, 9, 9, 9, 9, 9]);
    assert!(matches!(decode(&bytes), Err(DecodeError::BadLength)));
}

#[test]
fn decode_rejects_txt_overrun() {
    // TXT whose inner string length runs past the declared payload
    let mut bytes: Vec<u8> = vec![0, 1, 0, 0, 0, 0, 0, 1, 0, 0, 0, 0];
    bytes.extend_from_slice(&[0, 0, 16, 0, 1, 0, 0, 0, 0, 0, 2, 9, 9]);
    assert!(matches!(decode(&bytes), Err(DecodeError::BadLength)));
}

#[test]
fn decode_ignores_trailing_bytes() {
    let m = Packet {
        id: 7,
        flags: 0,
        questions: vec![Question { name: name(&[b"x"]), rtype: 12, qclass: 1 }],
        answers: vec![],
        authorities: vec![],
        additionals: vec![],
    };
    let mut bytes = encode(&m);
    bytes.extend_from_slice(&[0u8; 64]);
    let p = decode(&bytes).expect("must decode despite padding");
    assert_eq!(p.id, 7);
    assert_eq!(p.questions.len(), 1);
}

#[test]
fn round_trip_empty_message() {
    let m = Packet {
        id: 0,
        flags: 0,
        questions: vec![],
        answers: vec![],
        authorities: vec![],
        additionals: vec![],
    };
    let bytes = encode(&m);
    assert_eq!(bytes.len(), 12);
    let p = decode(&bytes).expect("must decode");
    assert_eq!(p.id, 0);
    assert_eq!(p.questions.len(), 0);
    assert_eq!(p.answers.len(), 0);
    assert_eq!(p.authorities.len(), 0);
    assert_eq!(p.additionals.len(), 0);
}

#[test]
fn wf_accepts_ordinary_message() {
    let m = Packet {
        id: 1,
        flags: 0x8400,
        questions: vec![],
        answers: vec![Record {
            name: name(&[b"_http", b"_tcp", b"local"]),
            class: 1,
            ttl: 3600,
            data: RecordData::Ptr { name: name(&[b"web", b"_http", b"_tcp", b"local"]) },
        }],
        authorities: vec![],
        additionals: vec![],
    };
    assert!(message_wf(&m));
}

#[test]
fn wf_rejects_oversized_label() {
    let long = vec![b'x'; 64]; // one byte over what a length byte can say
    let m = Packet {
        id: 1,
        flags: 0,
        questions: vec![Question {
            name: Name { labels: vec![long] },
            rtype: 12,
            qclass: 1,
        }],
        answers: vec![],
        authorities: vec![],
        additionals: vec![],
    };
    assert!(!message_wf(&m));
}

#[test]
fn wf_rejects_empty_label() {
    let m = Packet {
        id: 1,
        flags: 0,
        questions: vec![],
        answers: vec![Record {
            name: Name { labels: vec![b"a".to_vec(), vec![]] },
            class: 1,
            ttl: 0,
            data: RecordData::A { addr: 0 },
        }],
        authorities: vec![],
        additionals: vec![],
    };
    assert!(!message_wf(&m));
}
