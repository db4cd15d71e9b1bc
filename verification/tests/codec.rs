use infotainer::codec::{
    decode_client_command, decode_server_message, dec_publication, encode_client_command,
    encode_publication, encode_server_message,
};
use infotainer::ids::Uid;
use infotainer::pubsub::{Issue, Publication};
use infotainer::websocket::ClientCommand;
use infotainer::ServerMessage;

fn sample_uid() -> Uid {
    Uid::new(0x0011223344556677, 0x8899aabbccddeeff)
}

fn sample_uid_bytes() -> Vec<u8> {
    vec![
        0x50, 0x00, 0x11, 0x22, 0x33, 0x44, 0x55, 0x66, 0x77, 0x88, 0x99, 0xaa, 0xbb, 0xcc, 0xdd,
        0xee, 0xff,
    ]
}

#[test]
fn get_log_index_has_exact_encoding() {
    let frame = encode_client_command(&ClientCommand::GetLogIndex { log_id: sample_uid() });
    let mut expected = vec![0x82, 0x00];
    expected.extend(sample_uid_bytes());
    assert_eq!(frame, expected);
}

#[test]
fn submit_publication_has_exact_encoding() {
    let frame = encode_client_command(&ClientCommand::SubmitPublication {
        subscription_id: sample_uid(),
        submission: vec![0x48, 0x65, 0x6c, 0x6c, 0x6f],
    });
    let mut expected = vec![0x83, 0x04];
    expected.extend(sample_uid_bytes());
    expected.extend(vec![0x45, 0x48, 0x65, 0x6c, 0x6c, 0x6f]);
    assert_eq!(frame, expected);
}

#[test]
fn client_command_round_trips() {
    let cases = vec![
        ClientCommand::GetLogIndex { log_id: sample_uid() },
        ClientCommand::GetLogEntries {
            log_id: sample_uid(),
            entries: vec![Uid::new(1, 2), Uid::new(3, 4)],
        },
        ClientCommand::GetLogEntries { log_id: Uid::new(0, 0), entries: vec![] },
        ClientCommand::Subscribe { subscription_id: sample_uid() },
        ClientCommand::Unsubscribe { subscription_id: sample_uid() },
        ClientCommand::SubmitPublication {
            subscription_id: sample_uid(),
            submission: vec![],
        },
        ClientCommand::SubmitPublication {
            subscription_id: sample_uid(),
            submission: (0..=255u16).map(|b| (b % 256) as u8).collect(),
        },
    ];
    for cmd in cases {
        let frame = encode_client_command(&cmd);
        let decoded = decode_client_command(&frame).expect("well-formed frame must decode");
        assert_eq!(decoded, cmd);
        // the decoded command re-encodes to the original frame, byte for byte
        assert_eq!(encode_client_command(&decoded), frame);
    }
}

#[test]
fn server_message_round_trips() {
    let publication = Publication {
        publication_id: Uid::new(5, 6),
        subscription_id: Uid::new(7, 8),
        data: vec![1, 2, 3],
    };
    let cases = vec![
        ServerMessage::Issue(Issue(sample_uid(), Uid::new(9, 10))),
        ServerMessage::LogIndex(sample_uid(), vec![Uid::new(1, 1), Uid::new(2, 2)]),
        ServerMessage::LogIndex(sample_uid(), vec![]),
        ServerMessage::LogEntry(vec![publication.clone(), publication.clone()]),
        ServerMessage::LogEntry(vec![]),
    ];
    for msg in cases {
        let frame = encode_server_message(&msg);
        let decoded = decode_server_message(&frame).expect("well-formed frame must decode");
        assert_eq!(decoded, msg);
        assert_eq!(encode_server_message(&decoded), frame);
    }
}

#[test]
fn publication_round_trips() {
    let publication = Publication {
        publication_id: sample_uid(),
        subscription_id: Uid::new(11, 12),
        data: vec![0xde, 0xad, 0xbe, 0xef],
    };
    let blob = encode_publication(&publication);
    let (decoded, used) = dec_publication(&blob, 0).expect("stored blob must decode");
    assert_eq!(used, blob.len());
    assert_eq!(decoded, publication);
}

#[test]
fn malformed_frames_are_rejected() {
    // empty frame
    assert!(decode_client_command(&vec![]).is_none());
    // unknown tag
    let mut unknown_tag = vec![0x82, 0x05];
    unknown_tag.extend(sample_uid_bytes());
    assert!(decode_client_command(&unknown_tag).is_none());
    // wrong array arity for the tag
    let mut wrong_arity = vec![0x83, 0x00];
    wrong_arity.extend(sample_uid_bytes());
    assert!(decode_client_command(&wrong_arity).is_none());
    // trailing byte after a complete command
    let mut trailing = encode_client_command(&ClientCommand::Subscribe {
        subscription_id: sample_uid(),
    });
    trailing.push(0x00);
    assert!(decode_client_command(&trailing).is_none());
    // truncated identifier
    let truncated = vec![0x82, 0x02, 0x50, 0x01];
    assert!(decode_client_command(&truncated).is_none());
}

#[test]
fn non_minimal_length_headers_are_rejected() {
    // the same submission, once with a minimal length header ...
    let good = encode_client_command(&ClientCommand::SubmitPublication {
        subscription_id: sample_uid(),
        submission: vec![0x01, 0x02],
    });
    assert!(decode_client_command(&good).is_some());
    // ... and once with the two-byte payload length spelled in long form
    let mut bad = vec![0x83, 0x04];
    bad.extend(sample_uid_bytes());
    bad.extend(vec![0x58, 0x02, 0x01, 0x02]);
    assert!(decode_client_command(&bad).is_none());
}

#[test]
fn frames_are_valid_cbor() {
    // a frame produced by the library parses as generic CBOR with the
    // expected shape: an array of the tag and the fields
    let frame = encode_client_command(&ClientCommand::SubmitPublication {
        subscription_id: sample_uid(),
        submission: vec![0x48, 0x65, 0x6c, 0x6c, 0x6f],
    });
    let value: serde_cbor::Value = serde_cbor::from_slice(&frame).expect("frame must be CBOR");
    match value {
        serde_cbor::Value::Array(items) => {
            assert_eq!(items.len(), 3);
            assert_eq!(items[0], serde_cbor::Value::Integer(4));
            match &items[1] {
                serde_cbor::Value::Bytes(b) => assert_eq!(b.len(), 16),
                other => panic!("expected an identifier byte string, got {:?}", other),
            }
            assert_eq!(
                items[2],
                serde_cbor::Value::Bytes(vec![0x48, 0x65, 0x6c, 0x6c, 0x6f])
            );
        }
        other => panic!("expected a CBOR array, got {:?}", other),
    }
}

#[test]
fn long_payloads_use_wider_length_headers() {
    let payload = vec![0xab; 30];
    let cmd = ClientCommand::SubmitPublication {
        subscription_id: sample_uid(),
        submission: payload.clone(),
    };
    let frame = encode_client_command(&cmd);
    let mut expected = vec![0x83, 0x04];
    expected.extend(sample_uid_bytes());
    expected.push(0x58);
    expected.push(30);
    expected.extend(payload);
    assert_eq!(frame, expected);
    assert_eq!(decode_client_command(&frame), Some(cmd));
}

#[test]
fn malformed_server_frames_are_rejected() {
    // empty
    assert!(decode_server_message(&vec![]).is_none());
    // unknown tag
    assert!(decode_server_message(&vec![0x83, 0x07]).is_none());
    // truncated issue
    let mut truncated = vec![0x83, 0x00];
    truncated.extend(sample_uid_bytes());
    assert!(decode_server_message(&truncated).is_none());
    // trailing byte
    let mut trailing = encode_server_message(&ServerMessage::LogIndex(sample_uid(), vec![]));
    trailing.push(0x01);
    assert!(decode_server_message(&trailing).is_none());
}

#[test]
fn log_index_frame_is_valid_cbor() {
    let frame = encode_server_message(&ServerMessage::LogIndex(
        sample_uid(),
        vec![Uid::new(1, 2), Uid::new(3, 4)],
    ));
    let value: serde_cbor::Value = serde_cbor::from_slice(&frame).expect("frame must be CBOR");
    match value {
        serde_cbor::Value::Array(items) => {
            assert_eq!(items.len(), 3);
            assert_eq!(items[0], serde_cbor::Value::Integer(1));
            assert!(matches!(items[1], serde_cbor::Value::Bytes(_)));
            match &items[2] {
                serde_cbor::Value::Array(ids) => assert_eq!(ids.len(), 2),
                other => panic!("expected an id list, got {:?}", other),
            }
        }
        other => panic!("expected a CBOR array, got {:?}", other),
    }
}
