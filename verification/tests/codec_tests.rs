use speed_daemon::codec::SDMessage;
use speed_daemon::codec::SpeedDaemonCodec;
use speed_daemon::codec::SpeedDaemonCodecError;

#[test]
fn test_msg_err() {
    let data = SDMessage::Error {
        msg: b"illegal msg".to_vec(),
    };

    let codec = SpeedDaemonCodec::new();
    let mut output_buf: Vec<u8> = Vec::with_capacity(128);

    match codec.encode(data, &mut output_buf) {
        Ok(()) => {}
        _ => panic!("Non OK value returned from encode"),
    }

    assert_eq!(
        output_buf,
        b"\x10\x0b\x69\x6c\x6c\x65\x67\x61\x6c\x20\x6d\x73\x67"
    );
}

#[test]
fn test_msg_plate() {
    let data = b"\x20\x04\x55\x4e\x31\x58\x00\x00\x03\xe8";

    let codec = SpeedDaemonCodec::new();
    let output = codec.decode(data);
    let output = match output {
        Err(e) => panic!("Decoding message failed: {:?}", e),
        Ok(None) => panic!("Decoding message failed: not enough data?"),
        Ok(Some(output)) => output,
    };

    assert_eq!(
        output,
        (
            SDMessage::Plate {
                plate: b"UN1X".to_vec(),
                timestamp: 1000,
            },
            data.len()
        )
    );
}

#[test]
fn test_msg_ticket() {
    let data = SDMessage::Ticket {
        plate: b"RE05BKG".to_vec(),
        road: 368,
        mile1: 1234,
        timestamp1: 1000000,
        mile2: 1235,
        timestamp2: 1000060,
        speed: 6000,
    };

    let codec = SpeedDaemonCodec::new();
    let mut output_buf: Vec<u8> = Vec::with_capacity(128);

    match codec.encode(data, &mut output_buf) {
        Ok(()) => {}
        _ => panic!("Non OK value returned from encode"),
    }

    assert_eq!(output_buf, b"\x21\x07\x52\x45\x30\x35\x42\x4b\x47\x01\x70\x04\xd2\x00\x0f\x42\x40\x04\xd3\x00\x0f\x42\x7c\x17\x70");
}

#[test]
fn test_msg_wantheartbeat() {
    let data = b"\x40\x00\x00\x04\xdb";

    let codec = SpeedDaemonCodec::new();
    let output = codec.decode(data);
    let output = match output {
        Err(e) => panic!("Decoding message failed: {:?}", e),
        Ok(None) => panic!("Decoding message failed: not enough data?"),
        Ok(Some(output)) => output,
    };

    assert_eq!(output, (SDMessage::WantHeartbeat { interval: 1243 }, 5));
}

#[test]
fn test_msg_heartbeat() {
    let data = SDMessage::Heartbeat;

    let codec = SpeedDaemonCodec::new();
    let mut output_buf: Vec<u8> = Vec::with_capacity(128);

    match codec.encode(data, &mut output_buf) {
        Ok(()) => {}
        _ => panic!("Non OK value returned from encode"),
    }

    assert_eq!(output_buf, b"\x41");
}

#[test]
fn test_msg_iamcamera() {
    let data = b"\x80\x01\x70\x04\xd2\x00\x28";

    let codec = SpeedDaemonCodec::new();
    let output = codec.decode(data);
    let output = match output {
        Err(e) => panic!("Decoding message failed: {:?}", e),
        Ok(None) => panic!("Decoding message failed: not enough data?"),
        Ok(Some(output)) => output,
    };

    assert_eq!(
        output,
        (
            SDMessage::IAmCamera {
                road: 368,
                mile: 1234,
                limit: 40,
            },
            7
        )
    );
}

#[test]
fn test_msg_iamdispatcher() {
    let data = b"\x81\x03\x00\x42\x01\x70\x13\x88";

    let codec = SpeedDaemonCodec::new();
    let output = codec.decode(data);
    let output = match output {
        Err(e) => panic!("Decoding message failed: {:?}", e),
        Ok(None) => panic!("Decoding message failed: not enough data?"),
        Ok(Some(output)) => output,
    };

    assert_eq!(
        output,
        (
            SDMessage::IAmDispatcher {
                roads: vec![66, 368, 5000],
            },
            8
        )
    );
}

#[test]
fn test_codec_round_trip_all_shared() {
    let codec = SpeedDaemonCodec::new();
    let msgs = vec![
        SDMessage::Plate {
            plate: b"UN1X".to_vec(),
            timestamp: 123456,
        },
        SDMessage::IAmCamera {
            road: 66,
            mile: 100,
            limit: 60,
        },
        SDMessage::IAmDispatcher {
            roads: vec![66, 368, 5000],
        },
        SDMessage::Ticket {
            plate: b"RE05BKG".to_vec(),
            road: 368,
            mile1: 1234,
            timestamp1: 1000000,
            mile2: 1235,
            timestamp2: 1000060,
            speed: 6000,
        },
    ];
    for msg in msgs {
        let mut buf: Vec<u8> = Vec::new();
        codec.encode(msg.clone(), &mut buf).expect("encode");
        let (decoded, used) = codec.decode(&buf).expect("decode").expect("complete frame");
        assert_eq!(decoded, msg);
        assert_eq!(used, buf.len());
    }
}

#[test]
fn test_decode_needs_more_bytes() {
    let codec = SpeedDaemonCodec::new();
    assert_eq!(codec.decode(b"").unwrap(), None);
    assert_eq!(codec.decode(b"\x20").unwrap(), None);
    assert_eq!(codec.decode(b"\x20\x04\x55\x4e").unwrap(), None);
    assert_eq!(codec.decode(b"\x40\x00\x00").unwrap(), None);
    assert_eq!(codec.decode(b"\x81\x03\x00\x42").unwrap(), None);
    // one byte short of a full plate frame
    assert_eq!(codec.decode(b"\x20\x04\x55\x4e\x31\x58\x00\x00\x03").unwrap(), None);
}

#[test]
fn test_decode_reserved_and_unknown_tags() {
    let codec = SpeedDaemonCodec::new();
    assert_eq!(
        codec.decode(b"\x10\x03abc"),
        Err(SpeedDaemonCodecError::UnexpectedTag { tag: 0x10 })
    );
    assert_eq!(
        codec.decode(b"\x41"),
        Err(SpeedDaemonCodecError::UnexpectedTag { tag: 0x41 })
    );
    assert_eq!(
        codec.decode(b"\x99\x01\x02"),
        Err(SpeedDaemonCodecError::UnexpectedTag { tag: 0x99 })
    );
}

#[test]
fn test_plate_length_bounds() {
    let codec = SpeedDaemonCodec::new();

    // empty plate: accepted
    let mut buf: Vec<u8> = Vec::new();
    codec
        .encode(
            SDMessage::Plate {
                plate: Vec::new(),
                timestamp: 7,
            },
            &mut buf,
        )
        .expect("empty plate must encode");
    assert_eq!(buf, b"\x20\x00\x00\x00\x00\x07");
    let (decoded, used) = codec.decode(&buf).unwrap().unwrap();
    assert_eq!(
        decoded,
        SDMessage::Plate {
            plate: Vec::new(),
            timestamp: 7
        }
    );
    assert_eq!(used, 6);

    // 255-byte plate: accepted and round-trips
    let long = vec![b'A'; 255];
    let mut buf: Vec<u8> = Vec::new();
    codec
        .encode(
            SDMessage::Plate {
                plate: long.clone(),
                timestamp: 1,
            },
            &mut buf,
        )
        .expect("255-byte plate must encode");
    assert_eq!(buf.len(), 2 + 255 + 4);
    let (decoded, _) = codec.decode(&buf).unwrap().unwrap();
    assert_eq!(
        decoded,
        SDMessage::Plate {
            plate: long,
            timestamp: 1
        }
    );

    // 256-byte plate: cannot be encoded
    let too_long = vec![b'A'; 256];
    let mut buf: Vec<u8> = Vec::new();
    assert_eq!(
        codec.encode(
            SDMessage::Plate {
                plate: too_long,
                timestamp: 1,
            },
            &mut buf,
        ),
        Err(SpeedDaemonCodecError::FrameTooLarge { len: 256 })
    );
    assert!(buf.is_empty());
}

#[test]
fn test_encode_refuses_wantheartbeat() {
    let codec = SpeedDaemonCodec::new();
    let mut buf: Vec<u8> = Vec::new();
    assert_eq!(
        codec.encode(SDMessage::WantHeartbeat { interval: 5 }, &mut buf),
        Err(SpeedDaemonCodecError::UnsupportedMessage)
    );
}

#[test]
fn test_error_msg_too_long() {
    let codec = SpeedDaemonCodec::new();
    let mut buf: Vec<u8> = Vec::new();
    assert_eq!(
        codec.encode(
            SDMessage::Error {
                msg: vec![b'x'; 300],
            },
            &mut buf,
        ),
        Err(SpeedDaemonCodecError::FrameTooLarge { len: 300 })
    );
}

#[test]
fn test_codec_default() {
    let codec = SpeedDaemonCodec::default();
    let mut buf: Vec<u8> = Vec::new();
    codec.encode(SDMessage::Heartbeat, &mut buf).unwrap();
    assert_eq!(buf, b"\x41");
}
