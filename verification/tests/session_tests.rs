use speed_daemon::codec::SDMessage;
use speed_daemon::server::SpeedDaemonServer;
use speed_daemon::session::Client;
use speed_daemon::session::SessionAction;

#[test]
fn test_double_identify_errors_and_closes() {
    let mut server = SpeedDaemonServer::new();
    let mut client = Client::new();
    let out = server.handle_message(
        &mut client,
        1,
        SDMessage::IAmCamera {
            road: 123,
            mile: 8,
            limit: 60,
        },
    );
    assert!(!out.close);

    let out = server.handle_message(&mut client, 1, SDMessage::IAmDispatcher { roads: vec![123] });
    assert!(out.close);
    assert_eq!(out.to_client.len(), 1);
    match &out.to_client[0] {
        SDMessage::Error { msg } => {
            assert_eq!(msg, &b"Client already identified".to_vec());
        }
        other => panic!("expected an Error frame, got {:?}", other),
    }
    assert!(out.routed.is_empty());
    assert_eq!(out.heartbeat, None);
}

#[test]
fn test_inbound_ticket_rejected() {
    let mut server = SpeedDaemonServer::new();
    let mut client = Client::new();
    let out = server.handle_message(
        &mut client,
        1,
        SDMessage::Ticket {
            plate: b"UN1X".to_vec(),
            road: 1,
            mile1: 0,
            timestamp1: 0,
            mile2: 1,
            timestamp2: 1,
            speed: 100,
        },
    );
    assert!(out.close);
    assert_eq!(out.to_client.len(), 1);
    match &out.to_client[0] {
        SDMessage::Error { msg } => {
            assert_eq!(msg, &b"Error processing message".to_vec());
        }
        other => panic!("expected an Error frame, got {:?}", other),
    }
}

#[test]
fn test_plate_from_non_camera_rejected() {
    let mut server = SpeedDaemonServer::new();
    let mut client = Client::new();
    let out = server.handle_message(
        &mut client,
        1,
        SDMessage::Plate {
            plate: b"UN1X".to_vec(),
            timestamp: 0,
        },
    );
    assert!(out.close);
    assert_eq!(out.to_client.len(), 1);
    match &out.to_client[0] {
        SDMessage::Error { msg } => {
            assert_eq!(msg, &b"Client is not a camera".to_vec());
        }
        other => panic!("expected an Error frame, got {:?}", other),
    }
}

#[test]
fn test_want_heartbeat_zero_accepted_without_task() {
    let mut server = SpeedDaemonServer::new();
    let mut client = Client::new();
    let out = server.handle_message(&mut client, 1, SDMessage::WantHeartbeat { interval: 0 });
    assert!(!out.close);
    assert!(out.to_client.is_empty());
    assert_eq!(out.heartbeat, None, "interval 0 must spawn no heartbeat task");
}

#[test]
fn test_want_heartbeat_starts_task_once() {
    let mut server = SpeedDaemonServer::new();
    let mut client = Client::new();
    let out = server.handle_message(&mut client, 1, SDMessage::WantHeartbeat { interval: 10 });
    assert!(!out.close);
    assert_eq!(out.heartbeat, Some(10));

    let out = server.handle_message(&mut client, 1, SDMessage::WantHeartbeat { interval: 10 });
    assert!(out.close);
    assert_eq!(out.heartbeat, None);
    assert_eq!(out.to_client.len(), 1);
    match &out.to_client[0] {
        SDMessage::Error { msg } => {
            assert_eq!(msg, &b"Client already requested heartbeats".to_vec());
        }
        other => panic!("expected an Error frame, got {:?}", other),
    }
}

#[test]
fn test_codec_error_action() {
    let mut client = Client::new();
    let act = client.process_codec_error();
    match act {
        SessionAction::Reject { msg } => {
            assert_eq!(msg, b"Unknown message type".to_vec());
        }
        other => panic!("expected Reject, got {:?}", other),
    }
}

#[test]
fn test_heartbeat_period() {
    assert_eq!(speed_daemon::heartbeat::period_millis(0), 0);
    assert_eq!(speed_daemon::heartbeat::period_millis(10), 1000);
    assert_eq!(
        speed_daemon::heartbeat::period_millis(u32::MAX),
        429_496_729_500
    );
}

#[test]
fn test_camera_identify_then_report_action() {
    let mut client = Client::new();
    let act = client.process_msg(SDMessage::IAmCamera {
        road: 5,
        mile: 12,
        limit: 70,
    });
    assert_eq!(act, SessionAction::Proceed);
    let act = client.process_msg(SDMessage::Plate {
        plate: b"AA11BBB".to_vec(),
        timestamp: 99,
    });
    assert_eq!(
        act,
        SessionAction::Report {
            road: 5,
            mile: 12,
            limit: 70,
            plate: b"AA11BBB".to_vec(),
            timestamp: 99,
        }
    );
}
