use speed_daemon::codec::SDMessage;
use speed_daemon::server::SpeedDaemonServer;
use speed_daemon::session::Client;

fn identify_camera(server: &mut SpeedDaemonServer, id: u64, road: u16, mile: u16, limit: u16) -> Client {
    let mut client = Client::new();
    let out = server.handle_message(&mut client, id, SDMessage::IAmCamera { road, mile, limit });
    assert!(!out.close);
    assert!(out.to_client.is_empty());
    assert!(out.routed.is_empty());
    client
}

fn identify_dispatcher(
    server: &mut SpeedDaemonServer,
    id: u64,
    roads: Vec<u16>,
) -> (Client, Vec<SDMessage>) {
    let mut client = Client::new();
    let out = server.handle_message(&mut client, id, SDMessage::IAmDispatcher { roads });
    assert!(!out.close);
    assert!(out.routed.is_empty());
    (client, out.to_client)
}

#[test]
fn test_example_session() {
    let mut server = SpeedDaemonServer::new();

    let (_disp, backlog) = identify_dispatcher(&mut server, 100, vec![123]);
    assert!(backlog.is_empty());

    let mut cam1 = identify_camera(&mut server, 1, 123, 8, 60);
    let out = server.handle_message(
        &mut cam1,
        1,
        SDMessage::Plate {
            plate: b"UN1X".to_vec(),
            timestamp: 0,
        },
    );
    assert!(out.routed.is_empty());

    let mut cam2 = identify_camera(&mut server, 2, 123, 9, 60);
    let out = server.handle_message(
        &mut cam2,
        2,
        SDMessage::Plate {
            plate: b"UN1X".to_vec(),
            timestamp: 45,
        },
    );
    assert_eq!(out.routed.len(), 1);
    let routed = &out.routed[0];
    assert_eq!(routed.dispatcher, Some(100));
    assert_eq!(routed.ticket.plate, b"UN1X".to_vec());
    assert_eq!(routed.ticket.road, 123);
    assert_eq!(routed.ticket.mile1, 8);
    assert_eq!(routed.ticket.timestamp1, 0);
    assert_eq!(routed.ticket.mile2, 9);
    assert_eq!(routed.ticket.timestamp2, 45);
    assert_eq!(routed.ticket.speed, 8000);
}

#[test]
fn test_same_day_ticket() {
    let mut server = SpeedDaemonServer::new();

    let (_disp, backlog) = identify_dispatcher(&mut server, 100, vec![4654]);
    assert!(backlog.is_empty());

    let mut cam1 = identify_camera(&mut server, 1, 4654, 1147, 80);
    let mut cam2 = identify_camera(&mut server, 2, 4654, 1163, 80);
    let mut cam3 = identify_camera(&mut server, 3, 4654, 1155, 80);

    let out1 = server.handle_message(
        &mut cam1,
        1,
        SDMessage::Plate {
            plate: b"ET78NYD".to_vec(),
            timestamp: 57338624,
        },
    );
    assert!(out1.routed.is_empty());

    let out2 = server.handle_message(
        &mut cam2,
        2,
        SDMessage::Plate {
            plate: b"ET78NYD".to_vec(),
            timestamp: 57338325,
        },
    );
    assert_eq!(out2.routed.len(), 1, "Should receive exactly 1 ticket");
    let t = &out2.routed[0].ticket;
    assert_eq!(t.plate, b"ET78NYD".to_vec());
    assert_eq!(t.road, 4654);
    assert_eq!(t.mile1, 1163);
    assert_eq!(t.timestamp1, 57338325);
    assert_eq!(t.mile2, 1147);
    assert_eq!(t.timestamp2, 57338624);
    assert_eq!(t.speed, 19264);

    let out3 = server.handle_message(
        &mut cam3,
        3,
        SDMessage::Plate {
            plate: b"ET78NYD".to_vec(),
            timestamp: 57338929,
        },
    );
    assert!(out3.routed.is_empty(), "Should not receive 2 tickets");
}

#[test]
fn test_pending_ticket_delivered_on_register() {
    let mut server = SpeedDaemonServer::new();

    // over-limit pair on road 7 with no dispatcher connected
    let mut cam1 = identify_camera(&mut server, 1, 7, 10, 50);
    let mut cam2 = identify_camera(&mut server, 2, 7, 11, 50);
    server.handle_message(
        &mut cam1,
        1,
        SDMessage::Plate {
            plate: b"AB12CDE".to_vec(),
            timestamp: 100,
        },
    );
    let out = server.handle_message(
        &mut cam2,
        2,
        SDMessage::Plate {
            plate: b"AB12CDE".to_vec(),
            timestamp: 130,
        },
    );
    assert_eq!(out.routed.len(), 1);
    assert_eq!(out.routed[0].dispatcher, None, "ticket must be queued");

    // the first dispatcher to register road 7 receives it
    let (_disp, backlog) = identify_dispatcher(&mut server, 100, vec![5, 7]);
    assert_eq!(backlog.len(), 1);
    match &backlog[0] {
        SDMessage::Ticket {
            plate,
            road,
            mile1,
            timestamp1,
            mile2,
            timestamp2,
            speed,
        } => {
            assert_eq!(plate, &b"AB12CDE".to_vec());
            assert_eq!(*road, 7);
            assert_eq!(*mile1, 10);
            assert_eq!(*timestamp1, 100);
            assert_eq!(*mile2, 11);
            assert_eq!(*timestamp2, 130);
            // 1 mile in 30 s = 120 mph
            assert_eq!(*speed, 12000);
        }
        other => panic!("expected a Ticket, got {:?}", other),
    }

    // a later dispatcher for the same road gets nothing
    let (_disp2, backlog2) = identify_dispatcher(&mut server, 101, vec![7]);
    assert!(backlog2.is_empty());
}

#[test]
fn test_ticket_goes_to_first_dispatcher() {
    let mut server = SpeedDaemonServer::new();
    let (_d1, _) = identify_dispatcher(&mut server, 100, vec![9]);
    let (_d2, _) = identify_dispatcher(&mut server, 200, vec![9]);

    let mut cam1 = identify_camera(&mut server, 1, 9, 0, 10);
    let mut cam2 = identify_camera(&mut server, 2, 9, 5, 10);
    server.handle_message(
        &mut cam1,
        1,
        SDMessage::Plate {
            plate: b"X".to_vec(),
            timestamp: 0,
        },
    );
    let out = server.handle_message(
        &mut cam2,
        2,
        SDMessage::Plate {
            plate: b"X".to_vec(),
            timestamp: 60,
        },
    );
    assert_eq!(out.routed.len(), 1);
    assert_eq!(out.routed[0].dispatcher, Some(100));
}

#[test]
fn test_unregistered_dispatcher_tickets_queue_again() {
    let mut server = SpeedDaemonServer::new();
    let (disp, _) = identify_dispatcher(&mut server, 100, vec![9]);
    server.handle_disconnect(&disp, 100);

    let mut cam1 = identify_camera(&mut server, 1, 9, 0, 10);
    let mut cam2 = identify_camera(&mut server, 2, 9, 5, 10);
    server.handle_message(
        &mut cam1,
        1,
        SDMessage::Plate {
            plate: b"X".to_vec(),
            timestamp: 0,
        },
    );
    let out = server.handle_message(
        &mut cam2,
        2,
        SDMessage::Plate {
            plate: b"X".to_vec(),
            timestamp: 60,
        },
    );
    assert_eq!(out.routed.len(), 1);
    assert_eq!(out.routed[0].dispatcher, None);

    let (_disp2, backlog) = identify_dispatcher(&mut server, 101, vec![9]);
    assert_eq!(backlog.len(), 1);
}

#[test]
fn test_equal_timestamps_no_ticket() {
    let mut server = SpeedDaemonServer::new();
    let (_disp, _) = identify_dispatcher(&mut server, 100, vec![3]);
    let mut cam1 = identify_camera(&mut server, 1, 3, 0, 10);
    let mut cam2 = identify_camera(&mut server, 2, 3, 500, 10);
    server.handle_message(
        &mut cam1,
        1,
        SDMessage::Plate {
            plate: b"EQ1".to_vec(),
            timestamp: 1000,
        },
    );
    let out = server.handle_message(
        &mut cam2,
        2,
        SDMessage::Plate {
            plate: b"EQ1".to_vec(),
            timestamp: 1000,
        },
    );
    assert!(out.routed.is_empty());
}

#[test]
fn test_speed_clamped_to_16_bits() {
    let mut server = SpeedDaemonServer::new();
    let (_disp, _) = identify_dispatcher(&mut server, 100, vec![1]);
    let mut cam1 = identify_camera(&mut server, 1, 1, 0, 10);
    let mut cam2 = identify_camera(&mut server, 2, 1, 1000, 10);
    server.handle_message(
        &mut cam1,
        1,
        SDMessage::Plate {
            plate: b"FAST".to_vec(),
            timestamp: 0,
        },
    );
    // 1000 miles in 1 second: speed x 100 overflows 16 bits
    let out = server.handle_message(
        &mut cam2,
        2,
        SDMessage::Plate {
            plate: b"FAST".to_vec(),
            timestamp: 1,
        },
    );
    assert_eq!(out.routed.len(), 1);
    assert_eq!(out.routed[0].ticket.speed, 0xFFFF);
}

#[test]
fn test_under_limit_no_ticket() {
    let mut server = SpeedDaemonServer::new();
    let (_disp, _) = identify_dispatcher(&mut server, 100, vec![3]);
    let mut cam1 = identify_camera(&mut server, 1, 3, 0, 60);
    let mut cam2 = identify_camera(&mut server, 2, 3, 1, 60);
    server.handle_message(
        &mut cam1,
        1,
        SDMessage::Plate {
            plate: b"SLOW".to_vec(),
            timestamp: 0,
        },
    );
    // 1 mile in 60 s = 60 mph: exactly at the limit, not over it
    let out = server.handle_message(
        &mut cam2,
        2,
        SDMessage::Plate {
            plate: b"SLOW".to_vec(),
            timestamp: 60,
        },
    );
    assert!(out.routed.is_empty());
}

#[test]
fn test_add_pending_after_failed_delivery() {
    let mut server = SpeedDaemonServer::new();
    let (_disp, _) = identify_dispatcher(&mut server, 100, vec![9]);
    let mut cam1 = identify_camera(&mut server, 1, 9, 0, 10);
    let mut cam2 = identify_camera(&mut server, 2, 9, 5, 10);
    server.handle_message(
        &mut cam1,
        1,
        SDMessage::Plate {
            plate: b"X".to_vec(),
            timestamp: 0,
        },
    );
    let mut out = server.handle_message(
        &mut cam2,
        2,
        SDMessage::Plate {
            plate: b"X".to_vec(),
            timestamp: 60,
        },
    );
    assert_eq!(out.routed.len(), 1);
    // pretend the dispatcher's channel was gone: queue the ticket instead
    let routed = out.routed.remove(0);
    let road = routed.ticket.road;
    server.add_pending_ticket(road, routed.ticket);

    let (_disp2, backlog) = identify_dispatcher(&mut server, 101, vec![9]);
    assert_eq!(backlog.len(), 1);
}
