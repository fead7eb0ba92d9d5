use protohackers::conn::{ConnState, StepAction};
use protohackers::db::Database;
use protohackers::wire::{
    parse_incoming, parse_ticket, ErrorMsg, Heartbeat, IncomingPacket, Parsed, Ticket,
};

fn assert_consumed(r: Parsed, want: usize) -> IncomingPacket {
    match r {
        Parsed::Packet(p, n) => {
            assert_eq!(n, want);
            p
        }
        Parsed::Incomplete => panic!("unexpected incomplete"),
        Parsed::Malformed => panic!("unexpected malformed"),
    }
}

#[test]
fn parse_plate_report() {
    let buf = vec![0x20u8, 4, b'U', b'N', b'1', b'X', 0, 0, 0, 45];
    let p = assert_consumed(parse_incoming(&buf), 10);
    match p {
        IncomingPacket::PlateReport { plate, timestamp } => {
            assert_eq!(plate, b"UN1X".to_vec());
            assert_eq!(timestamp, 45);
        }
        other => panic!("wrong packet: {:?}", discriminant_name(&other)),
    }
}

#[test]
fn parse_want_heartbeat() {
    let buf = vec![0x40u8, 0, 0, 0x04, 0xdb];
    let p = assert_consumed(parse_incoming(&buf), 5);
    match p {
        IncomingPacket::WantHeartbeat { interval } => assert_eq!(interval, 1243),
        other => panic!("wrong packet: {:?}", discriminant_name(&other)),
    }
}

#[test]
fn parse_i_am_camera() {
    let buf = vec![0x80u8, 0x00, 0x7b, 0x00, 0x08, 0x00, 0x3c];
    let p = assert_consumed(parse_incoming(&buf), 7);
    match p {
        IncomingPacket::IAmCamera { road, mile, limit } => {
            assert_eq!(road, 123);
            assert_eq!(mile, 8);
            assert_eq!(limit, 60);
        }
        other => panic!("wrong packet: {:?}", discriminant_name(&other)),
    }
}

#[test]
fn parse_i_am_dispatcher() {
    let buf = vec![0x81u8, 3, 0x00, 0x42, 0x01, 0x70, 0x13, 0x88];
    let p = assert_consumed(parse_incoming(&buf), 8);
    match p {
        IncomingPacket::IAmDispatcher { roads } => {
            assert_eq!(roads, vec![66, 368, 5000]);
        }
        other => panic!("wrong packet: {:?}", discriminant_name(&other)),
    }
}

fn discriminant_name(p: &IncomingPacket) -> &'static str {
    match p {
        IncomingPacket::PlateReport { .. } => "PlateReport",
        IncomingPacket::WantHeartbeat { .. } => "WantHeartbeat",
        IncomingPacket::IAmCamera { .. } => "IAmCamera",
        IncomingPacket::IAmDispatcher { .. } => "IAmDispatcher",
    }
}

#[test]
fn parse_needs_more_bytes() {
    assert!(matches!(parse_incoming(&[]), Parsed::Incomplete));
    assert!(matches!(parse_incoming(&[0x20]), Parsed::Incomplete));
    assert!(matches!(parse_incoming(&[0x20, 5, b'a']), Parsed::Incomplete));
    assert!(matches!(parse_incoming(&[0x40, 0, 0]), Parsed::Incomplete));
    assert!(matches!(parse_incoming(&[0x81, 2, 0, 1]), Parsed::Incomplete));
}

#[test]
fn parse_stray_byte_is_malformed() {
    assert!(matches!(parse_incoming(&[0x99]), Parsed::Malformed));
    assert!(matches!(parse_incoming(&[0x10, 0x20]), Parsed::Malformed));
}

#[test]
fn framing_survives_chunking() {
    // One camera declaration and one plate report, cut at every
    // possible position: the carried buffer yields the same packets as
    // the whole stream.
    let mut stream = vec![0x80u8, 0x00, 0x7b, 0x00, 0x08, 0x00, 0x3c];
    stream.extend_from_slice(&[0x20, 2, b'h', b'i', 0, 0, 0, 9]);
    let mut whole = stream.clone();
    let (whole_packets, whole_bad) = protohackers::wire::drain_packets(&mut whole);
    assert_eq!(whole_packets.len(), 2);
    assert!(!whole_bad);
    for cut in 0..stream.len() {
        let mut buf: Vec<u8> = stream[..cut].to_vec();
        let (mut got, bad1) = protohackers::wire::drain_packets(&mut buf);
        assert!(!bad1);
        buf.extend_from_slice(&stream[cut..]);
        let (rest, bad2) = protohackers::wire::drain_packets(&mut buf);
        assert!(!bad2);
        got.extend(rest);
        assert!(buf.is_empty());
        assert_eq!(got.len(), 2);
        match &got[1] {
            IncomingPacket::PlateReport { plate, timestamp } => {
                assert_eq!(plate, &b"hi".to_vec());
                assert_eq!(*timestamp, 9);
            }
            other => panic!("wrong packet: {:?}", discriminant_name(other)),
        }
    }
}

#[test]
fn ticket_encoding_round_trip() {
    let t = Ticket {
        plate: b"UN1X".to_vec(),
        road: 123,
        mile1: 8,
        timestamp1: 0,
        mile2: 9,
        timestamp2: 45,
        speed: 8000,
    };
    let bytes = t.to_msg();
    assert_eq!(bytes[0], 0x21);
    assert_eq!(bytes[1], 4);
    let (back, n) = parse_ticket(&bytes).expect("whole ticket must decode");
    assert_eq!(n, bytes.len());
    assert_eq!(back.plate, b"UN1X".to_vec());
    assert_eq!(back.road, 123);
    assert_eq!(back.mile1, 8);
    assert_eq!(back.timestamp1, 0);
    assert_eq!(back.mile2, 9);
    assert_eq!(back.timestamp2, 45);
    assert_eq!(back.speed, 8000);
}

#[test]
fn ticket_wire_bytes_exact() {
    let t = Ticket {
        plate: b"RE05BKG".to_vec(),
        road: 368,
        mile1: 1234,
        timestamp1: 1000000,
        mile2: 1235,
        timestamp2: 1000060,
        speed: 6000,
    };
    let bytes = t.to_msg();
    let want = vec![
        0x21u8, 0x07, b'R', b'E', b'0', b'5', b'B', b'K', b'G', 0x01, 0x70, 0x04, 0xd2, 0x00,
        0x0f, 0x42, 0x40, 0x04, 0xd3, 0x00, 0x0f, 0x42, 0x7c, 0x17, 0x70,
    ];
    assert_eq!(bytes, want);
}

#[test]
fn error_and_heartbeat_encoding() {
    let e = ErrorMsg::msg("bad");
    assert_eq!(e.to_msg(), vec![0x10u8, 3, b'b', b'a', b'd']);
    assert_eq!(Heartbeat {}.to_msg(), vec![0x41u8]);
}

#[test]
fn single_overspeed_same_day() {
    let mut db = Database::new();
    db.record_speed_limit(123, 60);
    db.record_observation(b"UN1X".to_vec(), 123, 8, 0);
    db.record_observation(b"UN1X".to_vec(), 123, 9, 45);
    let t = db.get_ticket_to_send(&[123]).expect("one ticket owed");
    assert_eq!(t.plate, b"UN1X".to_vec());
    assert_eq!(t.road, 123);
    assert_eq!(t.mile1, 8);
    assert_eq!(t.timestamp1, 0);
    assert_eq!(t.mile2, 9);
    assert_eq!(t.timestamp2, 45);
    assert_eq!(t.speed, 8000);
    assert!(db.get_ticket_to_send(&[123]).is_none());
}

#[test]
fn two_violations_same_day_one_ticket() {
    let mut db = Database::new();
    db.record_speed_limit(123, 60);
    db.record_observation(b"UN1X".to_vec(), 123, 8, 0);
    db.record_observation(b"UN1X".to_vec(), 123, 9, 45);
    db.record_observation(b"UN1X".to_vec(), 123, 10, 90);
    assert!(db.get_ticket_to_send(&[123]).is_some());
    assert!(db.get_ticket_to_send(&[123]).is_none());
}

#[test]
fn cross_day_ticket_consumes_both_days() {
    let mut db = Database::new();
    db.record_speed_limit(123, 60);
    db.record_observation(b"UN1X".to_vec(), 123, 0, 86399);
    db.record_observation(b"UN1X".to_vec(), 123, 100, 86460);
    let t = db.get_ticket_to_send(&[123]).expect("cross-day ticket owed");
    assert_eq!(t.timestamp1, 86399);
    assert_eq!(t.timestamp2, 86460);
    // A later overspeed wholly on day 1 earns no second ticket.
    db.record_observation(b"UN1X".to_vec(), 123, 200, 86521);
    assert!(db.get_ticket_to_send(&[123]).is_none());
}

#[test]
fn dispatcher_arrives_late() {
    let mut db = Database::new();
    db.record_speed_limit(5, 10);
    db.record_observation(b"X".to_vec(), 5, 0, 0);
    db.record_observation(b"X".to_vec(), 5, 50, 60);
    // The ticket waits in the queue until a dispatcher for road 5 asks.
    assert!(db.get_ticket_to_send(&[1, 2, 3]).is_none());
    let t = db.get_ticket_to_send(&[4, 5]).expect("queued ticket owed");
    assert_eq!(t.road, 5);
}

#[test]
fn slow_plate_earns_no_ticket() {
    let mut db = Database::new();
    db.record_speed_limit(1, 60);
    // One mile in a minute: 60 mph, not above 60.1.
    db.record_observation(b"OK".to_vec(), 1, 0, 0);
    db.record_observation(b"OK".to_vec(), 1, 1, 60);
    assert!(db.get_ticket_to_send(&[1]).is_none());
}

#[test]
fn equal_timestamps_earn_no_ticket() {
    let mut db = Database::new();
    db.record_speed_limit(1, 60);
    db.record_observation(b"DUP".to_vec(), 1, 0, 100);
    db.record_observation(b"DUP".to_vec(), 1, 50, 100);
    assert!(db.get_ticket_to_send(&[1]).is_none());
}

#[test]
fn fifo_dispatch_order() {
    let mut db = Database::new();
    db.record_speed_limit(1, 10);
    db.record_speed_limit(2, 10);
    db.record_observation(b"A".to_vec(), 1, 0, 0);
    db.record_observation(b"A".to_vec(), 1, 50, 60);
    db.record_observation(b"B".to_vec(), 2, 0, 0);
    db.record_observation(b"B".to_vec(), 2, 50, 60);
    db.record_observation(b"C".to_vec(), 1, 0, 172800);
    db.record_observation(b"C".to_vec(), 1, 50, 172860);
    // A dispatcher for both roads drains in insertion order.
    let first = db.get_ticket_to_send(&[1, 2]).unwrap();
    let second = db.get_ticket_to_send(&[1, 2]).unwrap();
    let third = db.get_ticket_to_send(&[1, 2]).unwrap();
    assert_eq!(first.plate, b"A".to_vec());
    assert_eq!(second.plate, b"B".to_vec());
    assert_eq!(third.plate, b"C".to_vec());
    assert!(db.get_ticket_to_send(&[1, 2]).is_none());
}

#[test]
fn road_filter_skips_other_roads() {
    let mut db = Database::new();
    db.record_speed_limit(1, 10);
    db.record_speed_limit(2, 10);
    db.record_observation(b"A".to_vec(), 1, 0, 0);
    db.record_observation(b"A".to_vec(), 1, 50, 60);
    db.record_observation(b"B".to_vec(), 2, 0, 0);
    db.record_observation(b"B".to_vec(), 2, 50, 60);
    let t = db.get_ticket_to_send(&[2]).unwrap();
    assert_eq!(t.plate, b"B".to_vec());
    assert!(db.get_ticket_to_send(&[2]).is_none());
    assert_eq!(db.get_ticket_to_send(&[1]).unwrap().plate, b"A".to_vec());
}

#[test]
fn out_of_order_observation_still_tickets() {
    let mut db = Database::new();
    db.record_speed_limit(9, 30);
    db.record_observation(b"L8".to_vec(), 9, 100, 3600);
    db.record_observation(b"L8".to_vec(), 9, 0, 0);
    let t = db.get_ticket_to_send(&[9]).expect("late arrival still pairs");
    assert_eq!(t.mile1, 0);
    assert_eq!(t.mile2, 100);
    assert_eq!(t.speed, 10000);
}

#[test]
fn observations_stay_sorted() {
    let mut db = Database::new();
    db.record_speed_limit(3, 200);
    db.record_observation(b"S".to_vec(), 3, 5, 500);
    db.record_observation(b"S".to_vec(), 3, 1, 100);
    db.record_observation(b"S".to_vec(), 3, 9, 900);
    db.record_observation(b"S".to_vec(), 3, 3, 300);
    let obs = db.observations(b"S");
    let stamps: Vec<u32> = obs.iter().map(|o| o.timestamp).collect();
    assert_eq!(stamps, vec![100, 300, 500, 900]);
}

#[test]
fn issued_days_never_repeat() {
    let mut db = Database::new();
    db.record_speed_limit(123, 60);
    db.record_observation(b"UN1X".to_vec(), 123, 0, 86399);
    db.record_observation(b"UN1X".to_vec(), 123, 100, 86460);
    db.record_observation(b"UN1X".to_vec(), 123, 200, 86521);
    db.record_observation(b"UN1X".to_vec(), 123, 300, 86582);
    let days = db.issued_days(b"UN1X");
    assert_eq!(days, vec![0, 1]);
}

#[test]
fn double_role_is_an_error() {
    let mut c = ConnState::new();
    match c.apply_packet(IncomingPacket::IAmCamera { road: 1, mile: 2, limit: 3 }) {
        StepAction::RecordLimit { road, limit } => {
            assert_eq!(road, 1);
            assert_eq!(limit, 3);
        }
        _ => panic!("camera declaration must record the limit"),
    }
    match c.apply_packet(IncomingPacket::IAmDispatcher { roads: vec![1] }) {
        StepAction::Fail { error } => {
            assert_eq!(error.message, b"already sent client type".to_vec());
        }
        _ => panic!("second role must fail"),
    }
    // The role did not change: a plate report still lands as the camera's.
    match c.apply_packet(IncomingPacket::PlateReport { plate: b"P".to_vec(), timestamp: 7 }) {
        StepAction::RecordObservation { plate, road, mile, timestamp } => {
            assert_eq!(plate, b"P".to_vec());
            assert_eq!(road, 1);
            assert_eq!(mile, 2);
            assert_eq!(timestamp, 7);
        }
        _ => panic!("camera must accept plate reports"),
    }
}

#[test]
fn heartbeat_zero_arms_nothing() {
    let mut c = ConnState::new();
    match c.apply_packet(IncomingPacket::WantHeartbeat { interval: 0 }) {
        StepAction::Proceed => {}
        _ => panic!("interval 0 must arm no timer"),
    }
    match c.apply_packet(IncomingPacket::WantHeartbeat { interval: 10 }) {
        StepAction::Fail { error } => {
            assert_eq!(error.message, b"already requested heartbeat".to_vec());
        }
        _ => panic!("second heartbeat request must fail"),
    }
}

#[test]
fn heartbeat_positive_arms_timer() {
    let mut c = ConnState::new();
    match c.apply_packet(IncomingPacket::WantHeartbeat { interval: 25 }) {
        StepAction::ArmHeartbeat { interval } => assert_eq!(interval, 25),
        _ => panic!("positive interval must arm the timer"),
    }
}

#[test]
fn plate_from_wrong_role_is_an_error() {
    let mut c = ConnState::new();
    match c.apply_packet(IncomingPacket::PlateReport { plate: b"P".to_vec(), timestamp: 0 }) {
        StepAction::Fail { error } => {
            assert_eq!(error.message, b"wrong client type".to_vec());
        }
        _ => panic!("plate before a role must fail"),
    }
    let mut d = ConnState::new();
    match d.apply_packet(IncomingPacket::IAmDispatcher { roads: vec![8] }) {
        StepAction::StartDispatch => {}
        _ => panic!("dispatcher declaration must start dispatching"),
    }
    match d.apply_packet(IncomingPacket::PlateReport { plate: b"P".to_vec(), timestamp: 0 }) {
        StepAction::Fail { error } => {
            assert_eq!(error.message, b"wrong client type".to_vec());
        }
        _ => panic!("plate from a dispatcher must fail"),
    }
}
