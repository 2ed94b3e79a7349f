use sensor_relay::codec::SensorMsg;
use sensor_relay::session::{
    aggregator_poll, deliver_pending, handshake, publish_average, reader_step, writer_poll,
    AggregatorTick, ReaderFlow, SessionState, WriterTick,
};
use sensor_relay::store::Store;

fn uid_a() -> String {
    "aaaaaaaaaaaaaaaaaaaaaaaaaaaaaaaaaaaa".to_string()
}

fn uid_b() -> String {
    "bbbbbbbbbbbbbbbbbbbbbbbbbbbbbbbbbbbb".to_string()
}

#[test]
fn handshake_registers_new_client() {
    let mut store = Store::new();
    let s = handshake(&mut store, &format!("CONN#{}", uid_a()), 100).unwrap();
    assert_eq!(s.uid, uid_a());
    assert!(matches!(s.state, SessionState::Active));
    assert!(s.active);
    assert_eq!(store.get_connection(&uid_a()).unwrap().last_seen, 100);
}

#[test]
fn handshake_reuses_existing_registration() {
    let mut store = Store::new();
    handshake(&mut store, &format!("CONN#{}", uid_a()), 100).unwrap();
    let s = handshake(&mut store, &format!("CONN#{}", uid_a()), 200).unwrap();
    assert_eq!(s.uid, uid_a());
    assert_eq!(store.get_metrics().connections, 1);
    assert_eq!(store.get_connection(&uid_a()).unwrap().last_seen, 100);
}

#[test]
fn handshake_refuses_other_frames() {
    let mut store = Store::new();
    assert!(handshake(&mut store, &"HELLO".to_string(), 1).is_none());
    assert!(handshake(&mut store, &format!("SENSOR#{}#1#1.0", uid_a()), 1).is_none());
    assert!(handshake(&mut store, &"CONN#short".to_string(), 1).is_none());
    assert_eq!(store.get_metrics().connections, 0);
}

#[test]
fn reader_accepts_own_sensor_frame() {
    let mut store = Store::new();
    let mut s = handshake(&mut store, &format!("CONN#{}", uid_a()), 100).unwrap();
    let frame = format!("SENSOR#{}#1700000000#23.5", uid_a());
    let flow = reader_step(&mut store, &mut s, &frame, 150);
    assert!(matches!(flow, ReaderFlow::Continue));
    assert!(s.active);
    assert_eq!(store.get_metrics().received_messages, 1);
    assert_eq!(store.get_connection(&uid_a()).unwrap().last_seen, 150);
    let top = store.get_last_received_messages(1);
    assert_eq!(top[0].uid, uid_a());
    assert_eq!(top[0].data, "23.5");
    assert_eq!(top[0].created_at, 1700000000);
}

#[test]
fn reader_rejects_foreign_uid() {
    let mut store = Store::new();
    let mut s = handshake(&mut store, &format!("CONN#{}", uid_a()), 100).unwrap();
    let frame = format!("SENSOR#{}#1700000000#23.5", uid_b());
    let flow = reader_step(&mut store, &mut s, &frame, 150);
    assert!(matches!(flow, ReaderFlow::Stop));
    assert_eq!(store.get_metrics().received_messages, 0);
    assert_eq!(store.get_connection(&uid_a()).unwrap().last_seen, 100);
}

#[test]
fn reader_fails_closed_on_unknown_tag() {
    let mut store = Store::new();
    let mut s = handshake(&mut store, &format!("CONN#{}", uid_a()), 100).unwrap();
    let flow = reader_step(&mut store, &mut s, &format!("PING#{}", uid_a()), 150);
    assert!(matches!(flow, ReaderFlow::Stop));
    assert!(s.active);
    assert_eq!(store.get_metrics().received_messages, 0);
    assert_eq!(store.get_metrics().connections, 1);
    assert_eq!(store.get_connection(&uid_a()).unwrap().last_seen, 100);
}

#[test]
fn reader_fails_closed_on_malformed_sensor() {
    let mut store = Store::new();
    let mut s = handshake(&mut store, &format!("CONN#{}", uid_a()), 100).unwrap();
    let flow = reader_step(&mut store, &mut s, &format!("SENSOR#{}#nan", uid_a()), 150);
    assert!(matches!(flow, ReaderFlow::Stop));
    assert_eq!(store.get_metrics().received_messages, 0);
}

#[test]
fn reader_handles_graceful_disconnect() {
    let mut store = Store::new();
    let mut s = handshake(&mut store, &format!("CONN#{}", uid_a()), 100).unwrap();
    let flow = reader_step(&mut store, &mut s, &format!("DISCONN#{}", uid_a()), 150);
    assert!(matches!(flow, ReaderFlow::Stop));
    assert!(!s.active);
    assert!(store.get_connection(&uid_a()).is_none());
    assert!(matches!(writer_poll(&store, &s), WriterTick::Close));
}

#[test]
fn disconnect_for_other_uid_is_refused() {
    let mut store = Store::new();
    let mut s = handshake(&mut store, &format!("CONN#{}", uid_a()), 100).unwrap();
    let flow = reader_step(&mut store, &mut s, &format!("DISCONN#{}", uid_b()), 150);
    assert!(matches!(flow, ReaderFlow::Stop));
    assert!(s.active);
    assert!(store.get_connection(&uid_a()).is_some());
}

#[test]
fn writer_delivers_each_broadcast_once_per_client() {
    let mut store = Store::new();
    let a = handshake(&mut store, &format!("CONN#{}", uid_a()), 1).unwrap();
    publish_average(&mut store, &"1.5".to_string(), 10);
    publish_average(&mut store, &"2.5".to_string(), 20);
    let b = handshake(&mut store, &format!("CONN#{}", uid_b()), 15).unwrap();

    let sent_a = deliver_pending(&mut store, &a.uid);
    assert_eq!(sent_a.len(), 2);
    assert_eq!(sent_a[0].message, "AVG#10#1.5");
    assert_eq!(sent_a[1].message, "AVG#20#2.5");
    // the next tick has nothing left for this client
    assert!(deliver_pending(&mut store, &a.uid).is_empty());

    // fan-out independence: the other client still gets both, in order
    match writer_poll(&store, &b) {
        WriterTick::Deliver(msgs) => {
            assert_eq!(msgs.len(), 2);
            assert_eq!(msgs[0].message, "AVG#10#1.5");
            assert_eq!(msgs[1].message, "AVG#20#2.5");
        }
        WriterTick::Close => panic!("writer closed while active"),
    }
    let sent_b = deliver_pending(&mut store, &b.uid);
    assert_eq!(sent_b.len(), 2);
    assert!(deliver_pending(&mut store, &b.uid).is_empty());
}

#[test]
fn marking_one_client_leaves_the_other_pending() {
    let mut store = Store::new();
    publish_average(&mut store, &"3".to_string(), 5);
    let id = store.get_new_queued_messages(&uid_a())[0].id;
    store.add_delivered_message(&uid_a(), id);
    assert!(store.get_new_queued_messages(&uid_a()).is_empty());
    let still = store.get_new_queued_messages(&uid_b());
    assert_eq!(still.len(), 1);
    assert_eq!(still[0].message, "AVG#5#3");
}

#[test]
fn aggregator_skips_when_no_readings_exist() {
    let store = Store::new();
    assert!(matches!(aggregator_poll(&store, 5), AggregatorTick::Skip));
}

#[test]
fn aggregator_averages_recent_readings() {
    let mut store = Store::new();
    for (v, ts) in [("1.0", 10), ("2.0", 20), ("3.0", 30)] {
        store.add_received_message(&SensorMsg {
            uid: uid_a(),
            data: v.to_string(),
            timestamp: ts,
        });
    }
    let sample = match aggregator_poll(&store, 5) {
        AggregatorTick::Publish(msgs) => msgs,
        AggregatorTick::Skip => panic!("tick skipped with readings present"),
    };
    assert_eq!(sample.len(), 3);
    // the floating-point mean itself is the caller's arithmetic
    let mut avg: f64 = 0.0;
    for m in &sample {
        avg += m.data.parse::<f64>().unwrap();
    }
    avg /= sample.len() as f64;
    assert_eq!(avg, 2.0);
    let now: i64 = 40;
    publish_average(&mut store, &format!("{}", avg), now);
    let queued = store.get_new_queued_messages(&uid_a());
    assert_eq!(queued.len(), 1);
    assert_eq!(queued[0].message, "AVG#40#2");
}

#[test]
fn aggregator_samples_only_the_newest() {
    let mut store = Store::new();
    for (v, ts) in [("10", 1), ("20", 2), ("30", 3), ("40", 4), ("50", 5), ("60", 6)] {
        store.add_received_message(&SensorMsg {
            uid: uid_a(),
            data: v.to_string(),
            timestamp: ts,
        });
    }
    let sample = match aggregator_poll(&store, 5) {
        AggregatorTick::Publish(msgs) => msgs,
        AggregatorTick::Skip => panic!("tick skipped with readings present"),
    };
    assert_eq!(sample.len(), 5);
    assert_eq!(sample[0].data, "60");
    assert_eq!(sample[4].data, "20");
}
