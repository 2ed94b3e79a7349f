use sensor_relay::codec::SensorMsg;
use sensor_relay::store::Store;

fn uid_a() -> String {
    "aaaaaaaaaaaaaaaaaaaaaaaaaaaaaaaaaaaa".to_string()
}

fn uid_b() -> String {
    "bbbbbbbbbbbbbbbbbbbbbbbbbbbbbbbbbbbb".to_string()
}

fn reading(uid: &str, value: &str, ts: i64) -> SensorMsg {
    SensorMsg { uid: uid.to_string(), data: value.to_string(), timestamp: ts }
}

#[test]
fn connection_lifecycle() {
    let mut store = Store::new();
    assert!(store.get_connection(&uid_a()).is_none());
    let c = store.add_connection(&uid_a(), 100);
    assert_eq!(c.uid, uid_a());
    assert_eq!(c.last_seen, 100);
    let got = store.get_connection(&uid_a()).unwrap();
    assert_eq!(got.id, c.id);
    assert_eq!(got.last_seen, 100);
    store.update_connection(&uid_a(), 250);
    assert_eq!(store.get_connection(&uid_a()).unwrap().last_seen, 250);
    store.delete_connection(&uid_a());
    assert!(store.get_connection(&uid_a()).is_none());
}

#[test]
fn update_of_unknown_uid_changes_nothing() {
    let mut store = Store::new();
    store.add_connection(&uid_a(), 1);
    store.update_connection(&uid_b(), 99);
    assert_eq!(store.get_connection(&uid_a()).unwrap().last_seen, 1);
    assert!(store.get_connection(&uid_b()).is_none());
}

#[test]
fn metrics_count_all_four_tables() {
    let mut store = Store::new();
    store.add_connection(&uid_a(), 1);
    store.add_connection(&uid_b(), 2);
    store.add_received_message(&reading(&uid_a(), "1.5", 10));
    store.add_queued_message("AVG#10#1.5".to_string(), 10);
    let msgs = store.get_new_queued_messages(&uid_a());
    store.add_delivered_message(&uid_a(), msgs[0].id);
    let m = store.get_metrics();
    assert_eq!(m.connections, 2);
    assert_eq!(m.received_messages, 1);
    assert_eq!(m.queued_messages, 1);
    assert_eq!(m.delivered_messages, 1);
}

#[test]
fn recent_readings_come_newest_first() {
    let mut store = Store::new();
    store.add_received_message(&reading(&uid_a(), "1.0", 30));
    store.add_received_message(&reading(&uid_a(), "2.0", 10));
    store.add_received_message(&reading(&uid_a(), "3.0", 50));
    store.add_received_message(&reading(&uid_a(), "4.0", 20));
    let top = store.get_last_received_messages(3);
    assert_eq!(top.len(), 3);
    assert_eq!(top[0].data, "3.0");
    assert_eq!(top[1].data, "1.0");
    assert_eq!(top[2].data, "4.0");
}

#[test]
fn recent_readings_limit_beyond_log() {
    let mut store = Store::new();
    store.add_received_message(&reading(&uid_a(), "1.0", 1));
    let top = store.get_last_received_messages(5);
    assert_eq!(top.len(), 1);
    assert_eq!(top[0].data, "1.0");
    assert!(store.get_last_received_messages(0).is_empty());
}

#[test]
fn recent_readings_ties_keep_log_order() {
    let mut store = Store::new();
    store.add_received_message(&reading(&uid_a(), "1.0", 7));
    store.add_received_message(&reading(&uid_b(), "2.0", 7));
    store.add_received_message(&reading(&uid_a(), "3.0", 7));
    let top = store.get_last_received_messages(2);
    assert_eq!(top.len(), 2);
    assert_eq!(top[0].data, "1.0");
    assert_eq!(top[1].data, "2.0");
}

#[test]
fn pending_is_per_client_anti_join() {
    let mut store = Store::new();
    store.add_queued_message("AVG#1#1".to_string(), 1);
    store.add_queued_message("AVG#2#2".to_string(), 2);
    let for_a = store.get_new_queued_messages(&uid_a());
    assert_eq!(for_a.len(), 2);
    assert_eq!(for_a[0].message, "AVG#1#1");
    assert_eq!(for_a[1].message, "AVG#2#2");
    store.add_delivered_message(&uid_a(), for_a[0].id);
    store.add_delivered_message(&uid_a(), for_a[1].id);
    assert!(store.get_new_queued_messages(&uid_a()).is_empty());
    let for_b = store.get_new_queued_messages(&uid_b());
    assert_eq!(for_b.len(), 2);
    assert_eq!(for_b[0].message, "AVG#1#1");
}

#[test]
fn delivery_marks_are_recorded_once() {
    let mut store = Store::new();
    store.add_queued_message("AVG#1#1".to_string(), 1);
    let id = store.get_new_queued_messages(&uid_a())[0].id;
    store.add_delivered_message(&uid_a(), id);
    store.add_delivered_message(&uid_a(), id);
    assert_eq!(store.get_metrics().delivered_messages, 1);
    assert!(store.is_marked_delivered(&uid_a(), id));
    assert!(!store.is_marked_delivered(&uid_b(), id));
}

#[test]
fn broadcasts_created_later_stay_pending() {
    let mut store = Store::new();
    store.add_queued_message("AVG#1#1".to_string(), 1);
    let id = store.get_new_queued_messages(&uid_a())[0].id;
    store.add_delivered_message(&uid_a(), id);
    store.add_queued_message("AVG#2#2".to_string(), 2);
    let pend = store.get_new_queued_messages(&uid_a());
    assert_eq!(pend.len(), 1);
    assert_eq!(pend[0].message, "AVG#2#2");
}
