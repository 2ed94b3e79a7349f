use sensor_relay::codec::{AvgMsg, ConnMsg, DecodeError, DisconnMsg, Protocol, SensorMsg, get_protocol};

fn uid36() -> String {
    "0123456789abcdef0123456789abcdef0123".to_string()
}

#[test]
fn protocol_of_each_tag() {
    assert!(matches!(get_protocol(&"CONN#x".to_string()), Ok(Protocol::CONN)));
    assert!(matches!(get_protocol(&"SENSOR#x#1#2".to_string()), Ok(Protocol::SENSOR)));
    assert!(matches!(get_protocol(&"AVG#1#2".to_string()), Ok(Protocol::AVG)));
    assert!(matches!(get_protocol(&"DISCONN#x".to_string()), Ok(Protocol::DISCONN)));
    assert!(matches!(get_protocol(&"PING#x".to_string()), Err(DecodeError::InvalidProtocol)));
    assert!(matches!(get_protocol(&"".to_string()), Err(DecodeError::InvalidProtocol)));
}

#[test]
fn conn_decodes_valid_uid() {
    let uid = uid36();
    let msg = format!("CONN#{}", uid);
    let m = ConnMsg::from_msg(&msg).unwrap();
    assert_eq!(m.uid, uid);
}

#[test]
fn conn_rejects_wrong_uid_length() {
    assert!(matches!(
        ConnMsg::from_msg(&"CONN#short".to_string()),
        Err(DecodeError::InvalidId)
    ));
    let long = format!("CONN#{}x", uid36());
    assert!(matches!(ConnMsg::from_msg(&long), Err(DecodeError::InvalidId)));
    assert!(matches!(ConnMsg::from_msg(&"CONN#".to_string()), Err(DecodeError::InvalidId)));
}

#[test]
fn conn_rejects_wrong_arity_and_tag() {
    assert!(matches!(
        ConnMsg::from_msg(&"CONN".to_string()),
        Err(DecodeError::InvalidMessage)
    ));
    let msg = format!("CONN#{}#extra", uid36());
    assert!(matches!(ConnMsg::from_msg(&msg), Err(DecodeError::InvalidMessage)));
    let msg = format!("SENSOR#{}", uid36());
    assert!(matches!(ConnMsg::from_msg(&msg), Err(DecodeError::InvalidProtocol)));
}

#[test]
fn disconn_decodes_like_conn() {
    let uid = uid36();
    let m = DisconnMsg::from_msg(&format!("DISCONN#{}", uid)).unwrap();
    assert_eq!(m.uid, uid);
    assert!(matches!(
        DisconnMsg::from_msg(&"DISCONN#abc".to_string()),
        Err(DecodeError::InvalidId)
    ));
    assert!(matches!(
        DisconnMsg::from_msg(&format!("CONN#{}", uid36())),
        Err(DecodeError::InvalidProtocol)
    ));
}

#[test]
fn sensor_decodes_valid_frame() {
    let uid = uid36();
    let msg = format!("SENSOR#{}#1700000000#23.5", uid);
    let m = SensorMsg::from_msg(&msg).unwrap();
    assert_eq!(m.uid, uid);
    assert_eq!(m.timestamp, 1700000000);
    assert_eq!(m.data, "23.5");
}

#[test]
fn sensor_rejects_three_or_five_fields() {
    let uid = uid36();
    let three = format!("SENSOR#{}#1700000000", uid);
    assert!(matches!(SensorMsg::from_msg(&three), Err(DecodeError::InvalidMessage)));
    let five = format!("SENSOR#{}#1700000000#23.5#extra", uid);
    assert!(matches!(SensorMsg::from_msg(&five), Err(DecodeError::InvalidMessage)));
}

#[test]
fn sensor_rejects_bad_numbers() {
    let uid = uid36();
    let bad_ts = format!("SENSOR#{}#soon#1.0", uid);
    assert!(matches!(SensorMsg::from_msg(&bad_ts), Err(DecodeError::InvalidNumber)));
    let frac_ts = format!("SENSOR#{}#1.5#1.0", uid);
    assert!(matches!(SensorMsg::from_msg(&frac_ts), Err(DecodeError::InvalidNumber)));
    let bad_val = format!("SENSOR#{}#1700000000#warm", uid);
    assert!(matches!(SensorMsg::from_msg(&bad_val), Err(DecodeError::InvalidNumber)));
}

#[test]
fn sensor_rejects_bad_uid() {
    assert!(matches!(
        SensorMsg::from_msg(&"SENSOR#nope#1#1.0".to_string()),
        Err(DecodeError::InvalidId)
    ));
}

#[test]
fn sensor_round_trips_through_reencode() {
    let uid = uid36();
    let original = format!("SENSOR#{}#-42#2.5", uid);
    let m = SensorMsg::from_msg(&original).unwrap();
    let reencoded = format!("SENSOR#{}#{}#{}", m.uid, m.timestamp, m.data);
    assert_eq!(reencoded, original);
    let again = SensorMsg::from_msg(&reencoded).unwrap();
    assert_eq!(again.uid, m.uid);
    assert_eq!(again.timestamp, m.timestamp);
    assert_eq!(again.data, m.data);
}

#[test]
fn sensor_timestamp_range() {
    let uid = uid36();
    let max = format!("SENSOR#{}#9223372036854775807#1.0", uid);
    assert_eq!(SensorMsg::from_msg(&max).unwrap().timestamp, i64::MAX);
    let min = format!("SENSOR#{}#-9223372036854775808#1.0", uid);
    assert_eq!(SensorMsg::from_msg(&min).unwrap().timestamp, i64::MIN);
    let plus = format!("SENSOR#{}#+17#1.0", uid);
    assert_eq!(SensorMsg::from_msg(&plus).unwrap().timestamp, 17);
    let over = format!("SENSOR#{}#9223372036854775808#1.0", uid);
    assert!(matches!(SensorMsg::from_msg(&over), Err(DecodeError::InvalidNumber)));
    let under = format!("SENSOR#{}#-9223372036854775809#1.0", uid);
    assert!(matches!(SensorMsg::from_msg(&under), Err(DecodeError::InvalidNumber)));
}

#[test]
fn value_tokens_match_float_parsing() {
    let uid = uid36();
    let tokens = [
        "1.0", "2", ".5", "1.", "1e5", "1.e5", "-1.25", "+3.25E-2", "inf", "-inf",
        "Infinity", "nan", "NaN", "0", "007", "1e-300", "", ".", "e5", "1e", "--1",
        "1..2", "abc", "0x1", "1,5", " 1", "1 ", "1e+", "+", "-",
    ];
    for tok in tokens {
        let msg = format!("SENSOR#{}#1#{}", uid, tok);
        let accepted = SensorMsg::from_msg(&msg).is_ok();
        let std_accepts = tok.parse::<f64>().is_ok();
        assert_eq!(accepted, std_accepts, "token {:?}", tok);
    }
}

#[test]
fn avg_encodes_frame() {
    let m = AvgMsg { data: "2".to_string(), timestamp: 100 };
    assert_eq!(m.to_msg(), "AVG#100#2");
    let m = AvgMsg { data: "21.5".to_string(), timestamp: -7 };
    assert_eq!(m.to_msg(), "AVG#-7#21.5");
    let m = AvgMsg { data: "0".to_string(), timestamp: 0 };
    assert_eq!(m.to_msg(), "AVG#0#0");
}

#[test]
fn avg_frame_is_recognized() {
    let m = AvgMsg { data: "2.5".to_string(), timestamp: 1700000000 };
    assert!(matches!(get_protocol(&m.to_msg()), Ok(Protocol::AVG)));
}
