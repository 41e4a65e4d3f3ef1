//! Codec tests: the required serialization round trips, rejection of
//! malformed messages, and exact wire forms.

use reflow::codec::{decode, encode};
use reflow::protocol::{Feedback, Num, Profile, Protocol, Start, Stop};

fn num(neg: bool, int_part: u64, frac: &[u8]) -> Num {
    Num { neg, int_part, frac: frac.to_vec() }
}

fn bytes(s: &str) -> Vec<u8> {
    s.as_bytes().to_vec()
}

#[test]
fn profile_deserialize() {
    let string_message = r#"{
            "profile": {
                "name": "Some Profile",
                "time": [0.0, 0.1],
                "temperature": [30.0, 30.1]
            }
        }"#;
    let deserialize_result = decode(string_message.as_bytes());
    assert!(deserialize_result.is_some());

    let profile = match deserialize_result.unwrap() {
        Protocol::Profile(profile) => Some(profile),
        _ => None,
    };
    assert!(profile.is_some());
    let profile = profile.unwrap();

    let expected = Profile {
        name: bytes("Some Profile"),
        time: vec![num(false, 0, &[0]), num(false, 0, &[1])],
        temperature: vec![num(false, 30, &[0]), num(false, 30, &[1])],
    };
    assert!(expected.name == profile.name);
    assert!(expected.time == profile.time);
    assert!(expected.temperature == profile.temperature);
}

#[test]
fn profile_serialize() {
    let profile = Profile {
        name: bytes("Some Profile"),
        time: vec![num(false, 0, &[0]), num(false, 0, &[1])],
        temperature: vec![num(false, 30, &[0]), num(false, 30, &[1])],
    };

    let message = encode(&Protocol::Profile(profile));
    assert!(message.len() <= 128);

    let expected =
        r#"{"profile":{"name":"Some Profile","time":[0.0,0.1],"temperature":[30.0,30.1]}}"#;
    assert!(expected.as_bytes() == message.as_slice());
}

#[test]
fn feedback_serialize_exact() {
    let feedback = Feedback {
        status: bytes("OK"),
        time: num(false, 1, &[0]),
        temperature: num(false, 150, &[0]),
        error: num(false, 0, &[5]),
        setpoint: num(false, 150, &[5]),
        dutycycle: num(false, 0, &[8]),
    };
    let message = encode(&Protocol::Feedback(feedback));
    let expected = r#"{"feedback":{"status":"OK","time":1.0,"temperature":150.0,"error":0.5,"setpoint":150.5,"dutycycle":0.8}}"#;
    assert_eq!(expected.as_bytes(), message.as_slice());
}

#[test]
fn start_round_trip() {
    let command = Protocol::Start(Start { reason: bytes("button") });
    assert_eq!(decode(&encode(&command)), Some(command));
}

#[test]
fn stop_round_trip() {
    let command = Protocol::Stop(Stop { reason: bytes("overheat") });
    assert_eq!(decode(&encode(&command)), Some(command));
}

#[test]
fn profile_round_trip() {
    let command = Protocol::Profile(Profile {
        name: bytes("lead-free"),
        time: vec![num(false, 0, &[0]), num(false, 90, &[5]), num(false, 180, &[0])],
        temperature: vec![num(false, 25, &[0]), num(false, 150, &[0]), num(false, 217, &[0])],
    });
    assert_eq!(decode(&encode(&command)), Some(command));
}

#[test]
fn feedback_round_trip() {
    let command = Protocol::Feedback(Feedback {
        status: bytes("RUNNING"),
        time: num(false, 12, &[2, 5]),
        temperature: num(false, 180, &[2]),
        error: num(true, 0, &[7]),
        setpoint: num(false, 181, &[0]),
        dutycycle: num(false, 0, &[3, 7, 5]),
    });
    assert_eq!(decode(&encode(&command)), Some(command));
}

#[test]
fn start_decode_single_object() {
    let decoded = decode(br#"{"start":{"reason":"button"}}"#);
    assert_eq!(decoded, Some(Protocol::Start(Start { reason: bytes("button") })));
}

#[test]
fn unknown_key_rejected() {
    assert_eq!(decode(br#"{"bogus":{}}"#), None);
    assert_eq!(decode(br#"{"profiles":{"reason":"x"}}"#), None);
}

#[test]
fn missing_field_rejected() {
    assert_eq!(decode(br#"{"profile":{"name":"x","time":[0.0]}}"#), None);
    assert_eq!(decode(br#"{"start":{}}"#), None);
    assert_eq!(
        decode(br#"{"feedback":{"status":"OK","time":1.0,"temperature":2.0,"error":3.0,"setpoint":4.0}}"#),
        None,
    );
}

#[test]
fn extra_field_rejected() {
    assert_eq!(decode(br#"{"start":{"reason":"x","extra":1.0}}"#), None);
}

#[test]
fn duplicate_field_rejected() {
    assert_eq!(decode(br#"{"start":{"reason":"x","reason":"y"}}"#), None);
}

#[test]
fn oversized_string_rejected() {
    // seventeen bytes, one over the bound
    assert_eq!(decode(br#"{"start":{"reason":"abcdefghijklmnopq"}}"#), None);
    // sixteen bytes is still accepted
    let decoded = decode(br#"{"start":{"reason":"abcdefghijklmnop"}}"#);
    assert_eq!(decoded, Some(Protocol::Start(Start { reason: bytes("abcdefghijklmnop") })));
}

#[test]
fn oversized_array_rejected() {
    let mut thirty_two = String::from(r#"{"profile":{"name":"x","time":[0.0"#);
    for _ in 0..31 {
        thirty_two.push_str(",0.0");
    }
    thirty_two.push_str(r#"],"temperature":[]}}"#);
    assert!(decode(thirty_two.as_bytes()).is_some());

    let mut thirty_three = String::from(r#"{"profile":{"name":"x","time":[0.0"#);
    for _ in 0..32 {
        thirty_three.push_str(",0.0");
    }
    thirty_three.push_str(r#"],"temperature":[]}}"#);
    assert_eq!(decode(thirty_three.as_bytes()), None);
}

#[test]
fn malformed_numbers_rejected() {
    assert_eq!(decode(br#"{"feedback":{"status":"OK","time":01.0,"temperature":2.0,"error":3.0,"setpoint":4.0,"dutycycle":5.0}}"#), None);
    assert_eq!(decode(br#"{"start":{"reason":"x"}"#), None);
    assert_eq!(decode(br#"{"start":{"reason":"x"}} trailing"#), None);
    assert_eq!(decode(br#"{"start":{"reason":"a\\b"}}"#), None);
    assert_eq!(decode(b"") , None);
}

#[test]
fn integer_form_accepted_and_normalized() {
    // a bare integer decodes as the same value as its canonical form
    let decoded = decode(br#"{"feedback":{"status":"OK","time":30,"temperature":30.10,"error":0.0,"setpoint":0.0,"dutycycle":0.0}}"#);
    let feedback = match decoded {
        Some(Protocol::Feedback(f)) => f,
        _ => panic!("expected a feedback command"),
    };
    assert_eq!(feedback.time, num(false, 30, &[0]));
    assert_eq!(feedback.temperature, num(false, 30, &[1]));
}

#[test]
fn negative_numbers_round_trip() {
    let decoded = decode(br#"{"feedback":{"status":"OK","time":-1.5,"temperature":0.0,"error":-0.25,"setpoint":0.0,"dutycycle":0.0}}"#);
    let feedback = match decoded {
        Some(Protocol::Feedback(f)) => f,
        _ => panic!("expected a feedback command"),
    };
    assert_eq!(feedback.time, num(true, 1, &[5]));
    assert_eq!(feedback.error, num(true, 0, &[2, 5]));
}

#[test]
fn empty_array_accepted() {
    let decoded = decode(br#"{"profile":{"name":"x","time":[],"temperature":[]}}"#);
    assert_eq!(
        decoded,
        Some(Protocol::Profile(Profile {
            name: bytes("x"),
            time: vec![],
            temperature: vec![],
        })),
    );
}

#[test]
fn field_order_is_free_on_decode() {
    let decoded = decode(br#"{"profile":{"temperature":[30.0],"name":"x","time":[0.0]}}"#);
    assert_eq!(
        decoded,
        Some(Protocol::Profile(Profile {
            name: bytes("x"),
            time: vec![num(false, 0, &[0])],
            temperature: vec![num(false, 30, &[0])],
        })),
    );
}
