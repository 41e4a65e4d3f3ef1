//! Reassembly and dispatch tests: terminator detection, the overflow
//! policy, and the end-to-end poll scenarios.

use reflow::dispatch::{Dispatcher, Outcome};
use reflow::framing::LineBuffer;
use reflow::protocol::{Num, Profile, Protocol, Start};

fn num(neg: bool, int_part: u64, frac: &[u8]) -> Num {
    Num { neg, int_part, frac: frac.to_vec() }
}

fn bytes(s: &str) -> Vec<u8> {
    s.as_bytes().to_vec()
}

#[test]
fn empty_chunk_is_a_no_op() {
    let mut line = LineBuffer::new();
    assert!(!line.append_chunk(b""));
    assert_eq!(line.bytes(), b"");
    assert!(!line.append_chunk(b"x\r"));
    assert!(line.append_chunk(b"\n"));
    assert_eq!(line.bytes(), b"x");
    line.clear();
    assert_eq!(line.bytes(), b"");
}

#[test]
fn terminator_strips_and_signals_once() {
    let mut line = LineBuffer::new();
    assert!(!line.append_chunk(b"hello"));
    assert!(line.append_chunk(b" world\r\n"));
    assert_eq!(line.bytes(), b"hello world");
}

#[test]
fn terminator_split_across_chunks() {
    let mut line = LineBuffer::new();
    assert!(!line.append_chunk(b"msg\r"));
    assert!(line.append_chunk(b"\n"));
    assert_eq!(line.bytes(), b"msg");
}

#[test]
fn short_buffer_never_signals() {
    let mut line = LineBuffer::new();
    // a lone line feed is not a terminator: fewer than two bytes came
    assert!(!line.append_chunk(b"\n"));
    assert_eq!(line.bytes(), b"\n");
    let mut line2 = LineBuffer::new();
    assert!(!line2.append_chunk(b"\r"));
    assert!(line2.append_chunk(b"\n"));
    assert_eq!(line2.bytes(), b"");
}

#[test]
fn overflow_clears_before_appending() {
    let mut line = LineBuffer::new();
    let chunk = [b'x'; 64];
    for _ in 0..16 {
        assert!(!line.append_chunk(&chunk));
    }
    assert_eq!(line.bytes().len(), 1024);
    // the buffer is full: the next chunk clears it first
    assert!(!line.append_chunk(b"fresh"));
    assert_eq!(line.bytes(), b"fresh");
}

#[test]
fn length_never_exceeds_capacity() {
    let mut line = LineBuffer::new();
    let chunk = [b'y'; 63];
    for _ in 0..40 {
        line.append_chunk(&chunk);
        assert!(line.bytes().len() <= 1024);
    }
}

#[test]
fn single_chunk_start_dispatches() {
    let mut front = Dispatcher::new();
    let outcome = front.poll_step(b"{\"start\":{\"reason\":\"button\"}}\r\n");
    match outcome {
        Outcome::Dispatched(Protocol::Start(start)) => {
            assert_eq!(start.reason, bytes("button"));
        },
        _ => panic!("expected a dispatched start command"),
    }
}

#[test]
fn split_profile_reassembles_and_dispatches() {
    let mut front = Dispatcher::new();
    let first = front.poll_step(b"{\"profile\":{\"name\":\"Som");
    assert!(matches!(first, Outcome::Pending));
    let second = front.poll_step(
        b"e Profile\",\"time\":[0.0,0.1],\"temperature\":[30.0,30.1]}}\r\n",
    );
    match second {
        Outcome::Dispatched(Protocol::Profile(profile)) => {
            let expected = Profile {
                name: bytes("Some Profile"),
                time: vec![num(false, 0, &[0]), num(false, 0, &[1])],
                temperature: vec![num(false, 30, &[0]), num(false, 30, &[1])],
            };
            assert_eq!(profile, expected);
        },
        _ => panic!("expected a dispatched profile command"),
    }
}

#[test]
fn bogus_message_is_rejected_and_buffer_reset() {
    let mut front = Dispatcher::new();
    let outcome = front.poll_step(b"{\"bogus\":{}}\r\n");
    match outcome {
        Outcome::Rejected(raw) => {
            assert_eq!(raw, bytes("{\"bogus\":{}}"));
        },
        _ => panic!("expected a rejection"),
    }
    // the buffer is empty again: the next message decodes cleanly
    let next = front.poll_step(b"{\"stop\":{\"reason\":\"done\"}}\r\n");
    match next {
        Outcome::Dispatched(Protocol::Stop(stop)) => {
            assert_eq!(stop.reason, bytes("done"));
        },
        _ => panic!("expected a dispatched stop command"),
    }
}

#[test]
fn overflow_mid_stream_recovers() {
    let mut front = Dispatcher::new();
    let junk = [b'j'; 64];
    // fill the buffer to its capacity without ever terminating
    for _ in 0..16 {
        assert!(matches!(front.poll_step(&junk), Outcome::Pending));
    }
    // the next chunk no longer fits: the in-flight bytes are dropped,
    // and the terminated message that follows is the one decoded
    let outcome = front.poll_step(b"{\"start\":{\"reason\":\"retry\"}}\r\n");
    match outcome {
        Outcome::Dispatched(Protocol::Start(start)) => {
            assert_eq!(start.reason, bytes("retry"));
        },
        _ => panic!("expected a dispatched start command"),
    }
}

#[test]
fn success_resets_buffer_for_next_message() {
    let mut front = Dispatcher::new();
    let first = front.poll_step(b"{\"start\":{\"reason\":\"a\"}}\r\n");
    assert!(matches!(first, Outcome::Dispatched(_)));
    let second = front.poll_step(b"{\"start\":{\"reason\":\"b\"}}\r\n");
    match second {
        Outcome::Dispatched(Protocol::Start(start)) => {
            assert_eq!(start.reason, bytes("b"));
        },
        _ => panic!("expected a dispatched start command"),
    }
}
