use redis_lite::replication::{expect_full_resync, handshake_start, handshake_step, HandshakeState, HandshakeStep};
use redis_lite::resp::{RespIn, RespOut};

fn simple(s: &str) -> RespOut {
    RespOut::SimpleString(s.to_string())
}

fn sent(step: HandshakeStep) -> Vec<String> {
    match step {
        HandshakeStep::Send(RespIn::Array(args)) => args,
        HandshakeStep::Done(_, _) => panic!("expected a request"),
    }
}

#[test]
fn handshake_sends_requests_in_order() {
    let (state, first) = handshake_start();
    assert_eq!(first.serialize(), b"*1\r\n$4\r\nPING\r\n");
    let (state, step) = handshake_step(state, &simple("PONG"), 6380).ok().unwrap();
    assert_eq!(sent(step), vec!["REPLCONF", "listening-port", "6380"]);
    let (state, step) = handshake_step(state, &simple("OK"), 6380).ok().unwrap();
    assert_eq!(sent(step), vec!["REPLCONF", "capa", "psync2"]);
    let (state, step) = handshake_step(state, &simple("ok"), 6380).ok().unwrap();
    assert_eq!(sent(step), vec!["PSYNC", "?", "-1"]);
    let reply = simple("FULLRESYNC 8371b4fb1155b71f4a04d3e1bc3e18c4a990aeeb 0");
    let (state, step) = handshake_step(state, &reply, 6380).ok().unwrap();
    assert_eq!(state, HandshakeState::Synced);
    match step {
        HandshakeStep::Done(id, offset) => {
            assert_eq!(id, "8371b4fb1155b71f4a04d3e1bc3e18c4a990aeeb");
            assert_eq!(offset, "0");
        }
        HandshakeStep::Send(_) => panic!("expected the end"),
    }
    assert!(handshake_step(state, &simple("OK"), 6380).is_err());
}

#[test]
fn pong_is_a_case_insensitive_prefix() {
    assert!(handshake_step(HandshakeState::AwaitingPong, &simple("pong and more"), 1).is_ok());
    assert!(handshake_step(HandshakeState::AwaitingPong, &simple("PON"), 1).is_err());
    assert!(handshake_step(HandshakeState::AwaitingPong, &RespOut::BulkString("PONG".to_string()), 1).is_err());
}

#[test]
fn ok_must_match_whole() {
    assert!(handshake_step(HandshakeState::AwaitingPortAck, &simple("OK!"), 1).is_err());
    assert!(handshake_step(HandshakeState::AwaitingCapaAck, &RespOut::Error("OK".to_string()), 1).is_err());
}

#[test]
fn full_resync_words() {
    let (id, offset) = expect_full_resync(&simple("FULLRESYNC abc \t 17 extra")).ok().unwrap();
    assert_eq!(id, "abc");
    assert_eq!(offset, "17");
    assert!(expect_full_resync(&simple(" FULLRESYNC abc 17")).is_err());
    assert!(expect_full_resync(&simple("FULLRESYNC\tabc 17")).is_err());
    assert!(expect_full_resync(&simple("FULLRESYNC")).is_err());
    assert!(expect_full_resync(&simple("FULLRESYNC abc")).is_err());
    assert!(expect_full_resync(&simple("fullresync abc 0")).is_err());
    assert!(expect_full_resync(&RespOut::Null).is_err());
    let err = expect_full_resync(&simple("CONTINUE")).err().unwrap();
    assert_eq!(err.message(), "expected FULLRESYNC");
}
