//! Flow tests: the dispatcher, the routing tables and the relays driven the
//! way the connection shell drives them.

use channelgate::bus::{ChannelMessage, RecvOutcome};
use channelgate::codec::{encode_reply, ReplyMessage, ReplyPayload, Response};
use channelgate::control::{ChannelControl, ChannelError};
use channelgate::dispatch::{handle_message, producer_step, relay_step, Handled, RelayStart};

/// A controller with the bootstrap channels, as the server starts.
fn setup() -> ChannelControl {
    let mut ctl = ChannelControl::new();
    ctl.channel_add("phoenix".to_string());
    ctl.channel_add("system".to_string());
    ctl.channel_add("streaming".to_string());
    ctl
}

/// Open a connection and hand back its id and receive cursor.
fn connect(ctl: &mut ChannelControl, conn_id: &str) -> u64 {
    ctl.conn_add(conn_id.to_string());
    ctl.conn_rx(conn_id).unwrap()
}

/// The next frame on the connection bus; panics when none is pending.
fn recv_frame(ctl: &ChannelControl, conn_id: &str, cursor: &mut u64) -> ReplyMessage {
    match ctl.conn_recv(conn_id, cursor).unwrap() {
        RecvOutcome::Msg(ChannelMessage::Reply(m)) => m,
        RecvOutcome::Lagged(k) => panic!("receiver lagged by {}", k),
        RecvOutcome::Idle => panic!("no frame pending"),
    }
}

fn relay_of(outcome: Handled) -> Option<RelayStart> {
    match outcome {
        Handled::Frame { relay, .. } => relay,
        Handled::InvalidFrame => panic!("frame refused"),
    }
}

#[test]
fn test_websocket_connection() {
    let mut ctl = setup();
    let mut rx = connect(&mut ctl, "c1");

    // Test initial connection with heartbeat
    let heartbeat = r#"[null,"1","phoenix","heartbeat",{}]"#;
    let outcome = handle_message(&mut ctl, "c1", heartbeat);
    assert!(matches!(outcome, Handled::Frame { .. }));

    let reply = recv_frame(&ctl, "c1", &mut rx);
    assert_eq!(reply.topic, "phoenix");
    assert_eq!(reply.payload.status, "ok");
    assert_eq!(reply.join_ref, None);
    assert_eq!(reply.event_ref, "1");
    assert_eq!(
        encode_reply(&reply),
        r#"[null,"1","phoenix","phx_reply",{"status":"ok","response":{"type":"null"}}]"#
    );
}

#[test]
fn test_flow_server() {
    let ctl = setup();
    assert!(ctl.channel_size("phoenix").is_ok());
    assert!(ctl.channel_size("system").is_ok());
    assert!(ctl.channel_size("streaming").is_ok());
    assert_eq!(ctl.channel_size("system").unwrap(), 0);
}

#[test]
fn test_flow_join_leave() {
    let mut ctl = setup();
    let mut rx = connect(&mut ctl, "c1");

    // Join system channel
    let join_msg = r#"["1","ref1","system","phx_join",{"token":"test"}]"#;
    let outcome = handle_message(&mut ctl, "c1", join_msg);
    assert!(relay_of(outcome).is_some());

    // Verify join response
    let reply = recv_frame(&ctl, "c1", &mut rx);
    assert_eq!(reply.event_ref, "ref1");
    assert_eq!(reply.topic, "system");
    assert_eq!(reply.event, "phx_reply".to_string());
    assert_eq!(reply.payload.status, "ok");
    assert_eq!(
        encode_reply(&reply),
        r#"["1","ref1","system","phx_reply",{"status":"ok","response":{"type":"null"}}]"#
    );

    assert_eq!(ctl.channel_size("system").unwrap(), 1);

    // Leave channel
    let leave_msg = r#"["1","ref2","system","phx_leave",{}]"#;
    let outcome = handle_message(&mut ctl, "c1", leave_msg);
    assert!(relay_of(outcome).is_none());

    // Verify leave response
    let reply = recv_frame(&ctl, "c1", &mut rx);
    assert_eq!(reply.event_ref, "ref2");
    assert_eq!(reply.topic, "system");
    assert_eq!(reply.event, "phx_reply".to_string());
    assert_eq!(reply.payload.status, "ok");

    assert_eq!(ctl.channel_size("system").unwrap(), 0);
}

#[test]
fn test_multiple_clients() {
    let mut ctl = setup();

    let mut clients = vec![];
    assert_eq!(clients.len(), 0);

    for i in 0..3 {
        let conn_id = format!("conn{}", i);
        let mut rx = connect(&mut ctl, &conn_id);

        let join_msg = format!(r#"["{}","ref{}","system","phx_join",{{"token":"test"}}]"#, i, i);
        let outcome = handle_message(&mut ctl, &conn_id, &join_msg);
        assert!(relay_of(outcome).is_some());

        let reply = recv_frame(&ctl, &conn_id, &mut rx);
        assert_eq!(reply.payload.status, "ok");

        clients.push((conn_id, rx));
    }

    assert_eq!(clients.len(), 3);
    assert_eq!(ctl.channel_size("system").unwrap(), 3);
}

#[test]
fn test_message_broadcast() {
    let mut ctl = setup();
    let mut clients = vec![];
    for i in 1..3 {
        let conn_id = format!("conn{}", i);
        let mut rx = connect(&mut ctl, &conn_id);
        let join_msg = format!(r#"["{}","ref{}","system","phx_join",{{"token":"test"}}]"#, i, i);
        let relay = relay_of(handle_message(&mut ctl, &conn_id, &join_msg)).unwrap();
        // The join ack first
        let reply = recv_frame(&ctl, &conn_id, &mut rx);
        assert_eq!(reply.payload.status, "ok");
        clients.push((conn_id, rx, relay));
    }

    // Broadcast message to system channel
    let message = ReplyMessage {
        join_ref: None,
        event_ref: "broadcast".to_string(),
        topic: "system".to_string(),
        event: "test".to_string(),
        payload: ReplyPayload {
            status: "ok".to_string(),
            response: Response::Message {
                message: "test broadcast".to_string(),
            },
        },
    };

    let delivered = ctl
        .channel_broadcast("system", ChannelMessage::Reply(message))
        .unwrap();
    assert_eq!(delivered, 2);

    // Both clients should receive the message, stamped with their own
    // join reference by their relay.
    for (conn_id, rx, relay) in clients.iter_mut() {
        let mut cursor = relay.cursor;
        let step = relay_step(&mut ctl, &relay.agent_id, &relay.join_ref, conn_id, &mut cursor);
        assert!(matches!(step, channelgate::dispatch::RelayStep::Forwarded));

        let resp = recv_frame(&ctl, conn_id, rx);
        assert_eq!(resp.event_ref, "broadcast");
        assert_eq!(resp.join_ref, Some(relay.join_ref.clone()));
        assert!(
            matches!(&resp.payload.response, Response::Message { message } if message == "test broadcast")
        );
    }
}

#[test]
fn test_invalid_messages() {
    let mut ctl = setup();
    let mut rx = connect(&mut ctl, "c1");

    // Send invalid JSON
    assert!(matches!(
        handle_message(&mut ctl, "c1", "invalid json"),
        Handled::InvalidFrame
    ));

    // Send invalid message format
    assert!(matches!(
        handle_message(&mut ctl, "c1", r#"["invalid","format"]"#),
        Handled::InvalidFrame
    ));

    // Send to non-existent channel: an error reply, the connection lives on
    let invalid_channel = r#"["1","ref1","nonexistent","phx_join",{"token":"test"}]"#;
    let outcome = handle_message(&mut ctl, "c1", invalid_channel);
    assert!(relay_of(outcome).is_none());
    let reply = recv_frame(&ctl, "c1", &mut rx);
    assert_eq!(reply.payload.status, "error");
    assert_eq!(reply.event_ref, "ref1");

    // Connection should still be alive
    let heartbeat = r#"[null,"1","phoenix","heartbeat",{}]"#;
    let outcome = handle_message(&mut ctl, "c1", heartbeat);
    assert!(matches!(outcome, Handled::Frame { .. }));
    let reply = recv_frame(&ctl, "c1", &mut rx);
    assert_eq!(reply.topic, "phoenix");
    assert_eq!(reply.payload.status, "ok");
}

#[test]
fn test_system_channel() {
    let mut ctl = setup();
    let mut rx = connect(&mut ctl, "c1");

    // Join system channel
    let join_msg = r#"["1","ref1","system","phx_join",{"token":"test"}]"#;
    let relay = relay_of(handle_message(&mut ctl, "c1", join_msg)).unwrap();

    // Should receive initial join response
    let reply = recv_frame(&ctl, "c1", &mut rx);
    assert_eq!(reply.topic, "system");
    assert_eq!(reply.payload.status, "ok");

    // Should receive datetime updates once the producer ticks
    let delivered = channelgate::dispatch::datetime_tick(
        &mut ctl,
        "system",
        "2024-01-01T00:00:00.000+00:00".to_string(),
        0,
    );
    assert_eq!(delivered, 1);
    let mut cursor = relay.cursor;
    relay_step(&mut ctl, &relay.agent_id, &relay.join_ref, "c1", &mut cursor);

    let frame = recv_frame(&ctl, "c1", &mut rx);
    assert_eq!(frame.topic, "system");
    assert_eq!(frame.event, "datetime");
    assert!(matches!(&frame.payload.response, Response::Datetime { datetime, counter }
        if datetime == "2024-01-01T00:00:00.000+00:00" && *counter == 0));
}

#[test]
fn test_connection_teardown() {
    let mut ctl = setup();
    let _rx = connect(&mut ctl, "conn-a");
    let join_msg = r#"["a","r1","system","phx_join",{"token":"t"}]"#;
    let relay = relay_of(handle_message(&mut ctl, "conn-a", join_msg)).unwrap();
    assert_eq!(ctl.channel_size("system").unwrap(), 1);

    // The socket closes: the session tears the connection down.
    ctl.conn_cleanup("conn-a");
    assert_eq!(ctl.channel_size("system").unwrap(), 0);

    // The agent's bus is gone, so its relay stops at its next step.
    let mut cursor = relay.cursor;
    let step = relay_step(&mut ctl, &relay.agent_id, &relay.join_ref, "conn-a", &mut cursor);
    assert!(matches!(step, channelgate::dispatch::RelayStep::AgentGone));
    assert!(matches!(
        ctl.conn_rx("conn-a"),
        Err(ChannelError::ConnectionNotFound)
    ));
}

#[test]
fn test_heartbeat_idempotent() {
    let mut ctl = setup();
    let mut rx = connect(&mut ctl, "c1");

    for i in 0..3 {
        let frame = format!(r#"[null,"{}","phoenix","heartbeat",{{}}]"#, i);
        handle_message(&mut ctl, "c1", &frame);
        let reply = recv_frame(&ctl, "c1", &mut rx);
        assert_eq!(reply.join_ref, None);
        assert_eq!(reply.event_ref, format!("{}", i));
        assert_eq!(reply.payload.status, "ok");
        assert!(matches!(reply.payload.response, Response::Empty {}));
    }
    // Exactly one reply per heartbeat, and nothing else happened.
    assert!(matches!(
        ctl.conn_recv("c1", &mut rx).unwrap(),
        RecvOutcome::Idle
    ));
    assert_eq!(ctl.channel_size("system").unwrap(), 0);
}

#[test]
fn test_broadcast_empty_channel() {
    let mut ctl = setup();
    let message = ReplyMessage {
        join_ref: None,
        event_ref: "0".to_string(),
        topic: "system".to_string(),
        event: "test".to_string(),
        payload: ReplyPayload {
            status: "ok".to_string(),
            response: Response::Empty {},
        },
    };
    // Zero subscribers: zero deliveries, not an error.
    assert_eq!(
        ctl.channel_broadcast("system", ChannelMessage::Reply(message))
            .unwrap(),
        0
    );
    // An unknown channel is an error.
    let message = ReplyMessage {
        join_ref: None,
        event_ref: "0".to_string(),
        topic: "nowhere".to_string(),
        event: "test".to_string(),
        payload: ReplyPayload {
            status: "ok".to_string(),
            response: Response::Empty {},
        },
    };
    assert!(matches!(
        ctl.channel_broadcast("nowhere", ChannelMessage::Reply(message)),
        Err(ChannelError::ChannelNotFound)
    ));
}

#[test]
fn test_slow_subscriber_lags() {
    // Buses that retain only two messages.
    let mut ctl = ChannelControl::with_capacity(2);
    ctl.channel_add("system".to_string());
    let _rx = connect(&mut ctl, "c1");
    let join_msg = r#"["1","r1","system","phx_join",{"token":"t"}]"#;
    let relay = relay_of(handle_message(&mut ctl, "c1", join_msg)).unwrap();

    for i in 0..5 {
        let message = ReplyMessage {
            join_ref: None,
            event_ref: format!("{}", i),
            topic: "system".to_string(),
            event: "test".to_string(),
            payload: ReplyPayload {
                status: "ok".to_string(),
                response: Response::Empty {},
            },
        };
        // Producers never block on a slow consumer.
        assert_eq!(
            ctl.channel_broadcast("system", ChannelMessage::Reply(message))
                .unwrap(),
            1
        );
    }

    // The relay slept through three drops; it learns how many and resumes
    // at the oldest retained message.
    let mut cursor = relay.cursor;
    let step = relay_step(&mut ctl, &relay.agent_id, &relay.join_ref, "c1", &mut cursor);
    assert!(matches!(step, channelgate::dispatch::RelayStep::Lagged(3)));
    let step = relay_step(&mut ctl, &relay.agent_id, &relay.join_ref, "c1", &mut cursor);
    assert!(matches!(step, channelgate::dispatch::RelayStep::Forwarded));
}

#[test]
fn test_producer_counter() {
    let mut ctl = setup();
    let mut counter: u32 = 0;

    // Text that does not decode is skipped: the counter stands still.
    counter = producer_step(&mut ctl, "streaming", "datetime", counter, "not json");
    assert_eq!(counter, 0);
    counter = producer_step(&mut ctl, "streaming", "datetime", counter, r#"{"no":"type"}"#);
    assert_eq!(counter, 0);

    // A decoded response advances the counter even with nobody subscribed.
    counter = producer_step(
        &mut ctl,
        "streaming",
        "datetime",
        counter,
        r#"{"type": "message", "message": "x"}"#,
    );
    assert_eq!(counter, 1);

    // A subscriber sees the counter as the event reference.
    let mut rx = connect(&mut ctl, "c1");
    let join_msg = r#"["1","r1","streaming","phx_join",{"token":"t"}]"#;
    let relay = relay_of(handle_message(&mut ctl, "c1", join_msg)).unwrap();
    let _ack = recv_frame(&ctl, "c1", &mut rx);

    counter = producer_step(
        &mut ctl,
        "streaming",
        "datetime",
        counter,
        r#"{"type": "datetime", "datetime": "2024-01-01", "counter": 7}"#,
    );
    assert_eq!(counter, 2);
    let mut cursor = relay.cursor;
    relay_step(&mut ctl, &relay.agent_id, &relay.join_ref, "c1", &mut cursor);
    let frame = recv_frame(&ctl, "c1", &mut rx);
    assert_eq!(frame.event_ref, "1");
    assert_eq!(frame.event, "datetime");
}

#[test]
fn test_rejoin_same_reference() {
    // Joining twice with one join reference keeps a single membership.
    let mut ctl = setup();
    let mut rx = connect(&mut ctl, "c1");
    let join_msg = r#"["1","r1","system","phx_join",{"token":"t"}]"#;
    assert!(relay_of(handle_message(&mut ctl, "c1", join_msg)).is_some());
    let join_again = r#"["1","r2","system","phx_join",{"token":"t"}]"#;
    assert!(relay_of(handle_message(&mut ctl, "c1", join_again)).is_some());
    assert_eq!(ctl.channel_size("system").unwrap(), 1);
    let first = recv_frame(&ctl, "c1", &mut rx);
    let second = recv_frame(&ctl, "c1", &mut rx);
    assert_eq!(first.event_ref, "r1");
    assert_eq!(second.event_ref, "r2");

    // Leaving once undoes it.
    handle_message(&mut ctl, "c1", r#"["1","r3","system","phx_leave",{}]"#);
    assert_eq!(ctl.channel_size("system").unwrap(), 0);
}

#[test]
fn test_unknown_lookups() {
    let ctl = setup();
    assert!(matches!(ctl.agent_rx("ghost"), Err(ChannelError::AgentNotFound)));
    assert!(matches!(
        ctl.conn_rx("ghost"),
        Err(ChannelError::ConnectionNotFound)
    ));
    assert!(matches!(
        ctl.channel_size("ghost"),
        Err(ChannelError::ChannelNotFound)
    ));
}
