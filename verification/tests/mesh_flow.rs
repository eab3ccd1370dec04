use avi_p2p::bridge::{BridgeAction, DownlinkMessage, EmbeddedBridge, PressType, UplinkMessage};
use avi_p2p::command::{Command, CommandReply};
use avi_p2p::error::{AviP2pError, StreamCloseReason};
use avi_p2p::events::AviEvent;
use avi_p2p::json::{json_eq, json_get_path, JsonValue};
use avi_p2p::peer::PeerId;
use avi_p2p::runtime::{Action, Runtime, SwarmInput};
use avi_p2p::stream::StreamId;
use avi_p2p::text::split_path_text;

fn peer(name: &str) -> PeerId {
    PeerId::new(String::from(name))
}

fn obj(fields: Vec<(&str, JsonValue)>) -> JsonValue {
    JsonValue::Obj(fields.into_iter().map(|(k, v)| (String::from(k), v)).collect())
}

fn text(s: &str) -> JsonValue {
    JsonValue::Text(String::from(s))
}

fn copy_id(id: &StreamId) -> StreamId {
    id.clone()
}

/// Deliver every envelope and publish of `actions` from `from` into `to`,
/// answering the actions the delivery caused in turn.
fn deliver(from: &PeerId, actions: Vec<Action>, to: &mut Runtime, now: u64) -> Vec<Action> {
    let mut caused = Vec::new();
    for a in actions {
        match a {
            Action::SendEnvelope { peer: _, data } => {
                let mut more = to.handle_swarm_input(
                    SwarmInput::InboundRequest { from: from.clone(), data },
                    now,
                );
                caused.append(&mut more);
            }
            Action::Publish { topic, data } => {
                let mut more = to.handle_swarm_input(
                    SwarmInput::GossipMessage { from: from.clone(), topic, data },
                    now,
                );
                caused.append(&mut more);
            }
            _ => {}
        }
    }
    caused
}

fn events(actions: &[Action]) -> Vec<&AviEvent> {
    actions
        .iter()
        .filter_map(|a| match a {
            Action::Emit { event } => Some(event),
            _ => None,
        })
        .collect()
}

#[test]
fn discovery_and_connection_track_peers() {
    let mut node = Runtime::new(peer("local"));
    let found = node.handle_swarm_input(SwarmInput::PeerDiscovered { peer: peer("other") }, 1);
    assert!(events(&found).iter().any(|e| matches!(
        e,
        AviEvent::PeerDiscovered { peer_id } if peer_id.same_peer(&peer("other"))
    )));
    let up = node.handle_swarm_input(SwarmInput::PeerConnected { peer: peer("other") }, 2);
    assert!(events(&up).iter().any(|e| matches!(
        e,
        AviEvent::PeerConnected { peer_id } if peer_id.same_peer(&peer("other"))
    )));
    let (reply, _) = node.handle_command(Command::GetConnectedPeers, 3, 0);
    match reply {
        CommandReply::Peers(ps) => {
            assert_eq!(ps.len(), 1);
            assert!(ps[0].same_peer(&peer("other")));
        }
        _ => panic!("connected peers come back as a peer list"),
    }
}

#[test]
fn message_delivered_only_on_subscribed_topic() {
    let mut node = Runtime::new(peer("b"));
    let (reply, _) = node.handle_command(
        Command::Subscribe { topic: String::from("t/x") },
        1,
        0,
    );
    assert!(matches!(reply, CommandReply::Ack));
    let got = node.handle_swarm_input(
        SwarmInput::GossipMessage {
            from: peer("a"),
            topic: String::from("t/x"),
            data: b"hello".to_vec(),
        },
        2,
    );
    let evs = events(&got);
    assert_eq!(evs.len(), 1);
    match evs[0] {
        AviEvent::Message { from, topic, data } => {
            assert!(from.same_peer(&peer("a")));
            assert_eq!(topic, "t/x");
            assert_eq!(data, b"hello");
        }
        _ => panic!("a publish on a subscribed topic is a message event"),
    }
    let silent = node.handle_swarm_input(
        SwarmInput::GossipMessage {
            from: peer("a"),
            topic: String::from("t/other"),
            data: b"hello".to_vec(),
        },
        3,
    );
    assert!(events(&silent).is_empty());
}

#[test]
fn unsubscribe_stops_delivery() {
    let mut node = Runtime::new(peer("b"));
    node.handle_command(Command::Subscribe { topic: String::from("t/x") }, 1, 0);
    node.handle_command(Command::Unsubscribe { topic: String::from("t/x") }, 2, 0);
    let got = node.handle_swarm_input(
        SwarmInput::GossipMessage {
            from: peer("a"),
            topic: String::from("t/x"),
            data: b"hi".to_vec(),
        },
        3,
    );
    assert!(events(&got).is_empty());
}

fn connect(a: &mut Runtime, b: &mut Runtime, pa: &PeerId, pb: &PeerId) {
    a.handle_swarm_input(SwarmInput::PeerConnected { peer: pb.clone() }, 0);
    b.handle_swarm_input(SwarmInput::PeerConnected { peer: pa.clone() }, 0);
}

#[test]
fn stream_handshake_and_data_flow() {
    let pa = peer("node-a");
    let pb = peer("node-b");
    let mut a = Runtime::new(pa.clone());
    let mut b = Runtime::new(pb.clone());
    connect(&mut a, &mut b, &pa, &pb);

    let (reply, open_actions) = a.handle_command(
        Command::RequestStream { peer_id: pb.clone(), reason: String::from("file") },
        1,
        42,
    );
    let sid = match reply {
        CommandReply::Stream(sid) => sid,
        _ => panic!("a request towards a connected peer answers with the stream id"),
    };
    let at_b = deliver(&pa, open_actions, &mut b, 2);
    let requested = events(&at_b);
    assert!(requested.iter().any(|e| matches!(
        e,
        AviEvent::StreamRequested { stream_id, from, reason }
            if stream_id.same_stream(&sid) && from.same_peer(&pa) && reason == "file"
    )));

    let (accept_reply, accept_actions) = b.handle_command(
        Command::AcceptStream { stream_id: copy_id(&sid) },
        3,
        0,
    );
    assert!(matches!(accept_reply, CommandReply::Ack));
    let at_a = deliver(&pb, accept_actions, &mut a, 4);
    assert!(events(&at_a).iter().any(|e| matches!(
        e,
        AviEvent::StreamOpened { stream_id } if stream_id.same_stream(&sid)
    )));

    let (send_reply, send_actions) = a.handle_command(
        Command::SendStreamData { stream_id: copy_id(&sid), data: vec![1, 2, 3] },
        5,
        0,
    );
    assert!(matches!(send_reply, CommandReply::Ack));
    let delivered = deliver(&pa, send_actions, &mut b, 6);
    assert!(events(&delivered).iter().any(|e| matches!(
        e,
        AviEvent::StreamData { stream_id, data } if stream_id.same_stream(&sid) && data == &vec![1u8, 2, 3]
    )));
}

#[test]
fn rejected_stream_closes_and_refuses_data() {
    let pa = peer("node-a");
    let pb = peer("node-b");
    let mut a = Runtime::new(pa.clone());
    let mut b = Runtime::new(pb.clone());
    connect(&mut a, &mut b, &pa, &pb);

    let (reply, open_actions) = a.handle_command(
        Command::RequestStream { peer_id: pb.clone(), reason: String::from("file") },
        1,
        7,
    );
    let sid = match reply {
        CommandReply::Stream(sid) => sid,
        _ => panic!("a request towards a connected peer answers with the stream id"),
    };
    deliver(&pa, open_actions, &mut b, 2);

    let (_, reject_actions) = b.handle_command(
        Command::RejectStream { stream_id: copy_id(&sid), reason: String::from("busy") },
        3,
        0,
    );
    let at_a = deliver(&pb, reject_actions, &mut a, 4);
    assert!(events(&at_a).iter().any(|e| matches!(
        e,
        AviEvent::StreamClosed { stream_id, reason: StreamCloseReason::RejectedByRemote(r) }
            if stream_id.same_stream(&sid) && r == "busy"
    )));

    let (send_reply, _) = a.handle_command(
        Command::SendStreamData { stream_id: copy_id(&sid), data: vec![9] },
        5,
        0,
    );
    match send_reply {
        CommandReply::Failed(AviP2pError::InvalidStreamState(..)) => {}
        _ => panic!("sending on a rejected stream is an invalid-state error"),
    }
}

#[test]
fn closed_stream_swallows_late_data() {
    let pa = peer("node-a");
    let pb = peer("node-b");
    let mut a = Runtime::new(pa.clone());
    let mut b = Runtime::new(pb.clone());
    connect(&mut a, &mut b, &pa, &pb);

    let (reply, open_actions) = a.handle_command(
        Command::RequestStream { peer_id: pb.clone(), reason: String::from("file") },
        1,
        7,
    );
    let sid = match reply {
        CommandReply::Stream(sid) => sid,
        _ => panic!("stream id expected"),
    };
    deliver(&pa, open_actions, &mut b, 2);
    let (_, accept_actions) = b.handle_command(
        Command::AcceptStream { stream_id: copy_id(&sid) },
        3,
        0,
    );
    deliver(&pb, accept_actions, &mut a, 4);
    let (_, close_actions) = a.handle_command(
        Command::CloseStream { stream_id: copy_id(&sid) },
        5,
        0,
    );
    deliver(&pa, close_actions, &mut b, 6);

    // Data sent towards the now-closed stream is absorbed silently.
    let (send_reply, stray) = b.handle_command(
        Command::SendStreamData { stream_id: copy_id(&sid), data: vec![5] },
        7,
        0,
    );
    match send_reply {
        CommandReply::Failed(AviP2pError::InvalidStreamState(..)) => {}
        _ => panic!("sending on a closed stream is an invalid-state error"),
    }
    assert!(events(&stray).is_empty());
}

#[test]
fn context_update_reaches_remote_snapshot() {
    let pa = peer("node-a");
    let pb = peer("node-b");
    let mut a = Runtime::new(pa.clone());
    let mut b = Runtime::new(pb.clone());
    connect(&mut a, &mut b, &pa, &pb);

    let base = obj(vec![
        ("device", obj(vec![("name", text("X")), ("battery_pct", JsonValue::Int(100))])),
        ("app", obj(vec![("status", text("idle"))])),
    ]);
    let (r1, first_actions) = a.handle_command(
        Command::ReplaceSelfContext { data: base },
        1,
        0,
    );
    assert!(matches!(r1, CommandReply::Ack));
    deliver(&pa, first_actions, &mut b, 2);

    let patch = obj(vec![("device", obj(vec![("name", text("Kitchen"))]))]);
    let (r2, patch_actions) = a.handle_command(
        Command::UpdateSelfContext { patch },
        3,
        0,
    );
    assert!(matches!(r2, CommandReply::Ack));

    let expected = obj(vec![
        ("device", obj(vec![("name", text("Kitchen")), ("battery_pct", JsonValue::Int(100))])),
        ("app", obj(vec![("status", text("idle"))])),
    ]);
    let (local_reply, _) = a.handle_command(Command::GetPeerContext { peer_id: None }, 4, 0);
    match local_reply {
        CommandReply::Context(d) => assert!(json_eq(&d, &expected)),
        _ => panic!("the local context comes back as a document"),
    }

    let at_b = deliver(&pa, patch_actions, &mut b, 5);
    assert!(events(&at_b).iter().any(|e| matches!(
        e,
        AviEvent::ContextUpdated { peer_id, context }
            if peer_id.same_peer(&pa) && json_eq(context, &expected)
    )));
    let (remote_reply, _) = b.handle_command(
        Command::GetPeerContext { peer_id: Some(pa.clone()) },
        6,
        0,
    );
    match remote_reply {
        CommandReply::Context(d) => assert!(json_eq(&d, &expected)),
        _ => panic!("the replicated context comes back as a document"),
    }
}

#[test]
fn bridge_hello_then_button_press() {
    let mut bridge = EmbeddedBridge::new();
    let addr: u64 = 9001;
    let hello = bridge.handle_packet(addr, UplinkMessage::Hello { device_id: 5555 }, 100);
    assert_eq!(hello.len(), 1);
    match &hello[0] {
        BridgeAction::Reply { to, msg } => {
            assert_eq!(*to, addr);
            assert_eq!(*msg, DownlinkMessage::Welcome);
        }
        _ => panic!("hello answers with a welcome"),
    }

    let press = bridge.handle_packet(
        addr,
        UplinkMessage::ButtonPress { button_id: 1, press_type: PressType::Double },
        123,
    );
    assert_eq!(press.len(), 1);
    match &press[0] {
        BridgeAction::Publish { topic, payload } => {
            assert_eq!(topic, "avi/home/device_5555/button");
            let bid = split_path_text("button_id");
            assert!(json_eq(
                json_get_path(payload, &bid, 0).expect("button id present"),
                &JsonValue::Int(1),
            ));
            let kind = split_path_text("type");
            assert!(json_eq(
                json_get_path(payload, &kind, 0).expect("press kind present"),
                &text("Double"),
            ));
            let ts = split_path_text("ts");
            match json_get_path(payload, &ts, 0).expect("timestamp present") {
                JsonValue::Int(t) => assert_eq!(*t, 123),
                _ => panic!("the timestamp is numeric"),
            }
        }
        _ => panic!("a button press publishes"),
    }
}

#[test]
fn bridge_ignores_frames_without_session() {
    let mut bridge = EmbeddedBridge::new();
    let none = bridge.handle_packet(
        7,
        UplinkMessage::ButtonPress { button_id: 1, press_type: PressType::Single },
        5,
    );
    assert!(none.is_empty());
    let no_stream = bridge.handle_packet(
        7,
        UplinkMessage::StreamData { local_stream_id: 1, data: vec![1] },
        6,
    );
    assert!(no_stream.is_empty());
}

#[test]
fn bridge_sensor_update_publishes_with_unit() {
    let mut bridge = EmbeddedBridge::new();
    let addr: u64 = 4;
    bridge.handle_packet(addr, UplinkMessage::Hello { device_id: 12 }, 1);
    let acts = bridge.handle_packet(
        addr,
        UplinkMessage::SensorUpdate {
            sensor_name: String::from("temp_kitchen"),
            data: avi_p2p::bridge::SensorValue::Temperature(21),
        },
        2,
    );
    assert_eq!(acts.len(), 1);
    match &acts[0] {
        BridgeAction::Publish { topic, payload } => {
            assert_eq!(topic, "avi/home/device_12/sensor/temp_kitchen");
            let unit = split_path_text("unit");
            assert!(json_eq(
                json_get_path(payload, &unit, 0).expect("unit present"),
                &text("C"),
            ));
            let value = split_path_text("value");
            assert!(json_eq(
                json_get_path(payload, &value, 0).expect("value present"),
                &JsonValue::Int(21),
            ));
        }
        _ => panic!("a sensor update publishes"),
    }
}

#[test]
fn bridge_stream_mapping_lifecycle() {
    let mut bridge = EmbeddedBridge::new();
    let addr: u64 = 8;
    bridge.handle_packet(addr, UplinkMessage::Hello { device_id: 2 }, 1);
    let start = bridge.handle_packet(
        addr,
        UplinkMessage::StreamStart {
            local_stream_id: 3,
            target_peer_id: String::from("gateway"),
            reason: String::from("file"),
        },
        2,
    );
    assert_eq!(start.len(), 1);
    match &start[0] {
        BridgeAction::RequestStream { local_stream_id, peer, reason } => {
            assert_eq!(*local_stream_id, 3);
            assert!(peer.same_peer(&PeerId::new(String::from("gateway"))));
            assert_eq!(reason, "file");
        }
        _ => panic!("a stream start asks for a mesh stream"),
    }
    let mesh = avi_p2p::stream::generate_stream_id(&peer("bridge"), 1, 99);
    bridge.record_stream(addr, 3, copy_id(&mesh));
    let data = bridge.handle_packet(
        addr,
        UplinkMessage::StreamData { local_stream_id: 3, data: vec![4, 5] },
        3,
    );
    assert_eq!(data.len(), 1);
    match &data[0] {
        BridgeAction::SendStreamData { stream_id, data } => {
            assert!(stream_id.same_stream(&mesh));
            assert_eq!(data, &vec![4u8, 5]);
        }
        _ => panic!("bridged data goes to the mapped mesh stream"),
    }
    let close = bridge.handle_packet(addr, UplinkMessage::StreamClose { local_stream_id: 3 }, 4);
    assert_eq!(close.len(), 1);
    assert!(matches!(&close[0], BridgeAction::CloseStream { stream_id } if stream_id.same_stream(&mesh)));
    let after = bridge.handle_packet(
        addr,
        UplinkMessage::StreamData { local_stream_id: 3, data: vec![6] },
        5,
    );
    assert!(after.is_empty());
}

#[test]
fn unknown_stream_is_not_found() {
    let mut node = Runtime::new(peer("solo"));
    let ghost_sid = avi_p2p::stream::generate_stream_id(&peer("nobody"), 1, 1);
    let (reply, _) = node.handle_command(
        Command::SendStreamData { stream_id: ghost_sid, data: vec![1] },
        1,
        0,
    );
    match reply {
        CommandReply::Failed(AviP2pError::StreamNotFound(_)) => {}
        _ => panic!("sending on an unknown stream is a not-found error"),
    }
}

#[test]
fn request_stream_needs_connected_peer() {
    let mut node = Runtime::new(peer("solo"));
    let (reply, _) = node.handle_command(
        Command::RequestStream { peer_id: peer("stranger"), reason: String::new() },
        1,
        0,
    );
    match reply {
        CommandReply::Failed(AviP2pError::PeerNotConnected(p)) => {
            assert!(p.same_peer(&peer("stranger")));
        }
        _ => panic!("a request towards an unconnected peer is refused"),
    }
}

#[test]
fn malformed_patch_is_refused() {
    let mut node = Runtime::new(peer("solo"));
    let dup = JsonValue::Obj(vec![
        (String::from("k"), JsonValue::Int(1)),
        (String::from("k"), JsonValue::Int(2)),
    ]);
    let (reply, _) = node.handle_command(Command::UpdateSelfContext { patch: dup }, 1, 0);
    match reply {
        CommandReply::Failed(AviP2pError::Serialization(_)) => {}
        _ => panic!("a document with a doubled key is refused"),
    }
}

#[test]
fn pending_stream_buffer_hits_backpressure() {
    let pa = peer("node-a");
    let pb = peer("node-b");
    let mut a = Runtime::new(pa.clone());
    let mut b = Runtime::new(pb.clone());
    connect(&mut a, &mut b, &pa, &pb);
    let (reply, _) = a.handle_command(
        Command::RequestStream { peer_id: pb.clone(), reason: String::new() },
        1,
        3,
    );
    let sid = match reply {
        CommandReply::Stream(sid) => sid,
        _ => panic!("stream id expected"),
    };
    // The peer has not accepted yet: payloads buffer up to the bound.
    for k in 0..avi_p2p::stream::STREAM_BUFFER_BOUND {
        let (r, acts) = a.handle_command(
            Command::SendStreamData { stream_id: copy_id(&sid), data: vec![k as u8] },
            2,
            0,
        );
        assert!(matches!(r, CommandReply::Ack));
        assert!(acts.is_empty());
    }
    let (over, _) = a.handle_command(
        Command::SendStreamData { stream_id: copy_id(&sid), data: vec![99] },
        3,
        0,
    );
    match over {
        CommandReply::Failed(AviP2pError::Backpressure) => {}
        _ => panic!("a full pre-open buffer answers with backpressure"),
    }
    // Acceptance flushes the whole buffer in arrival order.
    let (_, accept_actions) = b.handle_command(
        Command::AcceptStream { stream_id: copy_id(&sid) },
        4,
        0,
    );
    let _ = accept_actions;
}
