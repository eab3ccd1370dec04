//! The embedded bridge's decision core: sessions for constrained
//! devices, and the translation of their compact frames into handle
//! calls and mesh publishes. The datagram socket itself lives outside
//! the crate and feeds frames in as plain values.

use vstd::prelude::*;
use crate::assoc::{
    assoc_get, assoc_remove, assoc_set, assoc_unique, lemma_assoc_get_first_match,
    lemma_assoc_get_none_iff, lemma_assoc_remove_at_index, lemma_assoc_remove_unique,
    lemma_assoc_set_absent, lemma_assoc_set_at_index, lemma_assoc_set_get, lemma_assoc_set_unique,
};
use crate::json::{JsonValue, Jv};
use crate::peer::PeerId;
use crate::stream::StreamId;
use crate::text::{dec_digits, u64_to_dec};

verus! {

broadcast use vstd::std_specs::vec::group_vec_axioms;

/// The largest datagram the bridge accepts or sends.
pub const MAX_PACKET_SIZE: usize = 1024;

/// How a device button was pressed.
#[derive(PartialEq, Eq, Structural, Clone, Copy, Debug)]
pub enum PressType {
    Single,
    Double,
    Long,
}

/// A sensor reading. Fractional readings reach the bridge scaled to
/// whole units by the device.
pub enum SensorValue {
    Temperature(i64),
    Humidity(i64),
    Battery(u8),
    Status(bool),
    Raw(i32),
}

/// A frame from a device to the bridge.
pub enum UplinkMessage {
    Hello { device_id: u64 },
    StreamStart { local_stream_id: u8, target_peer_id: String, reason: String },
    StreamData { local_stream_id: u8, data: Vec<u8> },
    StreamClose { local_stream_id: u8 },
    ButtonPress { button_id: u8, press_type: PressType },
    SensorUpdate { sensor_name: String, data: SensorValue },
}

/// A frame from the bridge to a device.
#[derive(PartialEq, Eq, Structural, Clone, Copy, Debug)]
pub enum DownlinkMessage {
    Welcome,
    Error { reason: u8 },
}

/// Where the embedded bridge listens.
pub struct BridgeConfig {
    pub udp_port: u16,
}

/// One device's session.
pub struct DeviceSession {
    pub device_id: u64,
    pub last_seen_at: u64,
    pub active_streams: Vec<(u8, StreamId)>,
}

/// The model of one session: the device and its stream mapping.
#[verifier::ext_equal]
pub struct SessionModel {
    pub device_id: u64,
    pub streams: Seq<(u8, (Seq<char>, u64, u64))>,
}

/// The model of a session's stream mapping.
pub open spec fn streams_map_view(es: Seq<(u8, StreamId)>) -> Seq<(u8, (Seq<char>, u64, u64))> {
    Seq::new(es.len(), |i: int| (es[i].0, es[i].1@))
}

/// The model of a session.
pub open spec fn session_model(s: DeviceSession) -> SessionModel {
    SessionModel { device_id: s.device_id, streams: streams_map_view(s.active_streams@) }
}

/// The bridge's state: one session per remote address. Addresses reach
/// the bridge as opaque keys the caller derives from the socket address.
pub struct EmbeddedBridge {
    sessions: Vec<(u64, DeviceSession)>,
}

/// The model of the session table.
pub open spec fn sessions_view(es: Seq<(u64, DeviceSession)>) -> Seq<(u64, SessionModel)> {
    Seq::new(es.len(), |i: int| (es[i].0, session_model(es[i].1)))
}

/// What the bridge asks its surroundings to do for one frame.
pub enum BridgeAction {
    /// Send this frame back to the device.
    Reply { to: u64, msg: DownlinkMessage },
    /// Open a mesh stream towards the peer, for the device's local
    /// stream; the mesh id comes back through `record_stream`.
    RequestStream { local_stream_id: u8, peer: PeerId, reason: String },
    /// Send bytes on the mapped mesh stream.
    SendStreamData { stream_id: StreamId, data: Vec<u8> },
    /// Close the mapped mesh stream.
    CloseStream { stream_id: StreamId },
    /// Publish this document on the topic.
    Publish { topic: String, payload: JsonValue },
}

/// The text of a device's button topic.
pub open spec fn button_topic_text(device_id: u64) -> Seq<char> {
    "avi/home/device_"@ + dec_digits(device_id as nat) + "/button"@
}

/// The text of a device's sensor topic.
pub open spec fn sensor_topic_text(device_id: u64, name: Seq<char>) -> Seq<char> {
    "avi/home/device_"@ + dec_digits(device_id as nat) + "/sensor/"@ + name
}

/// The text a press kind publishes as.
pub open spec fn press_text(p: PressType) -> Seq<char> {
    match p {
        PressType::Single => "Single"@,
        PressType::Double => "Double"@,
        PressType::Long => "Long"@,
    }
}

/// The document a button press publishes.
pub open spec fn button_payload(button_id: u8, p: PressType, ts: u64) -> Jv {
    Jv::Obj(
        seq![
            ("button_id"@, Jv::Int(button_id as int)),
            ("type"@, Jv::Text(press_text(p))),
            ("ts"@, Jv::Int(ts as int)),
        ],
    )
}

/// The unit a sensor reading publishes with.
pub open spec fn sensor_unit_text(v: SensorValue) -> Seq<char> {
    match v {
        SensorValue::Temperature(_) => "C"@,
        SensorValue::Humidity(_) => "%"@,
        _ => ""@,
    }
}

/// The value a sensor reading publishes.
pub open spec fn sensor_value_jv(v: SensorValue) -> Jv {
    match v {
        SensorValue::Temperature(x) => Jv::Int(x as int),
        SensorValue::Humidity(x) => Jv::Int(x as int),
        SensorValue::Battery(x) => Jv::Int(x as int),
        SensorValue::Status(x) => Jv::Bool(x),
        SensorValue::Raw(x) => Jv::Int(x as int),
    }
}

/// The document a sensor reading publishes.
pub open spec fn sensor_payload(v: SensorValue, ts: u64) -> Jv {
    Jv::Obj(
        seq![
            ("value"@, sensor_value_jv(v)),
            ("unit"@, Jv::Text(sensor_unit_text(v))),
            ("ts"@, Jv::Int(ts as int)),
        ],
    )
}

/// Render a press kind.
fn press_name(p: &PressType) -> (r: String)
    ensures
        r@ == press_text(*p),
{
    match p {
        PressType::Single => String::from_str("Single"),
        PressType::Double => String::from_str("Double"),
        PressType::Long => String::from_str("Long"),
    }
}

/// The device's button topic.
pub fn button_topic(device_id: u64) -> (r: String)
    ensures
        r@ == button_topic_text(device_id),
{
    let mut t = String::from_str("avi/home/device_");
    let digits = u64_to_dec(device_id);
    t.append(digits.as_str());
    t.append("/button");
    t
}

/// The device's sensor topic for the named sensor.
pub fn sensor_topic(device_id: u64, name: &str) -> (r: String)
    ensures
        r@ == sensor_topic_text(device_id, name@),
{
    let mut t = String::from_str("avi/home/device_");
    let digits = u64_to_dec(device_id);
    t.append(digits.as_str());
    t.append("/sensor/");
    t.append(name);
    t
}

impl View for EmbeddedBridge {
    type V = Seq<(u64, SessionModel)>;

    closed spec fn view(&self) -> Seq<(u64, SessionModel)> {
        sessions_view(self.sessions@)
    }
}

/// The stream mapping stored for a device's local stream id.
pub open spec fn mapped_stream(
    sv: Seq<(u64, SessionModel)>,
    addr: u64,
    local: u8,
) -> Option<(Seq<char>, u64, u64)> {
    match assoc_get(sv, addr) {
        Some(m) => assoc_get(m.streams, local),
        None => None,
    }
}

impl EmbeddedBridge {
    /// Addresses appear at most once, and each session's mapping keys
    /// are unique too.
    pub closed spec fn wf(&self) -> bool {
        &&& assoc_unique(self@)
        &&& forall|i: int|
            0 <= i < self@.len() ==> assoc_unique(#[trigger] self@[i].1.streams)
    }

    /// A bridge with no sessions.
    pub fn new() -> (r: EmbeddedBridge)
        ensures
            r.wf(),
            r@ =~= Seq::<(u64, SessionModel)>::empty(),
    {
        let r = EmbeddedBridge { sessions: Vec::new() };
        proof {
            assert(r@ =~= Seq::<(u64, SessionModel)>::empty());
        }
        r
    }

    /// Index of the session for `addr`, if one exists.
    #[verifier::loop_isolation(false)]
    fn find(&self, addr: u64) -> (r: Option<usize>)
        ensures
            (match r {
                Some(i) => i < self@.len() && self@[i as int].0 == addr && (forall|j: int|
                    0 <= j < i ==> self@[j].0 != addr),
                None => forall|j: int| 0 <= j < self@.len() ==> self@[j].0 != addr,
            }),
    {
        let mut i: usize = 0;
        while i < self.sessions.len()
            invariant
                i <= self.sessions@.len(),
                forall|j: int| 0 <= j < i ==> self@[j].0 != addr,
            decreases self.sessions@.len() - i,
        {
            if self.sessions[i].0 == addr {
                return Some(i);
            }
            i += 1;
        }
        None
    }

    /// The device behind an address, if it said hello.
    pub fn session_device(&self, addr: u64) -> (r: Option<u64>)
        ensures
            (match r {
                Some(d) => assoc_get(self@, addr) is Some && assoc_get(self@, addr)
                    ->Some_0.device_id == d,
                None => assoc_get(self@, addr) is None,
            }),
    {
        match self.find(addr) {
            Some(i) => {
                proof {
                    lemma_assoc_get_first_match(self@, addr, i as int);
                }
                Some(self.sessions[i].1.device_id)
            },
            None => {
                proof {
                    lemma_assoc_get_none_iff(self@, addr);
                }
                None
            },
        }
    }

    /// Store the mesh id a request-stream call answered with, under the
    /// device's local stream id.
    pub fn record_stream(&mut self, addr: u64, local: u8, mesh: StreamId)
        requires
            old(self).wf(),
        ensures
            final(self).wf(),
            assoc_get(old(self)@, addr) is Some ==> mapped_stream(final(self)@, addr, local)
                == Some(mesh@),
            assoc_get(old(self)@, addr) is None ==> final(self)@ == old(self)@,
    {
        let ghost pre = self@;
        match self.find(addr) {
            Some(i) => {
                proof {
                    lemma_assoc_get_first_match(pre, addr, i as int);
                }
                let ghost epre = self.sessions@;
                let (key, mut sess) = self.sessions.remove(i);
                let ghost spre = streams_map_view(sess.active_streams@);
                proof {
                    assert(pre[i as int].1.streams == spre);
                    assert(assoc_unique(spre));
                }
                let mut k: usize = 0;
                let mut found: Option<usize> = None;
                while k < sess.active_streams.len()
                    invariant
                        k <= sess.active_streams@.len(),
                        (match found {
                            Some(f) => f < k && sess.active_streams@[f as int].0 == local && (
                            forall|j: int| 0 <= j < f ==> sess.active_streams@[j].0 != local),
                            None => forall|j: int|
                                0 <= j < k ==> sess.active_streams@[j].0 != local,
                        }),
                    decreases sess.active_streams@.len() - k,
                {
                    if found.is_none() && sess.active_streams[k].0 == local {
                        found = Some(k);
                    }
                    k += 1;
                }
                match found {
                    Some(f) => {
                        let (lk, _) = sess.active_streams.remove(f);
                        sess.active_streams.insert(f, (lk, mesh));
                        proof {
                            assert forall|j: int| 0 <= j < f implies spre[j].0 != local by {
                                assert(spre[j].0 == sess.active_streams@[j].0);
                            }
                            assert(spre[f as int].0 == local);
                            lemma_assoc_set_at_index(spre, local, mesh@, f as int);
                            assert(streams_map_view(sess.active_streams@) =~= assoc_set(
                                spre,
                                local,
                                mesh@,
                            ));
                            lemma_assoc_set_unique(spre, local, mesh@);
                            lemma_assoc_set_get(spre, local, mesh@, local);
                        }
                    },
                    None => {
                        proof {
                            lemma_assoc_get_none_iff(spre, local);
                        }
                        sess.active_streams.push((local, mesh));
                        proof {
                            lemma_assoc_set_absent(spre, local, mesh@);
                            assert(streams_map_view(sess.active_streams@) =~= assoc_set(
                                spre,
                                local,
                                mesh@,
                            ));
                            lemma_assoc_set_unique(spre, local, mesh@);
                            lemma_assoc_set_get(spre, local, mesh@, local);
                        }
                    },
                }
                self.sessions.insert(i, (key, sess));
                proof {
                    let m = session_model(self.sessions@[i as int].1);
                    lemma_assoc_set_at_index(pre, addr, m, i as int);
                    assert(self@ =~= assoc_set(pre, addr, m));
                    lemma_assoc_set_unique(pre, addr, m);
                    lemma_assoc_set_get(pre, addr, m, addr);
                    assert forall|j: int|
                        0 <= j < self@.len() implies assoc_unique(
                        #[trigger] self@[j].1.streams,
                    ) by {
                        if j != i as int {
                            assert(self.sessions@[j] == epre[j]);
                            assert(self@[j].1 == pre[j].1);
                        }
                    }
                }
            },
            None => {
                proof {
                    lemma_assoc_get_none_iff(pre, addr);
                }
            },
        }
    }

    /// Handle one frame from a device, as the bridge's table and the
    /// frame direct: install sessions on hello, bridge streams, publish
    /// button presses and sensor readings.
    #[verifier::loop_isolation(false)]
    pub fn handle_packet(&mut self, addr: u64, msg: UplinkMessage, now: u64) -> (r: Vec<
        BridgeAction,
    >)
        requires
            old(self).wf(),
            now <= i64::MAX as u64,
        ensures
            final(self).wf(),
            (match msg {
                UplinkMessage::Hello { device_id } => {
                    &&& r@.len() == 1
                    &&& r@[0] matches BridgeAction::Reply { to, msg: m } && to == addr && m
                        == DownlinkMessage::Welcome
                    &&& assoc_get(final(self)@, addr) matches Some(s) && s.device_id == device_id
                        && s.streams.len() == 0
                    &&& forall|q: u64|
                        q != addr ==> assoc_get(final(self)@, q) == assoc_get(old(self)@, q)
                },
                UplinkMessage::StreamStart { local_stream_id, target_peer_id, reason } => {
                    &&& final(self)@ == old(self)@
                    &&& (assoc_get(old(self)@, addr) is Some && target_peer_id@.len() > 0) ==> (
                    r@.len() == 1 && (r@[0] matches BridgeAction::RequestStream {
                        local_stream_id: l,
                        peer,
                        reason: rr,
                    } && l == local_stream_id && peer@ == target_peer_id@ && rr@ == reason@))
                    &&& (assoc_get(old(self)@, addr) is None || target_peer_id@.len() == 0)
                        ==> r@.len() == 0
                },
                UplinkMessage::StreamData { local_stream_id, data } => {
                    &&& final(self)@ == old(self)@
                    &&& (match mapped_stream(old(self)@, addr, local_stream_id) {
                        Some(sid) => r@.len() == 1 && (r@[0]
                            matches BridgeAction::SendStreamData { stream_id, data: d }
                            && stream_id@ == sid && d@ == data@),
                        None => r@.len() == 0,
                    })
                },
                UplinkMessage::StreamClose { local_stream_id } => {
                    &&& (match mapped_stream(old(self)@, addr, local_stream_id) {
                        Some(sid) => r@.len() == 1 && (r@[0] matches BridgeAction::CloseStream {
                            stream_id,
                        } && stream_id@ == sid) && mapped_stream(
                            final(self)@,
                            addr,
                            local_stream_id,
                        ) is None,
                        None => r@.len() == 0 && final(self)@ == old(self)@,
                    })
                    &&& forall|q: u64|
                        q != addr ==> assoc_get(final(self)@, q) == assoc_get(old(self)@, q)
                },
                UplinkMessage::ButtonPress { button_id, press_type } => {
                    &&& final(self)@ == old(self)@
                    &&& (match assoc_get(old(self)@, addr) {
                        Some(s) => r@.len() == 1 && (r@[0] matches BridgeAction::Publish {
                            topic,
                            payload,
                        } && topic@ == button_topic_text(s.device_id) && payload@
                            == button_payload(button_id, press_type, now)),
                        None => r@.len() == 0,
                    })
                },
                UplinkMessage::SensorUpdate { sensor_name, data } => {
                    &&& final(self)@ == old(self)@
                    &&& (match assoc_get(old(self)@, addr) {
                        Some(s) => r@.len() == 1 && (r@[0] matches BridgeAction::Publish {
                            topic,
                            payload,
                        } && topic@ == sensor_topic_text(s.device_id, sensor_name@) && payload@
                            == sensor_payload(data, now)),
                        None => r@.len() == 0,
                    })
                },
            }),
    {
        let mut out: Vec<BridgeAction> = Vec::new();
        let ghost pre = self@;
        match msg {
            UplinkMessage::Hello { device_id } => {
                let sess = DeviceSession {
                    device_id,
                    last_seen_at: now,
                    active_streams: Vec::new(),
                };
                match self.find(addr) {
                    Some(i) => {
                        proof {
                            lemma_assoc_get_first_match(pre, addr, i as int);
                        }
                        let ghost epre = self.sessions@;
                        let _ = self.sessions.remove(i);
                        self.sessions.insert(i, (addr, sess));
                        proof {
                            let m = session_model(self.sessions@[i as int].1);
                            assert(m.streams =~= Seq::<(u8, (Seq<char>, u64, u64))>::empty());
                            lemma_assoc_set_at_index(pre, addr, m, i as int);
                            assert(self@ =~= assoc_set(pre, addr, m));
                            lemma_assoc_set_unique(pre, addr, m);
                            lemma_assoc_set_get(pre, addr, m, addr);
                            assert forall|q: u64| q != addr implies assoc_get(self@, q)
                                == assoc_get(pre, q) by {
                                lemma_assoc_set_get(pre, addr, m, q);
                            }
                            assert forall|j: int|
                                0 <= j < self@.len() implies assoc_unique(
                                #[trigger] self@[j].1.streams,
                            ) by {
                                if j != i as int {
                                    assert(self.sessions@[j] == epre[j]);
                                    assert(self@[j].1 == pre[j].1);
                                }
                            }
                        }
                    },
                    None => {
                        proof {
                            lemma_assoc_get_none_iff(pre, addr);
                        }
                        self.sessions.push((addr, sess));
                        proof {
                            let m = session_model(self.sessions@.last().1);
                            assert(m.streams =~= Seq::<(u8, (Seq<char>, u64, u64))>::empty());
                            lemma_assoc_set_absent(pre, addr, m);
                            assert(self@ =~= assoc_set(pre, addr, m));
                            lemma_assoc_set_unique(pre, addr, m);
                            lemma_assoc_set_get(pre, addr, m, addr);
                            assert forall|q: u64| q != addr implies assoc_get(self@, q)
                                == assoc_get(pre, q) by {
                                lemma_assoc_set_get(pre, addr, m, q);
                            }
                            assert forall|j: int|
                                0 <= j < self@.len() implies assoc_unique(
                                #[trigger] self@[j].1.streams,
                            ) by {
                                if j < pre.len() {
                                    assert(self@[j].1 == pre[j].1);
                                }
                            }
                        }
                    },
                }
                out.push(BridgeAction::Reply { to: addr, msg: DownlinkMessage::Welcome });
                out
            },
            UplinkMessage::StreamStart { local_stream_id, target_peer_id, reason } => {
                match self.find(addr) {
                    Some(i) => {
                        proof {
                            lemma_assoc_get_first_match(pre, addr, i as int);
                        }
                        if target_peer_id.unicode_len() == 0 {
                            out
                        } else {
                            let peer = PeerId::new(target_peer_id);
                            out.push(
                                BridgeAction::RequestStream {
                                    local_stream_id,
                                    peer,
                                    reason,
                                },
                            );
                            out
                        }
                    },
                    None => {
                        proof {
                            lemma_assoc_get_none_iff(pre, addr);
                        }
                        out
                    },
                }
            },
            UplinkMessage::StreamData { local_stream_id, data } => {
                match self.lookup_stream(addr, local_stream_id) {
                    Some(sid) => {
                        out.push(BridgeAction::SendStreamData { stream_id: sid, data });
                        out
                    },
                    None => out,
                }
            },
            UplinkMessage::StreamClose { local_stream_id } => {
                match self.remove_stream(addr, local_stream_id) {
                    Some(sid) => {
                        out.push(BridgeAction::CloseStream { stream_id: sid });
                        out
                    },
                    None => out,
                }
            },
            UplinkMessage::ButtonPress { button_id, press_type } => {
                match self.session_device(addr) {
                    Some(device_id) => {
                        let topic = button_topic(device_id);
                        let mut fields: Vec<(String, JsonValue)> = Vec::new();
                        fields.push(
                            (String::from_str("button_id"), JsonValue::Int(button_id as i64)),
                        );
                        fields.push(
                            (String::from_str("type"), JsonValue::Text(press_name(&press_type))),
                        );
                        fields.push((String::from_str("ts"), JsonValue::Int(now as i64)));
                        let payload = JsonValue::Obj(fields);
                        proof {
                            let want = button_payload(button_id, press_type, now);
                            assert(payload@->Obj_0[0] == (fields@[0].0@, fields@[0].1@));
                            assert(payload@->Obj_0[1] == (fields@[1].0@, fields@[1].1@));
                            assert(payload@->Obj_0[2] == (fields@[2].0@, fields@[2].1@));
                            assert(payload@->Obj_0 =~= want->Obj_0);
                            assert(payload@ == want);
                        }
                        out.push(BridgeAction::Publish { topic, payload });
                        out
                    },
                    None => out,
                }
            },
            UplinkMessage::SensorUpdate { sensor_name, data } => {
                match self.session_device(addr) {
                    Some(device_id) => {
                        let topic = sensor_topic(device_id, sensor_name.as_str());
                        let value = match &data {
                            SensorValue::Temperature(x) => JsonValue::Int(*x),
                            SensorValue::Humidity(x) => JsonValue::Int(*x),
                            SensorValue::Battery(x) => JsonValue::Int(*x as i64),
                            SensorValue::Status(x) => JsonValue::Bool(*x),
                            SensorValue::Raw(x) => JsonValue::Int(*x as i64),
                        };
                        let unit = match &data {
                            SensorValue::Temperature(_) => String::from_str("C"),
                            SensorValue::Humidity(_) => String::from_str("%"),
                            _ => String::from_str(""),
                        };
                        let mut fields: Vec<(String, JsonValue)> = Vec::new();
                        let ghost gval = value@;
                        let ghost gunit = unit@;
                        fields.push((String::from_str("value"), value));
                        fields.push((String::from_str("unit"), JsonValue::Text(unit)));
                        fields.push((String::from_str("ts"), JsonValue::Int(now as i64)));
                        let payload = JsonValue::Obj(fields);
                        proof {
                            let want = sensor_payload(data, now);
                            assert(gval == sensor_value_jv(data));
                            assert(gunit == sensor_unit_text(data));
                            assert(payload@->Obj_0[0] == (fields@[0].0@, fields@[0].1@));
                            assert(payload@->Obj_0[1] == (fields@[1].0@, fields@[1].1@));
                            assert(payload@->Obj_0[2] == (fields@[2].0@, fields@[2].1@));
                            assert(payload@->Obj_0 =~= want->Obj_0);
                            assert(payload@ == want);
                        }
                        out.push(BridgeAction::Publish { topic, payload });
                        out
                    },
                    None => out,
                }
            },
        }
    }

    /// The mesh stream mapped under a device's local stream id.
    fn lookup_stream(&self, addr: u64, local: u8) -> (r: Option<StreamId>)
        ensures
            (match r {
                Some(sid) => mapped_stream(self@, addr, local) == Some(sid@),
                None => mapped_stream(self@, addr, local) is None,
            }),
    {
        match self.find(addr) {
            Some(i) => {
                proof {
                    lemma_assoc_get_first_match(self@, addr, i as int);
                }
                let sess = &self.sessions[i].1;
                let ghost sv = streams_map_view(sess.active_streams@);
                let mut k: usize = 0;
                while k < sess.active_streams.len()
                    invariant
                        k <= sess.active_streams@.len(),
                        forall|j: int| 0 <= j < k ==> sess.active_streams@[j].0 != local,
                        sv == streams_map_view(sess.active_streams@),
                        i < self@.len() && self@[i as int].0 == addr && (forall|j: int|
                            0 <= j < i ==> self@[j].0 != addr),
                        assoc_get(self@, addr) == Some(session_model(self.sessions@[i as int].1)),
                        sess == &self.sessions[i as int].1,
                    decreases sess.active_streams@.len() - k,
                {
                    if sess.active_streams[k].0 == local {
                        proof {
                            assert forall|j: int| 0 <= j < k implies sv[j].0 != local by {
                                assert(sv[j].0 == sess.active_streams@[j].0);
                            }
                            assert(sv[k as int].0 == local);
                            lemma_assoc_get_first_match(sv, local, k as int);
                        }
                        return Some(sess.active_streams[k].1.clone());
                    }
                    k += 1;
                }
                proof {
                    assert forall|j: int| 0 <= j < sv.len() implies sv[j].0 != local by {
                        assert(sv[j].0 == sess.active_streams@[j].0);
                    }
                    lemma_assoc_get_none_iff(sv, local);
                }
                None
            },
            None => {
                proof {
                    lemma_assoc_get_none_iff(self@, addr);
                }
                None
            },
        }
    }

    /// Take a device's local stream id out of its session, handing back
    /// the mapped mesh stream.
    fn remove_stream(&mut self, addr: u64, local: u8) -> (r: Option<StreamId>)
        requires
            old(self).wf(),
        ensures
            final(self).wf(),
            (match r {
                Some(sid) => mapped_stream(old(self)@, addr, local) == Some(sid@)
                    && mapped_stream(final(self)@, addr, local) is None,
                None => mapped_stream(old(self)@, addr, local) is None && final(self)@ == old(
                    self,
                )@,
            }),
            forall|q: u64| q != addr ==> assoc_get(final(self)@, q) == assoc_get(old(self)@, q),
    {
        let ghost pre = self@;
        match self.find(addr) {
            Some(i) => {
                proof {
                    lemma_assoc_get_first_match(pre, addr, i as int);
                }
                let ghost epre = self.sessions@;
                let (key, mut sess) = self.sessions.remove(i);
                let ghost spre = streams_map_view(sess.active_streams@);
                proof {
                    assert(pre[i as int].1.streams == spre);
                    assert(assoc_unique(spre));
                }
                let mut k: usize = 0;
                let mut found: Option<usize> = None;
                while k < sess.active_streams.len()
                    invariant
                        k <= sess.active_streams@.len(),
                        (match found {
                            Some(f) => f < k && sess.active_streams@[f as int].0 == local && (
                            forall|j: int| 0 <= j < f ==> sess.active_streams@[j].0 != local),
                            None => forall|j: int|
                                0 <= j < k ==> sess.active_streams@[j].0 != local,
                        }),
                    decreases sess.active_streams@.len() - k,
                {
                    if found.is_none() && sess.active_streams[k].0 == local {
                        found = Some(k);
                    }
                    k += 1;
                }
                let result = match found {
                    Some(f) => {
                        proof {
                            assert forall|j: int| 0 <= j < f implies spre[j].0 != local by {
                                assert(spre[j].0 == sess.active_streams@[j].0);
                            }
                            assert(spre[f as int].0 == local);
                            lemma_assoc_get_first_match(spre, local, f as int);
                        }
                        let (_, sid) = sess.active_streams.remove(f);
                        proof {
                            lemma_assoc_remove_at_index(spre, local, f as int);
                            assert(streams_map_view(sess.active_streams@) =~= assoc_remove(
                                spre,
                                local,
                            ));
                            let su = assoc_get(pre, addr)->Some_0.streams;
                            assert(su == spre);
                            lemma_assoc_remove_unique(spre, local);
                            crate::assoc::lemma_assoc_remove_get(spre, local, local);
                        }
                        Some(sid)
                    },
                    None => {
                        proof {
                            assert forall|j: int| 0 <= j < spre.len() implies spre[j].0
                                != local by {
                                assert(spre[j].0 == sess.active_streams@[j].0);
                            }
                            lemma_assoc_get_none_iff(spre, local);
                        }
                        None
                    },
                };
                self.sessions.insert(i, (key, sess));
                proof {
                    let m = session_model(self.sessions@[i as int].1);
                    lemma_assoc_set_at_index(pre, addr, m, i as int);
                    assert(self@ =~= assoc_set(pre, addr, m));
                    lemma_assoc_set_unique(pre, addr, m);
                    lemma_assoc_set_get(pre, addr, m, addr);
                    assert forall|q: u64| q != addr implies assoc_get(self@, q) == assoc_get(
                        pre,
                        q,
                    ) by {
                        lemma_assoc_set_get(pre, addr, m, q);
                    }
                    assert forall|j: int|
                        0 <= j < self@.len() implies assoc_unique(
                        #[trigger] self@[j].1.streams,
                    ) by {
                        if j != i as int {
                            assert(self.sessions@[j] == epre[j]);
                            assert(self@[j].1 == pre[j].1);
                        }
                    }
                    if result is None {
                        assert(self@ =~= pre);
                    }
                }
                result
            },
            None => {
                proof {
                    lemma_assoc_get_none_iff(pre, addr);
                }
                None
            },
        }
    }
}

} // verus!
