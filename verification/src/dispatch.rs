//! The dispatcher: what one inbound client frame does to the routing tables,
//! and the per-step logic of the relay and producer tasks.
//!
//! Rules, in order, for each decoded frame: a `phoenix`/`heartbeat` frame is
//! acknowledged with an ok reply; `phx_join` adds the agent, puts it into
//! the channel, opens its relay cursor and acknowledges — a join to an
//! unknown channel is answered with an error reply and changes nothing;
//! `phx_leave` destroys the agent and takes it out of the channel; and every
//! decoded frame is handed to the outside bus under `from:<topic>:<event>`.
//! A frame that does not decode — including a join or leave without a join
//! reference — is dropped and the connection stays open.

use vstd::prelude::*;

use crate::bus::{ChannelMessage, RecvOutcome};
use crate::codec::{
    dec_text, decode_request, decode_request_spec, decode_response, decode_response_spec,
    encode_request_payload, payload_json, u32_to_dec, ReplyMessage, ReplyMessageView, ReplyPayload,
    ReplyPayloadView, RequestMessageView, Response, ResponseView,
};
use crate::json::print_json;
use crate::control::ChannelControl;
use crate::json::{chars_to_string, push_chars, str_to_chars};
use vstd::string::StringExecFns;

verus! {

/// The agent id of a subscription: `conn:topic:join_ref`.
pub open spec fn agent_id_view(conn: Seq<char>, topic: Seq<char>, join_ref: Seq<char>) -> Seq<
    char,
> {
    conn + seq![':'] + topic + seq![':'] + join_ref
}

/// The outside-bus topic a client frame is published under.
pub open spec fn publish_topic_view(topic: Seq<char>, event: Seq<char>) -> Seq<char> {
    "from:"@ + topic + seq![':'] + event
}

/// A `phx_reply` frame with an empty response.
pub open spec fn reply_view(
    join_ref: Option<Seq<char>>,
    event_ref: Seq<char>,
    topic: Seq<char>,
    status: Seq<char>,
) -> ReplyMessageView {
    ReplyMessageView {
        join_ref,
        event_ref,
        topic,
        event: "phx_reply"@,
        payload: ReplyPayloadView { status, response: ResponseView::Empty },
    }
}

/// The reply every heartbeat gets: `join_ref` null, the request's
/// `event_ref` echoed, topic `phoenix`, status ok, empty response.
pub open spec fn heartbeat_reply_view(event_ref: Seq<char>) -> ReplyMessageView {
    reply_view(None, event_ref, "phoenix"@, "ok"@)
}

pub open spec fn is_heartbeat(m: RequestMessageView) -> bool {
    m.topic == "phoenix"@ && m.event == "heartbeat"@
}

pub open spec fn is_join(m: RequestMessageView) -> bool {
    m.event == "phx_join"@
}

pub open spec fn is_leave(m: RequestMessageView) -> bool {
    m.event == "phx_leave"@
}

/// A decoded frame the dispatcher acts on: a join or leave must carry a
/// join reference; without one the frame counts as malformed and is dropped.
pub open spec fn frame_actionable(m: RequestMessageView) -> bool {
    (is_join(m) || is_leave(m)) ==> m.join_ref is Some
}

/// What a relay task needs to start forwarding for a fresh subscription.
pub struct RelayStart {
    pub agent_id: String,
    pub join_ref: String,
    pub cursor: u64,
}

/// What the session shell must do after one inbound frame.
pub enum Handled {
    /// The frame did not decode (or a join/leave had no join reference):
    /// nothing changed; drop it and keep the connection.
    InvalidFrame,
    /// The frame was dispatched. Its payload goes to the outside bus under
    /// `publish_topic`; a join hands back the relay to spawn.
    Frame { publish_topic: String, publish_payload: String, relay: Option<RelayStart> },
}

fn make_agent_id(conn: &str, topic: &str, join_ref: &str) -> (r: String)
    ensures
        r@ == agent_id_view(conn@, topic@, join_ref@),
{
    let mut out = str_to_chars(conn);
    out.push(':');
    let t = str_to_chars(topic);
    push_chars(&mut out, &t);
    out.push(':');
    let j = str_to_chars(join_ref);
    push_chars(&mut out, &j);
    assert(out@ =~= agent_id_view(conn@, topic@, join_ref@));
    chars_to_string(&out)
}

fn make_publish_topic(topic: &str, event: &str) -> (r: String)
    ensures
        r@ == publish_topic_view(topic@, event@),
{
    let mut out = str_to_chars("from:");
    let t = str_to_chars(topic);
    push_chars(&mut out, &t);
    out.push(':');
    let e = str_to_chars(event);
    push_chars(&mut out, &e);
    assert(out@ =~= publish_topic_view(topic@, event@));
    chars_to_string(&out)
}

/// A `phx_reply` frame with the given status and an empty response.
fn make_reply(join_ref: Option<&String>, event_ref: &str, topic: &str, ok: bool) -> (r:
    ReplyMessage)
    ensures
        r@ == reply_view(
            match join_ref {
                Some(s) => Some(s@),
                None => None,
            },
            event_ref@,
            topic@,
            if ok {
                "ok"@
            } else {
                "error"@
            },
        ),
{
    ReplyMessage {
        join_ref: match join_ref {
            Some(s) => Some(s.clone()),
            None => None,
        },
        event_ref: String::from_str(event_ref),
        topic: String::from_str(topic),
        event: String::from_str("phx_reply"),
        payload: ReplyPayload {
            status: if ok {
                String::from_str("ok")
            } else {
                String::from_str("error")
            },
            response: Response::Empty {  },
        },
    }
}

/// Acknowledge a heartbeat: push exactly one ok reply, echoing the event
/// reference with a null join reference, onto the connection's bus.  The
/// routing tables are untouched, so any sequence of heartbeats yields one
/// reply per request and nothing else.
pub fn handle_heartbeat(ctl: &mut ChannelControl, conn_id: &str, event_ref: &str)
    requires
        old(ctl).wf(),
        old(ctl).conn_history(conn_id@).len() < u64::MAX,
    ensures
        final(ctl).wf(),
        old(ctl).has_conn(conn_id@) ==> final(ctl).conn_history(conn_id@).len() == old(ctl).conn_history(conn_id@).len() + 1 && final(ctl).conn_history(conn_id@).drop_last() == old(ctl).conn_history(conn_id@) && final(ctl).conn_history(conn_id@).last()@
            == heartbeat_reply_view(event_ref@),
        !old(ctl).has_conn(conn_id@) ==> *final(ctl) == *old(ctl),
        forall|c: Seq<char>|
            c != conn_id@ ==> (#[trigger] final(ctl).has_conn(c)) == old(ctl).has_conn(c),
        forall|c: Seq<char>|
            c != conn_id@ ==> (#[trigger] final(ctl).conn_history(c)) == old(ctl).conn_history(c),
        final(ctl).has_conn(conn_id@) == old(ctl).has_conn(conn_id@),
        ChannelControl::same_agents(old(ctl), final(ctl)),
        ChannelControl::same_channels(old(ctl), final(ctl)),
{
    let reply = make_reply(None, event_ref, "phoenix", true);
    let msg = ChannelMessage::Reply(reply);
    let ghost gm = msg;
    let ghost h0 = ctl.conn_history(conn_id@);
    let _ = ctl.conn_send(conn_id, msg);
    proof {
        assert(gm@ == heartbeat_reply_view(event_ref@));
        assert(ctl.has_conn(conn_id@) == old(ctl).has_conn(conn_id@));

        if old(ctl).has_conn(conn_id@) {
            assert(ctl.conn_history(conn_id@) == h0.push(gm));
            assert(h0.push(gm).drop_last() =~= h0);
            assert(h0.push(gm).last() == gm);
            assert(ctl.conn_history(conn_id@).len() == old(ctl).conn_history(conn_id@).len() + 1);
            assert(ctl.conn_history(conn_id@).drop_last() == old(ctl).conn_history(conn_id@));
            assert(ctl.conn_history(conn_id@).last()@ == heartbeat_reply_view(event_ref@));
        }
    }
}

/// Join a channel: create the agent's bus, put it into the channel, open
/// the relay cursor, and acknowledge — all before the relay is handed back,
/// so no broadcast after the ack can be missed.  A join to an unknown
/// channel changes nothing and is answered with an error reply.
pub fn handle_join(ctl: &mut ChannelControl, conn_id: &str, topic: &str, join_ref: &str,
    event_ref: &str) -> (r: Option<RelayStart>)
    requires
        old(ctl).wf(),
        old(ctl).conn_history(conn_id@).len() < u64::MAX,
    ensures
        final(ctl).wf(),
        // Unknown channel: an error reply and no other change.
        !old(ctl).has_channel(topic@) ==> r is None && ChannelControl::same_agents(
            old(ctl),
            final(ctl),
        ) && ChannelControl::same_channels(old(ctl), final(ctl)) && (old(ctl).has_conn(conn_id@)
            ==> final(ctl).conn_history(conn_id@).drop_last() == old(ctl).conn_history(conn_id@)
            && final(ctl).conn_history(conn_id@).len() == old(ctl).conn_history(conn_id@).len() + 1
            && final(ctl).conn_history(conn_id@).last()@ == reply_view(
            Some(join_ref@),
            event_ref@,
            topic@,
            "error"@,
        )) && (!old(ctl).has_conn(conn_id@) ==> *final(ctl) == *old(ctl)),
        // Known channel: agent added and member of the channel, relay ready,
        // ok reply acknowledged.
        old(ctl).has_channel(topic@) ==> match r {
            Some(rs) => {
                let aid = agent_id_view(conn_id@, topic@, join_ref@);
                &&& rs.agent_id@ == aid
                &&& rs.join_ref@ == join_ref@
                &&& rs.cursor as int == final(ctl).agent_history(aid).len()
                &&& final(ctl).has_agent(aid)
                &&& final(ctl).agent_history(aid) == (if old(ctl).has_agent(aid) {
                    old(ctl).agent_history(aid)
                } else {
                    Seq::<ChannelMessage>::empty()
                })
                &&& final(ctl).channel_agents(topic@) == (if old(ctl).channel_agents(
                    topic@,
                ).contains(aid) {
                    old(ctl).channel_agents(topic@)
                } else {
                    old(ctl).channel_agents(topic@).push(aid)
                })
                &&& (old(ctl).has_conn(conn_id@) ==> final(ctl).conn_history(
                    conn_id@,
                ).drop_last() == old(ctl).conn_history(conn_id@) && final(ctl).conn_history(
                    conn_id@,
                ).len() == old(ctl).conn_history(conn_id@).len() + 1 && final(ctl).conn_history(
                    conn_id@,
                ).last()@ == reply_view(Some(join_ref@), event_ref@, topic@, "ok"@))
                &&& (!old(ctl).has_conn(conn_id@) ==> ChannelControl::same_conns(
                    old(ctl),
                    final(ctl),
                ))
                &&& (forall|a: Seq<char>|
                    a != aid ==> (#[trigger] final(ctl).has_agent(a)) == old(ctl).has_agent(a))
                &&& (forall|a: Seq<char>|
                    a != aid ==> (#[trigger] final(ctl).agent_history(a)) == old(ctl).agent_history(a))
                &&& (forall|c: Seq<char>|
                    c != topic@ ==> (#[trigger] final(ctl).has_channel(c)) == old(ctl).has_channel(c))
                &&& (forall|c: Seq<char>|
                    c != topic@ ==> (#[trigger] final(ctl).channel_agents(c)) == old(ctl).channel_agents(c))
                &&& final(ctl).has_channel(topic@)
            },
            None => false,
        },
        final(ctl).has_conn(conn_id@) == old(ctl).has_conn(conn_id@),
        forall|c: Seq<char>|
            c != conn_id@ ==> (#[trigger] final(ctl).has_conn(c)) == old(ctl).has_conn(c),
        forall|c: Seq<char>|
            c != conn_id@ ==> (#[trigger] final(ctl).conn_history(c)) == old(ctl).conn_history(c),
{
    let agent_id = make_agent_id(conn_id, topic, join_ref);
    let ghost aid = agent_id@;
    let joined = ctl.channel_join(topic, agent_id.clone());
    match joined {
        Err(_) => {
            assert(ctl.conn_history(conn_id@) == old(ctl).conn_history(conn_id@));
            let reply = make_reply(Some(&String::from_str(join_ref)), event_ref, topic, false);
            let msg = ChannelMessage::Reply(reply);
            let ghost gm = msg;
            let ghost h0 = ctl.conn_history(conn_id@);
            let _ = ctl.conn_send(conn_id, msg);
            proof {
                if old(ctl).has_conn(conn_id@) {
                    assert(ctl.conn_history(conn_id@) == h0.push(gm));
                    assert(h0.push(gm).drop_last() =~= h0);
                    assert(h0.push(gm).last() == gm);
                }
            }
            None
        },
        Ok(_) => {
            let ghost g1 = *ctl;
            ctl.agent_add(agent_id.clone());
            let ghost g2 = *ctl;
            proof {
                assert(g2.channel_agents(topic@) == g1.channel_agents(topic@));
                assert(g2.has_channel(topic@) == g1.has_channel(topic@));
                assert(g2.conn_history(conn_id@) == g1.conn_history(conn_id@));
                assert(g2.has_conn(conn_id@) == g1.has_conn(conn_id@));
                assert(g1.has_agent(aid) == old(ctl).has_agent(aid));
                assert(g1.agent_history(aid) == old(ctl).agent_history(aid));
            }
            let cursor = match ctl.agent_rx(agent_id.as_str()) {
                Ok(c) => c,
                Err(_) => 0,
            };
            assert(ctl.conn_history(conn_id@) == old(ctl).conn_history(conn_id@));
            let reply = make_reply(Some(&String::from_str(join_ref)), event_ref, topic, true);
            let msg = ChannelMessage::Reply(reply);
            let ghost gm = msg;
            let ghost h0 = ctl.conn_history(conn_id@);
            let _ = ctl.conn_send(conn_id, msg);
            proof {
                if old(ctl).has_conn(conn_id@) {
                    assert(ctl.conn_history(conn_id@) == h0.push(gm));
                    assert(h0.push(gm).drop_last() =~= h0);
                    assert(h0.push(gm).last() == gm);
                }
                assert(ctl.has_agent(aid) == g2.has_agent(aid));
                assert(ctl.agent_history(aid) == g2.agent_history(aid));
                assert(ctl.channel_agents(topic@) == g2.channel_agents(topic@));
                assert(ctl.has_channel(topic@) == g2.has_channel(topic@));
                assert forall|a: Seq<char>| a != aid implies (#[trigger] ctl.has_agent(a))
                    == old(ctl).has_agent(a) && (#[trigger] ctl.agent_history(a)) == old(ctl).agent_history(a) by {
                    assert(ctl.has_conn(conn_id@) == ctl.has_conn(conn_id@));
                    assert(g1.has_agent(a) == old(ctl).has_agent(a));
                    assert(g1.agent_history(a) == old(ctl).agent_history(a));
                    assert(g2.has_agent(a) == g1.has_agent(a));
                    assert(g2.agent_history(a) == g1.agent_history(a));
                    assert(ctl.has_agent(a) == g2.has_agent(a));
                    assert(ctl.agent_history(a) == g2.agent_history(a));
                }
                assert forall|c: Seq<char>| c != topic@ implies (#[trigger] ctl.has_channel(c))
                    == old(ctl).has_channel(c) && (#[trigger] ctl.channel_agents(c)) == old(ctl).channel_agents(c) by {
                    assert(g2.has_channel(c) == g1.has_channel(c));
                    assert(g2.channel_agents(c) == g1.channel_agents(c));
                    assert(ctl.has_channel(c) == g2.has_channel(c));
                    assert(ctl.channel_agents(c) == g2.channel_agents(c));
                }
            }
            Some(
                RelayStart {
                    agent_id,
                    join_ref: String::from_str(join_ref),
                    cursor,
                },
            )
        },
    }
}

/// Leave a channel: destroy the agent's bus and take it out of the member
/// set, then acknowledge.  Idempotent on an unknown agent or channel.
pub fn handle_leave(ctl: &mut ChannelControl, conn_id: &str, topic: &str, join_ref: &str,
    event_ref: &str)
    requires
        old(ctl).wf(),
        old(ctl).conn_history(conn_id@).len() < u64::MAX,
    ensures
        final(ctl).wf(),
        !final(ctl).has_agent(agent_id_view(conn_id@, topic@, join_ref@)),
        final(ctl).channel_agents(topic@) == crate::control::remove_first(
            old(ctl).channel_agents(topic@),
            agent_id_view(conn_id@, topic@, join_ref@),
        ),
        forall|a: Seq<char>|
            a != agent_id_view(conn_id@, topic@, join_ref@) ==> (#[trigger] final(ctl).has_agent(
                a,
            )) == old(ctl).has_agent(a) && (#[trigger] final(ctl).agent_history(a)) == old(ctl).agent_history(a),
        forall|c: Seq<char>|
            c != topic@ ==> (#[trigger] final(ctl).has_channel(c)) == old(ctl).has_channel(c),
        forall|c: Seq<char>|
            c != topic@ ==> (#[trigger] final(ctl).channel_agents(c)) == old(ctl).channel_agents(
                c,
            ),
        final(ctl).has_channel(topic@) == old(ctl).has_channel(topic@),
        old(ctl).has_conn(conn_id@) ==> final(ctl).conn_history(conn_id@).drop_last() == old(ctl).conn_history(conn_id@) && final(ctl).conn_history(conn_id@).len() == old(ctl).conn_history(conn_id@).len() + 1 && final(ctl).conn_history(conn_id@).last()@
            == reply_view(Some(join_ref@), event_ref@, topic@, "ok"@),
        !old(ctl).has_conn(conn_id@) ==> ChannelControl::same_conns(old(ctl), final(ctl)),
        final(ctl).has_conn(conn_id@) == old(ctl).has_conn(conn_id@),
        forall|c: Seq<char>|
            c != conn_id@ ==> (#[trigger] final(ctl).has_conn(c)) == old(ctl).has_conn(c),
        forall|c: Seq<char>|
            c != conn_id@ ==> (#[trigger] final(ctl).conn_history(c)) == old(ctl).conn_history(c),
{
    let agent_id = make_agent_id(conn_id, topic, join_ref);
    let ghost aid = agent_id@;
    ctl.agent_rm(agent_id.as_str());
    let ghost g1 = *ctl;
    ctl.channel_leave(topic, agent_id.as_str());
    let ghost g2 = *ctl;
    proof {
        assert(g1.conn_history(conn_id@) == old(ctl).conn_history(conn_id@));
        assert(g1.has_conn(conn_id@) == old(ctl).has_conn(conn_id@));
        assert(g2.conn_history(conn_id@) == g1.conn_history(conn_id@));
        assert(g2.has_conn(conn_id@) == g1.has_conn(conn_id@));
        assert(g2.has_agent(aid) == g1.has_agent(aid));
        assert(g1.channel_agents(topic@) == old(ctl).channel_agents(topic@));
        assert(g1.has_channel(topic@) == old(ctl).has_channel(topic@));
    }
    let reply = make_reply(Some(&String::from_str(join_ref)), event_ref, topic, true);
    let msg = ChannelMessage::Reply(reply);
    let ghost gm = msg;
    let ghost h0 = ctl.conn_history(conn_id@);
    let _ = ctl.conn_send(conn_id, msg);
    proof {
        if old(ctl).has_conn(conn_id@) {
            assert(ctl.conn_history(conn_id@) == h0.push(gm));
            assert(h0.push(gm).drop_last() =~= h0);
            assert(h0.push(gm).last() == gm);
        }
        assert(ctl.has_agent(aid) == g2.has_agent(aid));
        assert(ctl.channel_agents(topic@) == g2.channel_agents(topic@));
        assert(ctl.has_channel(topic@) == g2.has_channel(topic@));
        assert forall|a: Seq<char>| a != aid implies (#[trigger] ctl.has_agent(a)) == old(ctl).has_agent(a) && (#[trigger] ctl.agent_history(a)) == old(ctl).agent_history(a) by {
            assert(g1.has_agent(a) == old(ctl).has_agent(a));
            assert(g1.agent_history(a) == old(ctl).agent_history(a));
            assert(g2.has_agent(a) == g1.has_agent(a));
            assert(g2.agent_history(a) == g1.agent_history(a));
            assert(ctl.has_agent(a) == g2.has_agent(a));
            assert(ctl.agent_history(a) == g2.agent_history(a));
        }
        assert forall|c: Seq<char>| c != topic@ implies (#[trigger] ctl.has_channel(c)) == old(ctl).has_channel(c) && (#[trigger] ctl.channel_agents(c)) == old(ctl).channel_agents(
            c,
        ) by {
            assert(g1.has_channel(c) == old(ctl).has_channel(c));
            assert(g1.channel_agents(c) == old(ctl).channel_agents(c));
            assert(g2.has_channel(c) == g1.has_channel(c));
            assert(g2.channel_agents(c) == g1.channel_agents(c));
            assert(ctl.has_channel(c) == g2.has_channel(c));
            assert(ctl.channel_agents(c) == g2.channel_agents(c));
        }
    }
}

/// Dispatch one inbound text frame, as the rules at the head of this module
/// say.  The outcome tells the session shell what outside work remains: the
/// publish to the outside bus, and the relay to spawn after a join.
pub fn handle_message(ctl: &mut ChannelControl, conn_id: &str, text: &str) -> (r: Handled)
    requires
        old(ctl).wf(),
        old(ctl).conn_history(conn_id@).len() < u64::MAX,
    ensures
        final(ctl).wf(),
        decode_request_spec(text@) is None ==> r == Handled::InvalidFrame && *final(ctl) == *old(ctl),
        match decode_request_spec(text@) {
            Some(m) => !frame_actionable(m) ==> r == Handled::InvalidFrame && *final(ctl) == *old(ctl),
            None => true,
        },
        match decode_request_spec(text@) {
            Some(m) => frame_actionable(m) ==> match r {
                Handled::Frame { publish_topic, publish_payload, relay } => {
                    &&& publish_topic@ == publish_topic_view(m.topic, m.event)
                    &&& publish_payload@ == print_json(payload_json(m.payload))
                    &&& (is_heartbeat(m) && old(ctl).has_conn(conn_id@) ==> final(ctl).conn_history(conn_id@).len() == old(ctl).conn_history(conn_id@).len() + 1
                        && final(ctl).conn_history(conn_id@).drop_last() == old(ctl).conn_history(
                        conn_id@,
                    ) && final(ctl).conn_history(conn_id@).last()@ == heartbeat_reply_view(
                        m.event_ref,
                    ))
                    &&& (is_heartbeat(m) ==> ChannelControl::same_agents(old(ctl), final(ctl))
                        && ChannelControl::same_channels(old(ctl), final(ctl)) && relay is None)
                    &&& (!is_heartbeat(m) && !is_join(m) && !is_leave(m) ==> *final(ctl) == *old(ctl) && relay is None)
                    &&& (is_join(m) && old(ctl).has_channel(m.topic) ==> relay is Some)
                    &&& (is_join(m) && !old(ctl).has_channel(m.topic) ==> relay is None
                        && ChannelControl::same_agents(old(ctl), final(ctl))
                        && ChannelControl::same_channels(old(ctl), final(ctl)))
                    &&& (is_join(m) ==> final(ctl).channel_agents(m.topic) == (if old(ctl).has_channel(m.topic) {
                        if old(ctl).channel_agents(m.topic).contains(
                            agent_id_view(conn_id@, m.topic, m.join_ref->0),
                        ) {
                            old(ctl).channel_agents(m.topic)
                        } else {
                            old(ctl).channel_agents(m.topic).push(
                                agent_id_view(conn_id@, m.topic, m.join_ref->0),
                            )
                        }
                    } else {
                        old(ctl).channel_agents(m.topic)
                    }))
                    &&& (is_join(m) && old(ctl).has_conn(conn_id@) ==> final(ctl).conn_history(
                        conn_id@,
                    ).len() == old(ctl).conn_history(conn_id@).len() + 1 && final(ctl).conn_history(conn_id@).last()@ == reply_view(
                        Some(m.join_ref->0),
                        m.event_ref,
                        m.topic,
                        if old(ctl).has_channel(m.topic) {
                            "ok"@
                        } else {
                            "error"@
                        },
                    ))
                    &&& (is_leave(m) ==> !final(ctl).has_agent(
                        agent_id_view(conn_id@, m.topic, m.join_ref->0),
                    ) && final(ctl).channel_agents(m.topic) == crate::control::remove_first(
                        old(ctl).channel_agents(m.topic),
                        agent_id_view(conn_id@, m.topic, m.join_ref->0),
                    ) && relay is None)
                },
                Handled::InvalidFrame => false,
            },
            None => true,
        },
{
    let m = match decode_request(text) {
        Some(m) => m,
        None => {
            return Handled::InvalidFrame;
        },
    };
    let is_hb = crate::codec::str_eq(m.topic.as_str(), "phoenix") && crate::codec::str_eq(
        m.event.as_str(),
        "heartbeat",
    );
    let is_jn = crate::codec::str_eq(m.event.as_str(), "phx_join");
    let is_lv = crate::codec::str_eq(m.event.as_str(), "phx_leave");
    proof {
        reveal_strlit("heartbeat");
        reveal_strlit("phx_join");
        reveal_strlit("phx_leave");
        assert("heartbeat"@.len() == 9 && "phx_join"@.len() == 8 && "phx_leave"@.len() == 9);
        assert("phx_join"@ != "phx_leave"@) by {
            assert("phx_join"@[4] == 'j' && "phx_leave"@[4] == 'l');
        }
        assert("heartbeat"@ != "phx_join"@ && "heartbeat"@ != "phx_leave"@) by {
            assert("heartbeat"@[0] == 'h' && "phx_join"@[0] == 'p' && "phx_leave"@[0] == 'p');
        }
    }
    if (is_jn || is_lv) && matches!(&m.join_ref, None) {
        return Handled::InvalidFrame;
    }
    if is_hb {
        handle_heartbeat(ctl, conn_id, m.event_ref.as_str());
    }
    let relay: Option<RelayStart> = if is_jn {
        let join_ref = match &m.join_ref {
            Some(j) => j.clone(),
            None => String::new(),
        };
        handle_join(ctl, conn_id, m.topic.as_str(), join_ref.as_str(), m.event_ref.as_str())
    } else if is_lv {
        let join_ref = match &m.join_ref {
            Some(j) => j.clone(),
            None => String::new(),
        };
        handle_leave(ctl, conn_id, m.topic.as_str(), join_ref.as_str(), m.event_ref.as_str());
        None
    } else {
        None
    };
    let publish_topic = make_publish_topic(m.topic.as_str(), m.event.as_str());
    let publish_payload = encode_request_payload(&m.payload);
    Handled::Frame { publish_topic, publish_payload, relay }
}

/// A reply as the relay forwards it: the subscription's join reference
/// stamped over whatever the broadcaster set.
pub open spec fn stamped(v: ReplyMessageView, j: Seq<char>) -> ReplyMessageView {
    ReplyMessageView {
        join_ref: Some(j),
        event_ref: v.event_ref,
        topic: v.topic,
        event: v.event,
        payload: v.payload,
    }
}

/// What one relay step did.
pub enum RelayStep {
    /// One message moved from the agent bus to the connection bus, stamped.
    Forwarded,
    /// The relay fell behind; this many messages were dropped. It resumes
    /// at the oldest retained message and keeps reading.
    Lagged(u64),
    /// Nothing pending.
    Idle,
    /// The agent's bus is gone: the subscription ended, stop forwarding.
    AgentGone,
    /// The connection's bus is gone: no receiver, stop forwarding.
    SendFailed,
}

/// One step of the per-agent relay: take the next broadcast from the agent's
/// bus, stamp the subscription's join reference on it, and push it onto the
/// connection's bus.  Messages of one agent reach the connection in broadcast
/// order, each exactly once while the relay keeps up.
pub fn relay_step(ctl: &mut ChannelControl, agent_id: &str, join_ref: &str, conn_id: &str,
    cursor: &mut u64) -> (r: RelayStep)
    requires
        old(ctl).wf(),
        *old(cursor) as int <= old(ctl).agent_history(agent_id@).len(),
        old(ctl).conn_history(conn_id@).len() < u64::MAX,
    ensures
        final(ctl).wf(),
        *final(cursor) as int <= final(ctl).agent_history(agent_id@).len(),
        ChannelControl::same_agents(old(ctl), final(ctl)),
        ChannelControl::same_channels(old(ctl), final(ctl)),
        final(ctl).has_conn(conn_id@) == old(ctl).has_conn(conn_id@),
        forall|c: Seq<char>|
            c != conn_id@ ==> (#[trigger] final(ctl).has_conn(c)) == old(ctl).has_conn(c),
        forall|c: Seq<char>|
            c != conn_id@ ==> (#[trigger] final(ctl).conn_history(c)) == old(ctl).conn_history(c),
        !old(ctl).has_agent(agent_id@) ==> r == RelayStep::AgentGone && *final(ctl) == *old(ctl)
            && *final(cursor) == *old(cursor),
        old(ctl).has_agent(agent_id@) && (*old(cursor) as int) < old(ctl).agent_window(agent_id@)
            ==> r == RelayStep::Lagged(
            (old(ctl).agent_window(agent_id@) - *old(cursor) as int) as u64,
        ) && *final(cursor) as int == old(ctl).agent_window(agent_id@) && *final(ctl) == *old(ctl),
        old(ctl).has_agent(agent_id@) && old(ctl).agent_window(agent_id@) <= *old(cursor) as int
            && (*old(cursor) as int) < old(ctl).agent_history(agent_id@).len() ==> *final(cursor)
            as int == *old(cursor) as int + 1 && (old(ctl).has_conn(conn_id@)
            ==> r == RelayStep::Forwarded && final(ctl).conn_history(conn_id@).len() == old(ctl).conn_history(conn_id@).len() + 1 && final(ctl).conn_history(conn_id@).drop_last() == old(ctl).conn_history(conn_id@) && final(ctl).conn_history(conn_id@).last()@ == stamped(
            old(ctl).agent_history(agent_id@)[*old(cursor) as int]@,
            join_ref@,
        )) && (!old(ctl).has_conn(conn_id@) ==> r == RelayStep::SendFailed
            && ChannelControl::same_conns(old(ctl), final(ctl))),
        old(ctl).has_agent(agent_id@) && *old(cursor) as int == old(ctl).agent_history(
            agent_id@).len() ==> r == RelayStep::Idle && *final(ctl) == *old(ctl) && *final(cursor)
            == *old(cursor),
{
    let got = ctl.agent_recv(agent_id, cursor);
    match got {
        Err(_) => RelayStep::AgentGone,
        Ok(RecvOutcome::Lagged(k)) => RelayStep::Lagged(k),
        Ok(RecvOutcome::Idle) => RelayStep::Idle,
        Ok(RecvOutcome::Msg(msg)) => {
            let stamped_msg = match msg {
                ChannelMessage::Reply(rm) => {
                    let mut rm = rm;
                    rm.join_ref = Some(String::from_str(join_ref));
                    ChannelMessage::Reply(rm)
                },
            };
            match ctl.conn_send(conn_id, stamped_msg) {
                Ok(_) => RelayStep::Forwarded,
                Err(_) => RelayStep::SendFailed,
            }
        },
    }
}

/// The frame a producer broadcasts for one decoded response: no join
/// reference (the relays stamp their own), the counter as event reference.
pub open spec fn produced_view(
    topic: Seq<char>,
    event: Seq<char>,
    counter: u32,
    resp: ResponseView,
) -> ReplyMessageView {
    ReplyMessageView {
        join_ref: None,
        event_ref: dec_text(counter as nat),
        topic,
        event,
        payload: ReplyPayloadView { status: "ok"@, response: resp },
    }
}

/// One step of a channel producer: decode a response from the outside bus
/// (or the in-memory stream), wrap it with the running counter as its event
/// reference and broadcast it to the channel.  Text that does not decode is
/// skipped and the counter stands still; after a broadcast the counter
/// advances whether or not anyone was subscribed.
pub fn producer_step(ctl: &mut ChannelControl, topic: &str, event: &str, counter: u32,
    text: &str) -> (r: u32)
    requires
        old(ctl).wf(),
        counter < u32::MAX,
        forall|a: Seq<char>|
            old(ctl).has_agent(a) ==> (#[trigger] old(ctl).agent_history(a)).len() < u64::MAX,
    ensures
        final(ctl).wf(),
        decode_response_spec(text@) is None ==> r == counter && *final(ctl) == *old(ctl),
        decode_response_spec(text@) is Some ==> r == counter + 1,
        ChannelControl::same_conns(old(ctl), final(ctl)),
        ChannelControl::same_channels(old(ctl), final(ctl)),
        forall|a: Seq<char>| (#[trigger] final(ctl).has_agent(a)) == old(ctl).has_agent(a),
        match decode_response_spec(text@) {
            Some(resp) => {
                &&& (forall|a: Seq<char>|
                    old(ctl).has_channel(topic@) && old(ctl).channel_agents(topic@).contains(a)
                        && old(ctl).has_agent(a) ==> (#[trigger] final(ctl).agent_history(a)).len()
                        == old(ctl).agent_history(a).len() + 1 && final(ctl).agent_history(
                        a,
                    ).drop_last() == old(ctl).agent_history(a) && final(ctl).agent_history(
                        a,
                    ).last()@ == produced_view(topic@, event@, counter, resp))
                &&& (forall|a: Seq<char>|
                    !(old(ctl).has_channel(topic@) && old(ctl).channel_agents(topic@).contains(a))
                        ==> (#[trigger] final(ctl).agent_history(a)) == old(ctl).agent_history(a))
            },
            None => true,
        },
{
    let response = match decode_response(text) {
        Some(resp) => resp,
        None => {
            return counter;
        },
    };
    let message = ReplyMessage {
        join_ref: None,
        event_ref: u32_to_dec(counter),
        topic: String::from_str(topic),
        event: String::from_str(event),
        payload: ReplyPayload { status: String::from_str("ok"), response },
    };
    let msg = ChannelMessage::Reply(message);
    let ghost gm = msg;
    let _ = ctl.channel_broadcast(topic, msg);
    proof {
        if old(ctl).has_channel(topic@) {
            assert forall|a: Seq<char>|
                old(ctl).channel_agents(topic@).contains(a) && old(ctl).has_agent(a) implies (
            #[trigger] final(ctl).agent_history(a)).len() == old(ctl).agent_history(a).len() + 1
                && final(ctl).agent_history(a).drop_last() == old(ctl).agent_history(a) && final(ctl).agent_history(a).last()@ == produced_view(
                topic@,
                event@,
                counter,
                decode_response_spec(text@)->Some_0,
            ) by {
                assert(ctl.agent_history(a) == old(ctl).agent_history(a).push(gm));
                assert(old(ctl).agent_history(a).push(gm).drop_last() =~= old(ctl).agent_history(
                    a,
                ));
            }
        }
    }
    counter + 1
}

/// One tick of the datetime producer: broadcast the clock text and the tick
/// counter to the channel.  The count of reached subscribers comes back;
/// a channel with nobody in it yields zero and is no error.
pub fn datetime_tick(ctl: &mut ChannelControl, topic: &str, datetime: String, counter: u32) -> (r:
    usize)
    requires
        old(ctl).wf(),
        forall|a: Seq<char>|
            old(ctl).has_agent(a) ==> (#[trigger] old(ctl).agent_history(a)).len() < u64::MAX,
    ensures
        final(ctl).wf(),
        ChannelControl::same_conns(old(ctl), final(ctl)),
        ChannelControl::same_channels(old(ctl), final(ctl)),
        forall|a: Seq<char>| (#[trigger] final(ctl).has_agent(a)) == old(ctl).has_agent(a),
        old(ctl).has_channel(topic@) ==> r == crate::control::live_count(
            old(ctl),
            old(ctl).channel_agents(topic@),
        ) as usize,
        !old(ctl).has_channel(topic@) ==> r == 0 && *final(ctl) == *old(ctl),
        forall|a: Seq<char>|
            old(ctl).has_channel(topic@) && old(ctl).channel_agents(topic@).contains(a) && old(ctl).has_agent(a) ==> (#[trigger] final(ctl).agent_history(a)).len() == old(ctl).agent_history(a).len() + 1 && final(ctl).agent_history(a).drop_last() == old(ctl).agent_history(a) && final(ctl).agent_history(a).last()@ == produced_view(
                topic@,
                "datetime"@,
                counter,
                ResponseView::Datetime { datetime: datetime@, counter },
            ),
        forall|a: Seq<char>|
            !(old(ctl).has_channel(topic@) && old(ctl).channel_agents(topic@).contains(a)) ==> (
            #[trigger] final(ctl).agent_history(a)) == old(ctl).agent_history(a),
{
    let message = ReplyMessage {
        join_ref: None,
        event_ref: u32_to_dec(counter),
        topic: String::from_str(topic),
        event: String::from_str("datetime"),
        payload: ReplyPayload {
            status: String::from_str("ok"),
            response: Response::Datetime { datetime, counter },
        },
    };
    let msg = ChannelMessage::Reply(message);
    let ghost gm = msg;
    let delivered = match ctl.channel_broadcast(topic, msg) {
        Ok(n) => n,
        Err(_) => 0,
    };
    proof {
        if old(ctl).has_channel(topic@) {
            assert forall|a: Seq<char>|
                old(ctl).channel_agents(topic@).contains(a) && old(ctl).has_agent(a) implies (
            #[trigger] final(ctl).agent_history(a)).len() == old(ctl).agent_history(a).len() + 1
                && final(ctl).agent_history(a).drop_last() == old(ctl).agent_history(a) && final(ctl).agent_history(a).last()@ == produced_view(
                topic@,
                "datetime"@,
                counter,
                ResponseView::Datetime { datetime: gm@.payload.response->Datetime_datetime, counter },
            ) by {
                assert(ctl.agent_history(a) == old(ctl).agent_history(a).push(gm));
                assert(old(ctl).agent_history(a).push(gm).drop_last() =~= old(ctl).agent_history(
                    a,
                ));
            }
        }
    }
    delivered
}

} // verus!
