use vstd::prelude::*;
use crate::component::{ComponentId, ComponentError, random_uuid_text, is_uuid_v4_text};
use crate::service::{ServiceId, ServiceMessageType, MessagePriority, id_views};
use crate::json::{JsonValue, Json, model};
use crate::clock::now_millis;
use crate::text::join3;
use tokio::sync::mpsc::UnboundedSender;

verus! {

/// A message between services; no receiver means a broadcast.
#[derive(Debug, Clone)]
pub struct ServiceMessage {
    pub id: String,
    pub message_type: ServiceMessageType,
    pub sender: ServiceId,
    pub receiver: Option<ServiceId>,
    pub topic: String,
    pub payload: JsonValue,
    pub priority: MessagePriority,
    /// Creation time, in milliseconds since the Unix epoch.
    pub created_at: u64,
    /// Expiry time, in milliseconds since the Unix epoch.
    pub expires_at: Option<u64>,
    pub component_id: Option<ComponentId>,
}

/// A service message as plain values: identifier, kind, sender, receiver, topic,
/// payload, priority, creation time, expiry time and component.
pub type MessageView = (Seq<char>, ServiceMessageType, Seq<char>, Option<Seq<char>>, Seq<char>, Json,
    MessagePriority, u64, Option<u64>, Option<Seq<char>>);

/// The plain values of message `m`.
pub open spec fn message_view(m: ServiceMessage) -> MessageView {
    (m.id@, m.message_type, m.sender.0@, opt_id(m.receiver), m.topic@, model(m.payload), m.priority,
        m.created_at, m.expires_at, match m.component_id { Some(c) => Some(c.0@), None => None })
}

/// Text of an optional service identifier.
pub open spec fn opt_id(r: Option<ServiceId>) -> Option<Seq<char>> {
    match r {
        Some(x) => Some(x.0@),
        None => None,
    }
}

impl ServiceMessage {
    /// A normal-priority event from `sender` to `receiver` (to every other service when
    /// there is none), with a fresh identifier, created now, never expiring.
    pub fn new(sender: ServiceId, receiver: Option<ServiceId>, topic: String, payload: JsonValue) -> (r: Self)
        ensures
            is_uuid_v4_text(r.id@),
            r.message_type == ServiceMessageType::Event,
            r.sender == sender,
            r.receiver == receiver,
            r.topic == topic,
            r.payload == payload,
            r.priority == MessagePriority::Normal,
            r.expires_at is None,
            r.component_id is None,
    {
        ServiceMessage {
            id: random_uuid_text(),
            message_type: ServiceMessageType::Event,
            sender,
            receiver,
            topic,
            payload,
            priority: MessagePriority::Normal,
            created_at: now_millis(),
            expires_at: None,
            component_id: None,
        }
    }

    /// A request from `sender` to `receiver`.
    pub fn request(sender: ServiceId, receiver: ServiceId, topic: String, payload: JsonValue) -> (r: Self)
        ensures
            is_uuid_v4_text(r.id@),
            r.message_type == ServiceMessageType::Request,
            r.sender == sender,
            r.receiver == Some(receiver),
            r.topic == topic,
            r.payload == payload,
            r.priority == MessagePriority::Normal,
            r.expires_at is None,
            r.component_id is None,
    {
        let mut m = Self::new(sender, Some(receiver), topic, payload);
        m.message_type = ServiceMessageType::Request;
        m
    }

    /// A response from `sender` to `receiver`.
    pub fn response(sender: ServiceId, receiver: ServiceId, topic: String, payload: JsonValue) -> (r: Self)
        ensures
            is_uuid_v4_text(r.id@),
            r.message_type == ServiceMessageType::Response,
            r.sender == sender,
            r.receiver == Some(receiver),
            r.topic == topic,
            r.payload == payload,
            r.priority == MessagePriority::Normal,
            r.expires_at is None,
            r.component_id is None,
    {
        let mut m = Self::new(sender, Some(receiver), topic, payload);
        m.message_type = ServiceMessageType::Response;
        m
    }

    /// An event from `sender` to every other service.
    pub fn broadcast_event(sender: ServiceId, topic: String, payload: JsonValue) -> (r: Self)
        ensures
            is_uuid_v4_text(r.id@),
            r.message_type == ServiceMessageType::Event,
            r.sender == sender,
            r.receiver is None,
            r.topic == topic,
            r.payload == payload,
            r.priority == MessagePriority::Normal,
            r.expires_at is None,
            r.component_id is None,
    {
        let mut m = Self::new(sender, None, topic, payload);
        m.message_type = ServiceMessageType::Event;
        m
    }

    /// This message with priority `priority`.
    pub fn with_priority(self, priority: MessagePriority) -> (r: Self)
        ensures
            r == (ServiceMessage { priority, ..self }),
    {
        let mut m = self;
        m.priority = priority;
        m
    }

    /// This message expiring `expiry` milliseconds from now.
    pub fn with_expiry(self, expiry: u64) -> (r: Self)
        ensures
            exists|now: u64| #[trigger] expiry_after(now, expiry) == r.expires_at,
            r == (ServiceMessage { expires_at: r.expires_at, ..self }),
    {
        let now = now_millis();
        self.with_expiry_at(now, expiry)
    }

    /// This message expiring `expiry` milliseconds after `now` (at the latest representable
    /// time when that is later).
    pub fn with_expiry_at(self, now: u64, expiry: u64) -> (r: Self)
        ensures
            r.expires_at == expiry_after(now, expiry),
            r == (ServiceMessage { expires_at: r.expires_at, ..self }),
    {
        let mut m = self;
        m.expires_at = Some(now.saturating_add(expiry));
        m
    }

    /// This message tied to component `component_id`.
    pub fn with_component(self, component_id: ComponentId) -> (r: Self)
        ensures
            r == (ServiceMessage { component_id: Some(component_id), ..self }),
    {
        let mut m = self;
        m.component_id = Some(component_id);
        m
    }

    /// A copy of this message with the same values.
    pub fn duplicate(&self) -> (r: Self)
        ensures
            message_view(r) == message_view(*self),
            r.receiver is Some <==> self.receiver is Some,
            r.expires_at == self.expires_at,
    {
        ServiceMessage {
            id: self.id.clone(),
            message_type: self.message_type,
            sender: self.sender.duplicate(),
            receiver: match &self.receiver {
                Some(x) => Some(x.duplicate()),
                None => None,
            },
            topic: self.topic.clone(),
            payload: crate::json::duplicate(&self.payload),
            priority: self.priority,
            created_at: self.created_at,
            expires_at: self.expires_at,
            component_id: match &self.component_id {
                Some(c) => Some(c.duplicate()),
                None => None,
            },
        }
    }

    /// Whether the message has expired by the system clock: whether it has expired at the
    /// time the clock gave.
    pub fn is_expired(&self) -> (r: bool)
        ensures
            self.expires_at is None ==> !r,
            exists|now: u64| r == #[trigger] self.is_expired_spec(now),
    {
        let now = now_millis();
        let r = self.is_expired_at(now);
        proof {
            assert(r == self.is_expired_spec(now));
        }
        r
    }

    /// Whether the message has expired at time `now`: it has an expiry time and `now` is past it.
    pub fn is_expired_at(&self, now: u64) -> (r: bool)
        ensures
            r == (self.expires_at matches Some(t) && now > t),
    {
        match self.expires_at {
            Some(t) => now > t,
            None => false,
        }
    }
}

/// The expiry time `expiry` milliseconds after `now`, the latest representable time
/// when that is later.
pub open spec fn expiry_after(now: u64, expiry: u64) -> Option<u64> {
    Some(if now + expiry <= u64::MAX { (now + expiry) as u64 } else { u64::MAX })
}

/// Counters of a message router.
#[derive(Debug, Clone, Copy, PartialEq, Eq, Structural)]
pub struct MessageStats {
    pub total_sent: u64,
    pub total_received: u64,
    pub total_dropped: u64,
    /// When a message was last sent, in milliseconds since the Unix epoch.
    pub last_activity: Option<u64>,
}

impl Default for MessageStats {
    /// All counters zero, no activity yet.
    fn default() -> (r: Self)
        ensures
            r == (MessageStats { total_sent: 0, total_received: 0, total_dropped: 0, last_activity: None }),
    {
        MessageStats { total_sent: 0, total_received: 0, total_dropped: 0, last_activity: None }
    }
}

/// The services that should get `m`, given the services with a channel in order:
/// the receiver alone, or for a broadcast every other service.
pub open spec fn recipients(channels: Seq<Seq<char>>, m: ServiceMessage) -> Seq<Seq<char>> {
    match m.receiver {
        Some(r) => seq![r.0@],
        None => channels.filter(|c: Seq<char>| c != m.sender.0@),
    }
}

#[verifier::external_type_specification]
#[verifier::external_body]
#[verifier::reject_recursive_types(T)]
pub struct ExUnboundedSender<T>(tokio::sync::mpsc::UnboundedSender<T>);

/// A message handed to a channel: the channel's sender and the message.
pub type Handoff = (UnboundedSender<ServiceMessage>, MessageView);

/// Hands `message` to the channel behind `sender` (tokio's `UnboundedSender::send`).
/// First: true when the channel took it, false when its receiving half was closed or
/// dropped; whether it was is not known here, so nothing is promised of it. Second: a
/// record of the channel and the message that were handed to the call.
#[verifier::external_body]
fn send_message(sender: &UnboundedSender<ServiceMessage>, message: ServiceMessage) -> (r: (bool, Ghost<Handoff>))
    ensures
        r.1@ == (*sender, message_view(message)),
{
    let handed = Ghost((*sender, message_view(message)));
    (sender.send(message).is_ok(), handed)
}

/// What a broadcast of `m` hands out among the first `n` channels `ids` / `senders`: a
/// copy to each of them but the sender's own, in order.
pub open spec fn broadcast_handoffs(ids: Seq<Seq<char>>, senders: Seq<UnboundedSender<ServiceMessage>>,
    m: ServiceMessage, n: nat) -> Seq<Handoff>
    decreases n,
{
    if n == 0 {
        Seq::empty()
    } else {
        broadcast_handoffs(ids, senders, m, (n - 1) as nat) + if ids[n - 1] != m.sender.0@ {
            seq![(senders[n - 1], message_view(m))]
        } else {
            Seq::empty()
        }
    }
}

/// What routing `m` at time `now` through router `r` hands to channels: nothing for an
/// expired message or a receiver without a channel; the message to the receiver's own
/// channel; for a broadcast, a copy to each other service's channel.
pub open spec fn route_handoffs(r: MessageRouter, m: ServiceMessage, now: u64) -> Seq<Handoff> {
    if m.is_expired_spec(now) {
        Seq::empty()
    } else {
        match m.receiver {
            Some(rid) => if r.channel_ids().contains(rid.0@) {
                seq![(r.channel_senders()[r.channel_ids().index_of(rid.0@)], message_view(m))]
            } else {
                Seq::empty()
            },
            None => broadcast_handoffs(r.channel_ids(), r.channel_senders(), m, r.channel_ids().len()),
        }
    }
}

/// The counters after one more message sent at time `now`.
pub open spec fn sent_at(s: MessageStats, now: u64) -> MessageStats {
    MessageStats { total_sent: (s.total_sent + 1) as u64, last_activity: Some(now), ..s }
}

/// The error of a message to `id` that its channel did not take.
pub open spec fn send_failed_text(id: Seq<char>) -> Seq<char> {
    "发送消息到服务 "@ + id + " 失败"@
}

/// The error of a message to `id`, which has no channel.
pub open spec fn no_channel_text(id: Seq<char>) -> Seq<char> {
    "服务 "@ + id + " 的消息通道未找到"@
}

/// Decides where service messages go, hands them to the services' channels and counts them.
pub struct MessageRouter {
    channels: Vec<ServiceId>,
    senders: Vec<UnboundedSender<ServiceMessage>>,
    stats: MessageStats,
    handed: Ghost<Seq<Handoff>>,
}

impl MessageRouter {
    /// The services with a channel, in registration order.
    pub closed spec fn channel_ids(&self) -> Seq<Seq<char>> {
        id_views(self.channels@)
    }

    /// The channel of each service, in the order of `channel_ids`.
    pub closed spec fn channel_senders(&self) -> Seq<UnboundedSender<ServiceMessage>> {
        self.senders@
    }

    /// The counters.
    pub closed spec fn counters(&self) -> MessageStats {
        self.stats
    }

    /// Every message handed to a channel so far, in order, with the channel.
    pub closed spec fn handed_off(&self) -> Seq<Handoff> {
        self.handed@
    }

    pub closed spec fn wf(&self) -> bool {
        &&& self.channel_ids().no_duplicates()
        &&& self.channels@.len() == self.senders@.len()
    }

    /// A router with no channels and zero counters.
    pub fn new() -> (r: Self)
        ensures
            r.wf(),
            r.channel_ids().len() == 0,
            r.counters() == (MessageStats { total_sent: 0, total_received: 0, total_dropped: 0, last_activity: None }),
            r.handed_off().len() == 0,
    {
        let r = MessageRouter { channels: Vec::new(), senders: Vec::new(), stats: MessageStats::default(), handed: Ghost(Seq::empty()) };
        proof {
            assert(r.channel_ids() =~= Seq::<Seq<char>>::empty());
        }
        r
    }

    /// Gives `service_id` the channel `sender`; a service registered again keeps its place
    /// and gets the new channel.
    pub fn register_channel(&mut self, service_id: ServiceId, sender: UnboundedSender<ServiceMessage>)
        requires
            old(self).wf(),
        ensures
            final(self).wf(),
            old(self).channel_ids().contains(service_id.0@) ==> {
                &&& final(self).channel_ids() == old(self).channel_ids()
                &&& final(self).channel_senders() == old(self).channel_senders().update(
                    old(self).channel_ids().index_of(service_id.0@), sender)
            },
            !old(self).channel_ids().contains(service_id.0@) ==> {
                &&& final(self).channel_ids() == old(self).channel_ids().push(service_id.0@)
                &&& final(self).channel_senders() == old(self).channel_senders().push(sender)
            },
            final(self).counters() == old(self).counters(),
            final(self).handed_off() == old(self).handed_off(),
    {
        let mut i: usize = 0;
        while i < self.channels.len()
            invariant
                0 <= i <= self.channels@.len(),
                self.channels@ == old(self).channels@,
                self.senders@ == old(self).senders@,
                self.stats == old(self).stats,
                self.handed == old(self).handed,
                self.wf(),
                forall|j: int| 0 <= j < i ==> #[trigger] self.channel_ids()[j] != service_id.0@,
            decreases self.channels.len() - i,
        {
            if self.channels[i].same_as(&service_id) {
                proof {
                    assert(self.channel_ids()[i as int] == service_id.0@);
                    self.channel_ids().index_of_first_ensures(service_id.0@);
                    assert(self.channel_ids().contains(service_id.0@));
                    let k = self.channel_ids().index_of(service_id.0@);
                    assert(self.channel_ids()[k] == service_id.0@);
                    assert(k == i);
                }
                self.senders.set(i, sender);
                return;
            }
            i = i + 1;
        }
        let ghost before = self.channel_ids();
        self.channels.push(service_id);
        self.senders.push(sender);
        proof {
            assert(self.channel_ids() =~= before.push(service_id.0@));
            assert forall|a: int, b: int| 0 <= a < b < self.channel_ids().len()
                implies self.channel_ids()[a] != self.channel_ids()[b] by {
                if b == before.len() {
                    assert(before[a] == self.channel_ids()[a]);
                }
            };
        }
    }

    /// Routes `message` by the system clock; see `route_message_at`.
    pub fn route_message(&mut self, message: ServiceMessage) -> (r: Result<Vec<ServiceId>, ComponentError>)
        requires
            old(self).wf(),
            old(self).counters().total_dropped < u64::MAX,
            old(self).counters().total_sent < u64::MAX,
        ensures
            final(self).wf(),
            final(self).channel_ids() == old(self).channel_ids(),
            final(self).channel_senders() == old(self).channel_senders(),
            exists|now: u64| #[trigger] routed_at(*old(self), *final(self), message, now, r),
    {
        let now = now_millis();
        let ghost m = message;
        let r = self.route_message_at(message, now);
        proof {
            assert(routed_at(*old(self), *self, m, now, r));
        }
        r
    }

    /// Routes `message` at time `now`. An expired message is dropped and counted. A message
    /// to one service is handed to that service's channel when it has one; a broadcast is
    /// handed to the channel of every other service, failures left aside. A message handed
    /// on is counted as sent at `now`; the result lists the services it was handed to.
    pub fn route_message_at(&mut self, message: ServiceMessage, now: u64) -> (r: Result<Vec<ServiceId>, ComponentError>)
        requires
            old(self).wf(),
            old(self).counters().total_dropped < u64::MAX,
            old(self).counters().total_sent < u64::MAX,
        ensures
            final(self).wf(),
            final(self).channel_ids() == old(self).channel_ids(),
            final(self).channel_senders() == old(self).channel_senders(),
            routed_at(*old(self), *final(self), message, now, r),
    {
        let ghost before = *self;
        if message.is_expired_at(now) {
            self.stats.total_dropped = self.stats.total_dropped + 1;
            return Err(ComponentError::CommunicationError(String::from_str("消息已过期")));
        }
        match &message.receiver {
            Some(receiver_id) => {
                let mut i: usize = 0;
                while i < self.channels.len()
                    invariant
                        0 <= i <= self.channels@.len(),
                        self.channels@ == old(self).channels@,
                        self.senders@ == old(self).senders@,
                        self.stats == old(self).stats,
                        self.handed == old(self).handed,
                        before == *old(self),
                        self.stats.total_sent < u64::MAX,
                        self.wf(),
                        !message.is_expired_spec(now),
                        message.receiver == Some(*receiver_id),
                        forall|j: int| 0 <= j < i ==> #[trigger] self.channel_ids()[j] != receiver_id.0@,
                    decreases self.channels.len() - i,
                {
                    if self.channels[i].same_as(receiver_id) {
                        proof {
                            assert(self.channel_ids()[i as int] == receiver_id.0@);
                            assert(self.channel_ids().contains(receiver_id.0@));
                            let k = self.channel_ids().index_of(receiver_id.0@);
                            assert(self.channel_ids()[k] == receiver_id.0@);
                            assert(k == i);
                        }
                        let copy = message.duplicate();
                        let (delivered, handed) = send_message(&self.senders[i], copy);
                        self.handed = Ghost(self.handed@.push(handed@));
                        let done = self.complete_route_at(&message, !delivered, now);
                        proof {
                            assert(before.channel_ids() == self.channel_ids());
                            assert(before.channel_ids().index_of(receiver_id.0@) == i);
                            assert(route_handoffs(before, message, now) == seq![(before.channel_senders()[i as int], message_view(message))]);
                            assert(self.handed@ =~= before.handed_off() + route_handoffs(before, message, now));
                        }
                        return match done {
                            Ok(()) => {
                                let mut out: Vec<ServiceId> = Vec::new();
                                out.push(receiver_id.duplicate());
                                proof {
                                    assert(id_views(out@) =~= seq![receiver_id.0@]);
                                }
                                Ok(out)
                            },
                            Err(e) => Err(e),
                        };
                    }
                    i = i + 1;
                }
                proof {
                    assert(!self.channel_ids().contains(receiver_id.0@));
                    assert(self.handed@ =~= before.handed_off() + route_handoffs(before, message, now));
                }
                Err(ComponentError::CommunicationError(join3("服务 ", receiver_id.0.as_str(), " 的消息通道未找到")))
            },
            None => {
                let ghost pred = |c: Seq<char>| c != message.sender.0@;
                let mut out: Vec<ServiceId> = Vec::new();
                let mut i: usize = 0;
                proof {
                    assert(self.channel_ids().take(0) =~= Seq::<Seq<char>>::empty());
                    reveal(Seq::filter);
                    assert(Seq::<Seq<char>>::empty().filter(pred) =~= Seq::<Seq<char>>::empty());
                    assert(self.handed@ =~= before.handed_off() + broadcast_handoffs(self.channel_ids(), self.senders@, message, 0));
                }
                while i < self.channels.len()
                    invariant
                        0 <= i <= self.channels@.len(),
                        self.channels@ == old(self).channels@,
                        self.senders@ == old(self).senders@,
                        self.stats == old(self).stats,
                        before == *old(self),
                        self.stats.total_sent < u64::MAX,
                        self.wf(),
                        !message.is_expired_spec(now),
                        message.receiver is None,
                        pred == (|c: Seq<char>| c != message.sender.0@),
                        id_views(out@) == self.channel_ids().take(i as int).filter(pred),
                        self.handed@ == before.handed_off() + broadcast_handoffs(self.channel_ids(), self.senders@, message, i as nat),
                    decreases self.channels.len() - i,
                {
                    proof {
                        assert(self.channel_ids().take(i + 1).drop_last() =~= self.channel_ids().take(i as int));
                        reveal(Seq::filter);
                        assert(self.channel_ids().take(i + 1) =~= self.channel_ids().take(i as int).push(self.channel_ids()[i as int]));
                    }
                    let ghost h0 = self.handed@;
                    if !self.channels[i].same_as(&message.sender) {
                        let copy = message.duplicate();
                        let (_, handed) = send_message(&self.senders[i], copy);
                        self.handed = Ghost(self.handed@.push(handed@));
                        let ghost before_out = out@;
                        out.push(self.channels[i].duplicate());
                        proof {
                            assert(id_views(out@) =~= id_views(before_out).push(self.channel_ids()[i as int]));
                            assert(self.handed@ =~= before.handed_off() + broadcast_handoffs(self.channel_ids(), self.senders@, message, (i + 1) as nat));
                        }
                    } else {
                        proof {
                            assert(self.handed@ =~= before.handed_off() + broadcast_handoffs(self.channel_ids(), self.senders@, message, (i + 1) as nat));
                        }
                    }
                    i = i + 1;
                }
                proof {
                    assert(self.channel_ids().take(self.channels@.len() as int) =~= self.channel_ids());
                }
                let _ = self.complete_route_at(&message, false, now);
                Ok(out)
            },
        }
    }

    /// Counts a message handed on at time `now` as sent, unless it went to one service whose
    /// channel did not take it (`delivery_failed`); failures of a broadcast do not count
    /// against it.
    pub fn complete_route_at(&mut self, message: &ServiceMessage, delivery_failed: bool, now: u64) -> (r: Result<(), ComponentError>)
        requires
            old(self).wf(),
            old(self).counters().total_sent < u64::MAX,
        ensures
            final(self).wf(),
            final(self).channel_ids() == old(self).channel_ids(),
            final(self).channel_senders() == old(self).channel_senders(),
            final(self).handed_off() == old(self).handed_off(),
            (message.receiver is Some && delivery_failed) ==> (r matches Err(e) && e matches ComponentError::CommunicationError(t)
                && t@ == send_failed_text(opt_id(message.receiver).unwrap()))
                && final(self).counters() == old(self).counters(),
            !(message.receiver is Some && delivery_failed) ==> r is Ok
                && final(self).counters() == sent_at(old(self).counters(), now),
    {
        match &message.receiver {
            Some(receiver_id) => {
                if delivery_failed {
                    return Err(ComponentError::CommunicationError(join3("发送消息到服务 ", receiver_id.0.as_str(), " 失败")));
                }
            },
            None => {},
        }
        self.stats.total_sent = self.stats.total_sent + 1;
        self.stats.last_activity = Some(now);
        Ok(())
    }

    /// The counters.
    pub fn get_stats(&self) -> (r: MessageStats)
        ensures
            r == self.counters(),
    {
        self.stats
    }
}

impl ServiceMessage {
    /// Whether the message has expired at time `now`.
    pub open spec fn is_expired_spec(&self, now: u64) -> bool {
        self.expires_at matches Some(t) && now > t
    }
}

/// Routing `m` at time `now` took `before` to `after` and gave `r`. The message was
/// handed to the channels that `route_handoffs` names, and to no other. An expired message is
/// refused and counted as dropped. A message to a service without a channel is refused,
/// the counters unchanged. A message to a service with a channel either went through,
/// is counted as sent at `now` and names that service, or its channel did not take it,
/// which is reported and leaves the counters unchanged. A broadcast goes to every other
/// service with a channel and is counted as sent at `now`.
pub open spec fn routed_at(before: MessageRouter, after: MessageRouter, m: ServiceMessage, now: u64,
    r: Result<Vec<ServiceId>, ComponentError>) -> bool {
    &&& after.handed_off() == before.handed_off() + route_handoffs(before, m, now)
    &&& routed_outcome(before, after, m, now, r)
}

/// The result and counters of routing `m` at time `now`, as `routed_at` describes them.
pub open spec fn routed_outcome(before: MessageRouter, after: MessageRouter, m: ServiceMessage, now: u64,
    r: Result<Vec<ServiceId>, ComponentError>) -> bool {
    if m.is_expired_spec(now) {
        &&& r matches Err(e) && e matches ComponentError::CommunicationError(t) && t@ == "消息已过期"@
        &&& after.counters() == (MessageStats { total_dropped: (before.counters().total_dropped + 1) as u64, ..before.counters() })
    } else {
        match m.receiver {
            Some(rid) => if before.channel_ids().contains(rid.0@) {
                ||| (r matches Ok(v) && id_views(v@) == seq![rid.0@] && after.counters() == sent_at(before.counters(), now))
                ||| (r matches Err(e) && e matches ComponentError::CommunicationError(t) && t@ == send_failed_text(rid.0@)
                    && after.counters() == before.counters())
            } else {
                &&& r matches Err(e) && e matches ComponentError::CommunicationError(t) && t@ == no_channel_text(rid.0@)
                &&& after.counters() == before.counters()
            },
            None => {
                &&& r matches Ok(v) && id_views(v@) == recipients(before.channel_ids(), m)
                &&& after.counters() == sent_at(before.counters(), now)
            },
        }
    }
}

/// A broadcast never goes back to its sender, and reaches only services with a channel:
/// every other service with a channel, each once when the channels are distinct.
pub proof fn lemma_broadcast_recipients(channels: Seq<Seq<char>>, m: ServiceMessage, x: Seq<char>)
    requires
        m.receiver is None,
    ensures
        recipients(channels, m).contains(x) <==> (channels.contains(x) && x != m.sender.0@),
        channels.no_duplicates() ==> recipients(channels, m).no_duplicates(),
    decreases channels.len(),
{
    reveal(Seq::filter);
    let pred = |c: Seq<char>| c != m.sender.0@;
    if channels.len() > 0 {
        lemma_broadcast_recipients(channels.drop_last(), m, x);
        lemma_broadcast_recipients(channels.drop_last(), m, channels.last());
        let sub = channels.drop_last().filter(pred);
        if channels.contains(x) && x != m.sender.0@ {
            let i = choose|i: int| 0 <= i < channels.len() && channels[i] == x;
            if i < channels.len() - 1 {
                assert(channels.drop_last()[i] == x);
            }
        }
        if sub.contains(x) {
            let i = choose|i: int| 0 <= i < channels.drop_last().len() && channels.drop_last()[i] == x;
            assert(channels[i] == x);
        }
        if channels.no_duplicates() {
            assert(channels.drop_last().no_duplicates());
            assert(!channels.drop_last().contains(channels.last())) by {
                if channels.drop_last().contains(channels.last()) {
                    let i = choose|i: int| 0 <= i < channels.drop_last().len() && channels.drop_last()[i] == channels.last();
                    assert(channels[i] == channels[channels.len() - 1]);
                }
            };
        }
    }
}

} // verus!
