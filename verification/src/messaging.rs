use vstd::prelude::*;
use crate::component::{ComponentId, ComponentError};
use crate::json::JsonValue;
use crate::assoc::{keys_unique, assoc_map, assoc_find, lemma_assoc_get, lemma_assoc_update, lemma_assoc_push, lemma_assoc_remove};
use crate::text::{decimal, decimal_string, join3};
use crate::routing::ServiceMessage;
use crate::json::texts;

verus! {

/// Settings of an event channel.
#[derive(Debug, Clone, Copy, PartialEq, Eq, Structural)]
pub struct EventChannelConfig {
    pub buffer_size: usize,
    pub enable_history: bool,
    pub max_history_size: usize,
    /// How long an event stays of interest, in milliseconds.
    pub event_ttl: u64,
}

impl Default for EventChannelConfig {
    /// A buffer of a thousand events, a history of a hundred, events kept a minute.
    fn default() -> (r: Self)
        ensures
            r == (EventChannelConfig { buffer_size: 1000, enable_history: true, max_history_size: 100, event_ttl: 60_000 }),
    {
        EventChannelConfig { buffer_size: 1000, enable_history: true, max_history_size: 100, event_ttl: 60_000 }
    }
}

/// The kind of event a filter can select.
#[derive(Debug, Clone, PartialEq, Eq)]
pub enum EventTypeFilter {
    MouseClick,
    MouseHover,
    KeyboardInput,
    WindowEvent,
    DataUpdate,
    ConfigChanged,
    StateChanged,
    Custom(String),
}

impl EventTypeFilter {
    /// A copy of this kind filter: it selects the same event kinds.
    pub fn duplicate(&self) -> (r: Self)
        ensures
            forall|e: EventKind| type_selects(r, e) == type_selects(*self, e),
    {
        match self {
            EventTypeFilter::MouseClick => EventTypeFilter::MouseClick,
            EventTypeFilter::MouseHover => EventTypeFilter::MouseHover,
            EventTypeFilter::KeyboardInput => EventTypeFilter::KeyboardInput,
            EventTypeFilter::WindowEvent => EventTypeFilter::WindowEvent,
            EventTypeFilter::DataUpdate => EventTypeFilter::DataUpdate,
            EventTypeFilter::ConfigChanged => EventTypeFilter::ConfigChanged,
            EventTypeFilter::StateChanged => EventTypeFilter::StateChanged,
            EventTypeFilter::Custom(name) => EventTypeFilter::Custom(name.clone()),
        }
    }
}

/// What a filter reads of a component event: its kind, and for a custom event its type name.
#[derive(Debug)]
pub enum EventKind {
    MouseClick,
    MouseHover,
    KeyboardInput,
    WindowEvent,
    DataUpdate,
    ConfigChanged,
    StateChanged,
    Custom { event_type: String },
}

/// A named filter condition, kept as a JSON document.
#[derive(Debug, Clone)]
pub struct CustomFilter {
    pub name: String,
    pub condition: JsonValue,
}

/// A condition on component events.
#[derive(Debug)]
pub enum EventFilter {
    /// Events of one kind.
    EventType(EventTypeFilter),
    /// Events from one component; events carry no source yet, so every event passes.
    ComponentId(ComponentId),
    /// A custom condition; it is not evaluated, so every event passes.
    Custom(CustomFilter),
    /// Events that pass every filter of the list.
    And(Vec<EventFilter>),
    /// Events that pass some filter of the list.
    Or(Vec<EventFilter>),
    /// Events that the inner filter rejects.
    Not(Box<EventFilter>),
}

/// Whether a kind filter selects event kind `e`.
pub open spec fn type_selects(f: EventTypeFilter, e: EventKind) -> bool {
    match (f, e) {
        (EventTypeFilter::MouseClick, EventKind::MouseClick) => true,
        (EventTypeFilter::MouseHover, EventKind::MouseHover) => true,
        (EventTypeFilter::KeyboardInput, EventKind::KeyboardInput) => true,
        (EventTypeFilter::WindowEvent, EventKind::WindowEvent) => true,
        (EventTypeFilter::DataUpdate, EventKind::DataUpdate) => true,
        (EventTypeFilter::ConfigChanged, EventKind::ConfigChanged) => true,
        (EventTypeFilter::StateChanged, EventKind::StateChanged) => true,
        (EventTypeFilter::Custom(name), EventKind::Custom { event_type }) => name@ == event_type@,
        _ => false,
    }
}

/// Whether filter `f` lets event kind `e` through.
pub open spec fn passes(f: EventFilter, e: EventKind) -> bool
    decreases f, 1int,
{
    match f {
        EventFilter::EventType(t) => type_selects(t, e),
        EventFilter::ComponentId(_) => true,
        EventFilter::Custom(_) => true,
        EventFilter::And(fs) => all_pass(fs@, e),
        EventFilter::Or(fs) => any_passes(fs@, e),
        EventFilter::Not(inner) => !passes(*inner, e),
    }
}

/// Whether every filter of `fs` lets `e` through.
pub open spec fn all_pass(fs: Seq<EventFilter>, e: EventKind) -> bool
    decreases fs, 0int,
{
    if fs.len() == 0 {
        true
    } else {
        all_pass(fs.drop_last(), e) && passes(fs.last(), e)
    }
}

/// Whether some filter of `fs` lets `e` through.
pub open spec fn any_passes(fs: Seq<EventFilter>, e: EventKind) -> bool
    decreases fs, 0int,
{
    if fs.len() == 0 {
        false
    } else {
        any_passes(fs.drop_last(), e) || passes(fs.last(), e)
    }
}

proof fn lemma_all_any(fs: Seq<EventFilter>, e: EventKind)
    ensures
        all_pass(fs, e) <==> forall|i: int| 0 <= i < fs.len() ==> #[trigger] passes(fs[i], e),
        any_passes(fs, e) <==> exists|i: int| 0 <= i < fs.len() && #[trigger] passes(fs[i], e),
    decreases fs.len(),
{
    if fs.len() > 0 {
        let init = fs.drop_last();
        lemma_all_any(init, e);
        if all_pass(fs, e) {
            assert forall|i: int| 0 <= i < fs.len() implies #[trigger] passes(fs[i], e) by {
                if i < fs.len() - 1 {
                    assert(init[i] == fs[i]);
                    assert(passes(init[i], e));
                }
            };
        }
        if forall|i: int| 0 <= i < fs.len() ==> #[trigger] passes(fs[i], e) {
            assert forall|i: int| 0 <= i < init.len() implies #[trigger] passes(init[i], e) by {
                assert(init[i] == fs[i]);
                assert(passes(fs[i], e));
            };
            assert(passes(fs[fs.len() - 1], e));
        }
        if exists|i: int| 0 <= i < fs.len() && #[trigger] passes(fs[i], e) {
            let i = choose|i: int| 0 <= i < fs.len() && #[trigger] passes(fs[i], e);
            if i < fs.len() - 1 {
                assert(init[i] == fs[i]);
                assert(passes(init[i], e));
            }
        }
        if any_passes(init, e) {
            let i = choose|i: int| 0 <= i < init.len() && #[trigger] passes(init[i], e);
            assert(init[i] == fs[i]);
            assert(passes(fs[i], e));
        }
        if passes(fs.last(), e) {
            assert(passes(fs[fs.len() - 1], e));
        }
    }
}

/// A kind filter lets through exactly the events of its own kind: each fixed kind
/// selects that kind and no other, and a custom kind selects the custom events of the
/// same type name.
pub proof fn lemma_kind_filter_selects_own_kind(e: EventKind)
    ensures
        passes(EventFilter::EventType(EventTypeFilter::MouseClick), e) <==> e is MouseClick,
        passes(EventFilter::EventType(EventTypeFilter::MouseHover), e) <==> e is MouseHover,
        passes(EventFilter::EventType(EventTypeFilter::KeyboardInput), e) <==> e is KeyboardInput,
        passes(EventFilter::EventType(EventTypeFilter::WindowEvent), e) <==> e is WindowEvent,
        passes(EventFilter::EventType(EventTypeFilter::DataUpdate), e) <==> e is DataUpdate,
        passes(EventFilter::EventType(EventTypeFilter::ConfigChanged), e) <==> e is ConfigChanged,
        passes(EventFilter::EventType(EventTypeFilter::StateChanged), e) <==> e is StateChanged,
        forall|name: String| #[trigger] passes(EventFilter::EventType(EventTypeFilter::Custom(name)), e) <==>
            (e is Custom && e->event_type@ == name@),
{
}

/// How filters combine: a conjunction lets an event through when every filter of its
/// list does, a disjunction when some filter does, a negation when its inner filter
/// does not; a component filter and a custom filter let every event through.
pub proof fn lemma_filter_combinators(fs: Vec<EventFilter>, inner: EventFilter, c: ComponentId, cf: CustomFilter, e: EventKind)
    ensures
        passes(EventFilter::And(fs), e) <==> forall|i: int| 0 <= i < fs@.len() ==> #[trigger] passes(fs@[i], e),
        passes(EventFilter::Or(fs), e) <==> exists|i: int| 0 <= i < fs@.len() && #[trigger] passes(fs@[i], e),
        passes(EventFilter::Not(Box::new(inner)), e) <==> !passes(inner, e),
        passes(EventFilter::ComponentId(c), e),
        passes(EventFilter::Custom(cf), e),
{
    lemma_all_any(fs@, e);
}

impl Clone for EventFilter {
    /// A deep copy, as `duplicate` makes it.
    fn clone(&self) -> (r: Self) {
        self.duplicate()
    }
}

impl EventFilter {
    /// A deep copy of this filter: it lets the same events through.
    pub fn duplicate(&self) -> (r: Self)
        ensures
            forall|e: EventKind| passes(r, e) == passes(*self, e),
        decreases self,
    {
        match self {
            EventFilter::EventType(t) => {
                let d = t.duplicate();
                let r = EventFilter::EventType(d);
                proof {
                    assert forall|e: EventKind| passes(r, e) == passes(*self, e) by {
                        assert(type_selects(d, e) == type_selects(*t, e));
                        assert(passes(r, e) == type_selects(d, e));
                        assert(passes(*self, e) == type_selects(*t, e));
                    };
                }
                r
            },
            EventFilter::ComponentId(c) => EventFilter::ComponentId(c.duplicate()),
            EventFilter::Custom(c) => EventFilter::Custom(CustomFilter { name: c.name.clone(), condition: crate::json::duplicate(&c.condition) }),
            EventFilter::And(fs) => {
                let v = duplicate_all(self, fs);
                let r = EventFilter::And(v);
                proof {
                    assert forall|e: EventKind| passes(r, e) == passes(*self, e) by {
                        assert(all_pass(v@, e) == all_pass(fs@, e));
                    };
                }
                r
            },
            EventFilter::Or(fs) => {
                let v = duplicate_all(self, fs);
                let r = EventFilter::Or(v);
                proof {
                    assert forall|e: EventKind| passes(r, e) == passes(*self, e) by {
                        assert(any_passes(v@, e) == any_passes(fs@, e));
                    };
                }
                r
            },
            EventFilter::Not(inner) => {
                proof {
                    assert(decreases_to!(*self => **inner));
                }
                let d = inner.duplicate();
                let r = EventFilter::Not(Box::new(d));
                proof {
                    assert forall|e: EventKind| passes(r, e) == passes(*self, e) by {
                        assert(passes(d, e) == passes(**inner, e));
                    };
                }
                r
            },
        }
    }
}

/// Deep copies of the filters `fs` that `parent` holds, in order.
fn duplicate_all(parent: &EventFilter, fs: &Vec<EventFilter>) -> (r: Vec<EventFilter>)
    requires
        *parent == EventFilter::And(*fs) || *parent == EventFilter::Or(*fs),
    ensures
        r@.len() == fs@.len(),
        forall|i: int, e: EventKind| 0 <= i < fs@.len() ==> #[trigger] passes(r@[i], e) == passes(fs@[i], e),
        forall|e: EventKind| #[trigger] all_pass(r@, e) == all_pass(fs@, e),
        forall|e: EventKind| #[trigger] any_passes(r@, e) == any_passes(fs@, e),
    decreases parent, 0int,
{
    let mut out: Vec<EventFilter> = Vec::new();
    let mut i: usize = 0;
    while i < fs.len()
        invariant
            *parent == EventFilter::And(*fs) || *parent == EventFilter::Or(*fs),
            0 <= i <= fs@.len(),
            out@.len() == i,
            forall|k: int, e: EventKind| 0 <= k < i ==> #[trigger] passes(out@[k], e) == passes(fs@[k], e),
        decreases fs.len() - i,
    {
        proof {
            if *parent == EventFilter::And(*fs) {
                assert(decreases_to!(*parent => parent->And_0));
            } else {
                assert(decreases_to!(*parent => parent->Or_0));
            }
            assert(decreases_to!(*fs => fs@));
            assert(decreases_to!(fs@ => fs@[i as int]));
            assert(decreases_to!(*parent => fs@[i as int]));
        }
        let d = fs[i].duplicate();
        out.push(d);
        i = i + 1;
    }
    proof {
        assert forall|e: EventKind| all_pass(out@, e) == all_pass(fs@, e) && any_passes(out@, e) == any_passes(fs@, e) by {
            lemma_all_any(out@, e);
            lemma_all_any(fs@, e);
            if all_pass(fs@, e) {
                assert forall|k: int| 0 <= k < out@.len() implies #[trigger] passes(out@[k], e) by {
                    assert(passes(fs@[k], e));
                };
            }
            if all_pass(out@, e) {
                assert forall|k: int| 0 <= k < fs@.len() implies #[trigger] passes(fs@[k], e) by {
                    assert(passes(out@[k], e));
                };
            }
            if any_passes(fs@, e) {
                let k = choose|k: int| 0 <= k < fs@.len() && #[trigger] passes(fs@[k], e);
                assert(passes(out@[k], e));
            }
            if any_passes(out@, e) {
                let k = choose|k: int| 0 <= k < out@.len() && #[trigger] passes(out@[k], e);
                assert(passes(fs@[k], e));
            }
        };
    }
    out
}

impl EventFilter {
    /// Whether this filter lets an event of kind `event` through.
    pub fn matches(&self, event: &EventKind) -> (r: bool)
        ensures
            r == passes(*self, *event),
        decreases self,
    {
        match self {
            EventFilter::EventType(filter) => {
                match (filter, event) {
                    (EventTypeFilter::MouseClick, EventKind::MouseClick) => true,
                    (EventTypeFilter::MouseHover, EventKind::MouseHover) => true,
                    (EventTypeFilter::KeyboardInput, EventKind::KeyboardInput) => true,
                    (EventTypeFilter::WindowEvent, EventKind::WindowEvent) => true,
                    (EventTypeFilter::DataUpdate, EventKind::DataUpdate) => true,
                    (EventTypeFilter::ConfigChanged, EventKind::ConfigChanged) => true,
                    (EventTypeFilter::StateChanged, EventKind::StateChanged) => true,
                    (EventTypeFilter::Custom(name), EventKind::Custom { event_type }) => *name == *event_type,
                    _ => false,
                }
            },
            EventFilter::ComponentId(_) => true,
            EventFilter::Custom(_) => true,
            EventFilter::And(filters) => {
                proof {
                    lemma_all_any(filters@, *event);
                }
                let mut i: usize = 0;
                while i < filters.len()
                    invariant
                        *self == EventFilter::And(*filters),
                        0 <= i <= filters@.len(),
                        forall|j: int| 0 <= j < i ==> #[trigger] passes(filters@[j], *event),
                    decreases filters.len() - i,
                {
                    proof {
                        assert(decreases_to!(*self => self->And_0));
                        assert(decreases_to!(*filters => filters@));
                        assert(decreases_to!(filters@ => filters@[i as int]));
                    }
                    if !filters[i].matches(event) {
                        proof {
                            assert(!passes(filters@[i as int], *event));
                            lemma_all_any(filters@, *event);
                        }
                        return false;
                    }
                    i = i + 1;
                }
                true
            },
            EventFilter::Or(filters) => {
                proof {
                    lemma_all_any(filters@, *event);
                }
                let mut i: usize = 0;
                while i < filters.len()
                    invariant
                        *self == EventFilter::Or(*filters),
                        0 <= i <= filters@.len(),
                        forall|j: int| 0 <= j < i ==> !#[trigger] passes(filters@[j], *event),
                    decreases filters.len() - i,
                {
                    proof {
                        assert(decreases_to!(*self => self->Or_0));
                        assert(decreases_to!(*filters => filters@));
                        assert(decreases_to!(filters@ => filters@[i as int]));
                    }
                    if filters[i].matches(event) {
                        proof {
                            assert(passes(filters@[i as int], *event));
                            lemma_all_any(filters@, *event);
                        }
                        return true;
                    }
                    i = i + 1;
                }
                false
            },
            EventFilter::Not(filter) => {
                proof {
                    assert(decreases_to!(*self => self->Not_0));
                }
                !filter.matches(event)
            },
        }
    }
}

/// Negating a filter twice selects the same events; an empty conjunction selects
/// every event and an empty disjunction none.
pub proof fn lemma_filter_algebra(f: EventFilter, e: EventKind, none: Vec<EventFilter>)
    requires
        none@.len() == 0,
    ensures
        passes(EventFilter::Not(Box::new(EventFilter::Not(Box::new(f)))), e) == passes(f, e),
        passes(EventFilter::And(none), e),
        !passes(EventFilter::Or(none), e),
{
    reveal_with_fuel(passes, 3);
    assert(all_pass(none@, e));
    assert(!any_passes(none@, e));
}

/// Why a non-blocking receive got no event.
#[derive(Debug, Clone, Copy, PartialEq, Eq, Structural)]
pub enum ReceiveFailure {
    /// No event is waiting.
    Empty,
    /// The channel is closed.
    Closed,
    /// This many events were missed.
    Lagged(u64),
}

/// The error a receive that got no event reports.
pub fn receive_error(failure: ReceiveFailure) -> (r: ComponentError)
    ensures
        r matches ComponentError::CommunicationError(m) && m@ == match failure {
            ReceiveFailure::Empty => "没有新事件"@,
            ReceiveFailure::Closed => "事件通道已关闭"@,
            ReceiveFailure::Lagged(n) => "事件接收滞后 "@ + decimal(n as nat) + " 个事件"@,
        },
{
    match failure {
        ReceiveFailure::Empty => ComponentError::CommunicationError(String::from_str("没有新事件")),
        ReceiveFailure::Closed => ComponentError::CommunicationError(String::from_str("事件通道已关闭")),
        ReceiveFailure::Lagged(n) => {
            let count = decimal_string(n);
            ComponentError::CommunicationError(join3("事件接收滞后 ", count.as_str(), " 个事件"))
        },
    }
}

/// The bookkeeping of an event channel: filters per component, subscriber count, settings.
pub struct EventChannel {
    filters: Vec<(ComponentId, Vec<EventFilter>)>,
    subscriber_count: usize,
    config: EventChannelConfig,
}

impl EventChannel {
    /// The filters of each component that has some.
    pub closed spec fn filter_map(&self) -> Map<Seq<char>, Seq<EventFilter>> {
        assoc_map(self.filters@).map_values(|v: Vec<EventFilter>| v@)
    }

    /// Number of subscriptions made.
    pub closed spec fn subscribers(&self) -> nat {
        self.subscriber_count as nat
    }

    /// The settings of this channel.
    pub closed spec fn settings(&self) -> EventChannelConfig {
        self.config
    }

    pub closed spec fn wf(&self) -> bool {
        keys_unique(self.filters@)
    }

    /// A channel with no filters and no subscribers.
    pub fn new(config: EventChannelConfig) -> (r: Self)
        ensures
            r.wf(),
            r.filter_map() == Map::<Seq<char>, Seq<EventFilter>>::empty(),
            r.subscribers() == 0,
            r.settings() == config,
    {
        let r = EventChannel { filters: Vec::new(), subscriber_count: 0, config };
        proof {
            assert(r.filter_map() =~= Map::<Seq<char>, Seq<EventFilter>>::empty());
        }
        r
    }

    /// Counts a new subscription by `component_id`.
    pub fn subscribe(&mut self, component_id: ComponentId) -> (r: Result<ComponentId, ComponentError>)
        requires
            old(self).wf(),
            old(self).subscribers() < usize::MAX,
        ensures
            final(self).wf(),
            r matches Ok(id) && id == component_id,
            final(self).subscribers() == old(self).subscribers() + 1,
            final(self).filter_map() == old(self).filter_map(),
            final(self).settings() == old(self).settings(),
    {
        self.subscriber_count = self.subscriber_count + 1;
        Ok(component_id)
    }

    /// Adds `filter` after the filters `component_id` already has.
    pub fn add_filter(&mut self, component_id: ComponentId, filter: EventFilter)
        requires
            old(self).wf(),
        ensures
            final(self).wf(),
            final(self).filter_map() == old(self).filter_map().insert(component_id.0@,
                (if old(self).filter_map().dom().contains(component_id.0@) { old(self).filter_map()[component_id.0@] } else { Seq::empty() }).push(filter)),
            final(self).subscribers() == old(self).subscribers(),
            final(self).settings() == old(self).settings(),
    {
        let ghost f0 = self.filters@;
        let ghost k = component_id.0@;
        match assoc_find(&self.filters, &component_id) {
            Some(i) => {
                proof {
                    lemma_assoc_get(f0, i as int);
                }
                let mut entry: (ComponentId, Vec<EventFilter>) = (ComponentId::new(String::new()), Vec::new());
                self.filters.set_and_swap(i, &mut entry);
                let ghost before = entry.1@;
                entry.1.push(filter);
                self.filters.set(i, (component_id, entry.1));
                proof {
                    assert(self.filters@ =~= f0.update(i as int, self.filters@[i as int]));
                    lemma_assoc_update(f0, i as int, self.filters@[i as int]);
                    assert(self.filter_map() =~= assoc_map(f0).map_values(|v: Vec<EventFilter>| v@).insert(k, before.push(filter)));
                }
            },
            None => {
                let mut v: Vec<EventFilter> = Vec::new();
                v.push(filter);
                self.filters.push((component_id, v));
                proof {
                    lemma_assoc_push(f0, self.filters@.last());
                    assert(self.filters@ == f0.push(self.filters@.last()));
                    assert(self.filter_map() =~= assoc_map(f0).map_values(|v: Vec<EventFilter>| v@).insert(k, Seq::empty().push(filter)));
                }
            },
        }
    }

    /// Drops every filter of `component_id`.
    pub fn remove_filters(&mut self, component_id: &ComponentId)
        requires
            old(self).wf(),
        ensures
            final(self).wf(),
            final(self).filter_map() == old(self).filter_map().remove(component_id.0@),
            final(self).subscribers() == old(self).subscribers(),
            final(self).settings() == old(self).settings(),
    {
        let ghost f0 = self.filters@;
        match assoc_find(&self.filters, component_id) {
            Some(i) => {
                self.filters.remove(i);
                proof {
                    lemma_assoc_remove(f0, i as int);
                    assert(self.filter_map() =~= assoc_map(f0).map_values(|v: Vec<EventFilter>| v@).remove(component_id.0@));
                }
            },
            None => {
                proof {
                    assert(self.filter_map() =~= self.filter_map().remove(component_id.0@));
                }
            },
        }
    }

    /// Number of subscriptions made.
    pub fn subscriber_count(&self) -> (r: usize)
        ensures
            r == self.subscribers(),
    {
        self.subscriber_count
    }
}

/// Counters of a message bus.
#[derive(Debug, Clone, Copy, PartialEq, Eq, Structural)]
pub struct MessageBusStats {
    pub component_events_processed: u64,
    pub service_messages_processed: u64,
    pub errors_count: u64,
    /// When a service message was last sent, in milliseconds since the Unix epoch.
    pub last_activity: Option<u64>,
}

/// What the message bus decides for one service message taken from its queue.
#[derive(Debug, Clone, Copy, PartialEq, Eq, Structural)]
pub enum Dispatch {
    /// The bus is stopped: the handling loop ends.
    Stop,
    /// Hand the message to the handler registered for its topic.
    ToHandler,
    /// No handler takes the topic: the message is dropped with a warning.
    NoHandler,
}

/// The bookkeeping of the message bus: whether it runs, which topics have a handler,
/// whether the service queue was taken, and its counters.
pub struct MessageBus {
    handler_topics: Vec<String>,
    is_running: bool,
    receiver_taken: bool,
    stats: MessageBusStats,
}

impl MessageBus {
    /// Topics with a handler, in registration order.
    pub closed spec fn topics(&self) -> Seq<Seq<char>> {
        self.handler_topics@.map_values(|t: String| t@)
    }

    /// Whether the bus runs.
    pub closed spec fn running(&self) -> bool {
        self.is_running
    }

    /// Whether the service queue was handed to the handling loop.
    pub closed spec fn taken(&self) -> bool {
        self.receiver_taken
    }

    /// The counters.
    pub closed spec fn counters(&self) -> MessageBusStats {
        self.stats
    }

    pub closed spec fn wf(&self) -> bool {
        self.topics().no_duplicates()
    }

    /// A stopped bus with no handlers and zero counters.
    pub fn new() -> (r: Self)
        ensures
            r.wf(),
            r.topics().len() == 0,
            !r.running(),
            !r.taken(),
            r.counters() == (MessageBusStats { component_events_processed: 0, service_messages_processed: 0, errors_count: 0, last_activity: None }),
    {
        let r = MessageBus {
            handler_topics: Vec::new(),
            is_running: false,
            receiver_taken: false,
            stats: MessageBusStats { component_events_processed: 0, service_messages_processed: 0, errors_count: 0, last_activity: None },
        };
        proof {
            assert(r.topics() =~= Seq::<Seq<char>>::empty());
        }
        r
    }

    /// Starts the bus and hands its service queue to the handling loop; refused when it
    /// already runs, or when the queue was handed out before.
    pub fn start(&mut self) -> (r: Result<(), ComponentError>)
        requires
            old(self).wf(),
        ensures
            final(self).wf(),
            old(self).running() ==> (r matches Err(e) && e matches ComponentError::StateError(m) && m@ == "消息总线已在运行"@)
                && final(self).running() && final(self).taken() == old(self).taken(),
            !old(self).running() && old(self).taken() ==> (r matches Err(e) && e matches ComponentError::StateError(m) && m@ == "服务消息接收器已被获取"@)
                && final(self).running() && final(self).taken(),
            !old(self).running() && !old(self).taken() ==> r is Ok && final(self).running() && final(self).taken(),
            final(self).topics() == old(self).topics(),
            final(self).counters() == old(self).counters(),
    {
        if self.is_running {
            return Err(ComponentError::StateError(String::from_str("消息总线已在运行")));
        }
        self.is_running = true;
        if self.receiver_taken {
            return Err(ComponentError::StateError(String::from_str("服务消息接收器已被获取")));
        }
        self.receiver_taken = true;
        Ok(())
    }

    /// Stops the bus.
    pub fn stop(&mut self) -> (r: Result<(), ComponentError>)
        requires
            old(self).wf(),
        ensures
            final(self).wf(),
            r is Ok,
            !final(self).running(),
            final(self).taken() == old(self).taken(),
            final(self).topics() == old(self).topics(),
            final(self).counters() == old(self).counters(),
    {
        self.is_running = false;
        Ok(())
    }

    fn find_topic(&self, topic: &String) -> (r: Option<usize>)
        ensures
            match r {
                Some(i) => i < self.topics().len() && self.topics()[i as int] == topic@,
                None => !self.topics().contains(topic@),
            },
    {
        let mut i: usize = 0;
        while i < self.handler_topics.len()
            invariant
                0 <= i <= self.handler_topics@.len(),
                forall|j: int| 0 <= j < i ==> #[trigger] self.topics()[j] != topic@,
            decreases self.handler_topics.len() - i,
        {
            if self.handler_topics[i] == *topic {
                return Some(i);
            }
            i = i + 1;
        }
        None
    }

    /// Registers a handler for `topic`, replacing any earlier one.
    pub fn register_handler(&mut self, topic: String)
        requires
            old(self).wf(),
        ensures
            final(self).wf(),
            final(self).topics() == (if old(self).topics().contains(topic@) { old(self).topics() } else { old(self).topics().push(topic@) }),
            final(self).running() == old(self).running(),
            final(self).taken() == old(self).taken(),
            final(self).counters() == old(self).counters(),
    {
        match self.find_topic(&topic) {
            Some(_) => {},
            None => {
                let ghost before = self.topics();
                self.handler_topics.push(topic);
                proof {
                    assert(self.topics() =~= before.push(self.handler_topics@.last()@));
                }
            },
        }
    }

    /// Drops the handler of `topic`.
    pub fn unregister_handler(&mut self, topic: &str)
        requires
            old(self).wf(),
        ensures
            final(self).wf(),
            final(self).topics() == without_topic(old(self).topics(), topic@),
            final(self).running() == old(self).running(),
            final(self).taken() == old(self).taken(),
            final(self).counters() == old(self).counters(),
    {
        let ghost before = self.topics();
        let key = String::from_str(topic);
        match self.find_topic(&key) {
            Some(i) => {
                self.handler_topics.remove(i);
                proof {
                    lemma_filter_remove_unique(before, i as int, topic@);
                    assert(self.topics() =~= before.remove(i as int));
                }
            },
            None => {
                proof {
                    lemma_filter_absent(before, topic@);
                }
            },
        }
    }

    /// What to do with a service message of topic `topic` taken from the queue.
    pub fn dispatch(&self, topic: &str) -> (r: Dispatch)
        ensures
            r == (if !self.running() { Dispatch::Stop } else if self.topics().contains(topic@) { Dispatch::ToHandler } else { Dispatch::NoHandler }),
    {
        if !self.is_running {
            return Dispatch::Stop;
        }
        let key = String::from_str(topic);
        match self.find_topic(&key) {
            Some(_) => Dispatch::ToHandler,
            None => Dispatch::NoHandler,
        }
    }

    /// Counts a handler that failed on a message.
    pub fn record_handler_error(&mut self)
        requires
            old(self).counters().errors_count < u64::MAX,
        ensures
            final(self).counters() == (MessageBusStats { errors_count: (old(self).counters().errors_count + 1) as u64, ..old(self).counters() }),
            final(self).topics() == old(self).topics(),
            final(self).running() == old(self).running(),
            final(self).taken() == old(self).taken(),
    {
        self.stats.errors_count = self.stats.errors_count + 1;
    }

    /// Counts a service message queued at time `now`.
    pub fn record_service_message(&mut self, now: u64)
        requires
            old(self).counters().service_messages_processed < u64::MAX,
        ensures
            final(self).counters() == (MessageBusStats {
                service_messages_processed: (old(self).counters().service_messages_processed + 1) as u64,
                last_activity: Some(now),
                ..old(self).counters()
            }),
            final(self).topics() == old(self).topics(),
            final(self).running() == old(self).running(),
            final(self).taken() == old(self).taken(),
    {
        self.stats.service_messages_processed = self.stats.service_messages_processed + 1;
        self.stats.last_activity = Some(now);
    }

    /// The counters.
    pub fn get_stats(&self) -> (r: MessageBusStats)
        ensures
            r == self.counters(),
    {
        self.stats
    }
}

/// `s` without the entries equal to `x`.
pub open spec fn without_topic(s: Seq<Seq<char>>, x: Seq<char>) -> Seq<Seq<char>> {
    s.filter(|t: Seq<char>| t != x)
}

proof fn lemma_filter_absent(s: Seq<Seq<char>>, x: Seq<char>)
    requires
        !s.contains(x),
    ensures
        without_topic(s, x) == s,
    decreases s.len(),
{
    reveal(Seq::filter);
    if s.len() > 0 {
        assert(!s.drop_last().contains(x)) by {
            if s.drop_last().contains(x) {
                let i = choose|i: int| 0 <= i < s.drop_last().len() && s.drop_last()[i] == x;
                assert(s[i] == x);
            }
        };
        lemma_filter_absent(s.drop_last(), x);
        assert(s.last() != x);
        assert(s.drop_last().push(s.last()) =~= s);
    }
}

proof fn lemma_filter_remove_unique(s: Seq<Seq<char>>, i: int, x: Seq<char>)
    requires
        0 <= i < s.len(),
        s[i] == x,
        s.no_duplicates(),
    ensures
        without_topic(s, x) == s.remove(i),
    decreases s.len(),
{
    reveal(Seq::filter);
    let init = s.drop_last();
    if i == s.len() - 1 {
        assert(!init.contains(x)) by {
            if init.contains(x) {
                let j = choose|j: int| 0 <= j < init.len() && init[j] == x;
                assert(s[j] == s[i]);
            }
        };
        lemma_filter_absent(init, x);
        assert(s.remove(i) =~= init);
    } else {
        assert(init.no_duplicates());
        lemma_filter_remove_unique(init, i, x);
        assert(s.last() != x) by {
            assert(s[s.len() - 1] != s[i]);
        };
        assert(s.remove(i) =~= init.remove(i).push(s.last()));
    }
}

/// Something that handles service messages of some topics, implemented by the users
/// of the library.
pub trait MessageHandler {
    /// Whether this handler can take `message`.
    spec fn accepts(&self, message: ServiceMessage) -> bool;

    /// Handles `message`.
    fn handle_message(&self, message: ServiceMessage) -> (r: Result<(), ComponentError>)
        requires
            self.accepts(message),
    ;

    /// The handler's name.
    fn name(&self) -> (r: &str);

    /// The topics the handler takes.
    fn supported_topics(&self) -> (r: Vec<String>);
}

/// A message handler made of a name, its topics and a function.
pub struct SimpleMessageHandler<F> {
    name: String,
    topics: Vec<String>,
    handler_fn: F,
}

impl<F: Fn(ServiceMessage) -> Result<(), ComponentError>> SimpleMessageHandler<F> {
    /// The handler's name.
    pub closed spec fn label(&self) -> Seq<char> {
        self.name@
    }

    /// The topics the handler takes.
    pub closed spec fn topic_texts(&self) -> Seq<Seq<char>> {
        texts(self.topics@)
    }

    /// The function that handles each message.
    pub closed spec fn function(&self) -> F {
        self.handler_fn
    }

    /// A handler called `name` for `topics` that hands each message to `handler_fn`.
    pub fn new(name: String, topics: Vec<String>, handler_fn: F) -> (r: Self)
        ensures
            r.label() == name@,
            r.topic_texts() == texts(topics@),
            r.function() == handler_fn,
    {
        SimpleMessageHandler { name, topics, handler_fn }
    }
}

impl<F: Fn(ServiceMessage) -> Result<(), ComponentError>> MessageHandler for SimpleMessageHandler<F> {
    /// The function accepts the message.
    open spec fn accepts(&self, message: ServiceMessage) -> bool {
        call_requires(self.function(), (message,))
    }

    /// The function's answer.
    fn handle_message(&self, message: ServiceMessage) -> (r: Result<(), ComponentError>)
        ensures
            call_ensures(self.function(), (message,), r),
    {
        (self.handler_fn)(message)
    }

    fn name(&self) -> (r: &str)
        ensures
            r@ == self.label(),
    {
        self.name.as_str()
    }

    fn supported_topics(&self) -> (r: Vec<String>)
        ensures
            texts(r@) == self.topic_texts(),
    {
        let mut out: Vec<String> = Vec::new();
        let mut i: usize = 0;
        while i < self.topics.len()
            invariant
                0 <= i <= self.topics@.len(),
                texts(out@) == texts(self.topics@.take(i as int)),
            decreases self.topics.len() - i,
        {
            proof {
                assert(texts(self.topics@.take(i + 1)) =~= texts(self.topics@.take(i as int)).push(self.topics@[i as int]@));
            }
            let ghost before = out@;
            out.push(self.topics[i].clone());
            proof {
                assert(texts(out@) =~= texts(before).push(self.topics@[i as int]@));
            }
            i = i + 1;
        }
        proof {
            assert(self.topics@.take(self.topics@.len() as int) =~= self.topics@);
        }
        out
    }
}

} // verus!
