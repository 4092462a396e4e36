use vstd::prelude::*;
use crate::component::ComponentId;
use crate::clock::now_millis;
use crate::json::{
    JsonValue, Json, model, entry_models, obj_find, obj_index, obj_get, obj_insert,
    set_path, split_dot, split_path, texts, chars_of, parse_index_chars,
    out_of_range_text, get_path, lookup, lemma_entry_models,
    lemma_entry_models_update, lemma_entry_models_push, lemma_models, lemma_models_update,
};
use crate::text::{decimal, decimal_string};
use crate::component::ComponentError;
use crate::assoc::{keys_unique, assoc_map, assoc_find, lemma_assoc_get, lemma_assoc_update, lemma_assoc_push, lemma_assoc_remove, lemma_same_keys, lemma_assoc_len};
use crate::json::duplicate;

verus! {

/// Kind of change recorded for a component's state.
#[derive(Debug, Clone, Copy, PartialEq, Eq, Structural)]
pub enum StateChangeType {
    Created,
    Updated,
    Deleted,
    Reset,
    BatchUpdate,
}

/// Text of each key/value pair of `tags`.
pub open spec fn tag_view(tags: Seq<(String, String)>) -> Seq<(Seq<char>, Seq<char>)> {
    tags.map_values(|t: (String, String)| (t.0@, t.1@))
}

/// Position of the first pair of `tags` whose key is `k`.
pub open spec fn tag_index(tags: Seq<(Seq<char>, Seq<char>)>, k: Seq<char>) -> Option<int>
    decreases tags.len(),
{
    if tags.len() == 0 {
        None
    } else if tags[0].0 == k {
        Some(0)
    } else {
        match tag_index(tags.drop_first(), k) {
            Some(i) => Some(i + 1),
            None => None,
        }
    }
}

/// `tags` with `k` mapped to `v`: an existing key keeps its place, a new one goes last.
pub open spec fn tag_insert(tags: Seq<(Seq<char>, Seq<char>)>, k: Seq<char>, v: Seq<char>) -> Seq<(Seq<char>, Seq<char>)> {
    match tag_index(tags, k) {
        Some(i) => tags.update(i, (k, v)),
        None => tags.push((k, v)),
    }
}

proof fn lemma_tag_index(tags: Seq<(Seq<char>, Seq<char>)>, k: Seq<char>)
    ensures
        match tag_index(tags, k) {
            Some(i) => 0 <= i < tags.len() && tags[i].0 == k && forall|j: int| 0 <= j < i ==> #[trigger] tags[j].0 != k,
            None => forall|j: int| 0 <= j < tags.len() ==> #[trigger] tags[j].0 != k,
        },
    decreases tags.len(),
{
    if tags.len() > 0 && tags[0].0 != k {
        lemma_tag_index(tags.drop_first(), k);
        assert forall|j: int| 0 < j < tags.len() implies tags.drop_first()[j - 1] == #[trigger] tags[j] by {};
    }
}

/// Position of the first pair of `tags` whose key is `key`.
fn tag_find(tags: &Vec<(String, String)>, key: &String) -> (r: Option<usize>)
    ensures
        match tag_index(tag_view(tags@), key@) {
            Some(i) => 0 <= i < tags.len() && r == Some(i as usize),
            None => r is None,
        },
{
    let ghost tv = tag_view(tags@);
    proof {
        lemma_tag_index(tv, key@);
    }
    let mut j: usize = 0;
    while j < tags.len()
        invariant
            0 <= j <= tags@.len(),
            tv == tag_view(tags@),
            forall|i: int| 0 <= i < j ==> #[trigger] tags@[i].0@ != key@,
            match tag_index(tv, key@) {
                Some(i) => 0 <= i < tv.len() && tv[i].0 == key@ && forall|x: int| 0 <= x < i ==> #[trigger] tv[x].0 != key@,
                None => forall|x: int| 0 <= x < tv.len() ==> #[trigger] tv[x].0 != key@,
            },
        decreases tags.len() - j,
    {
        if tags[j].0 == *key {
            proof {
                assert(tv[j as int].0 == key@);
                match tag_index(tv, key@) {
                    Some(i) => {
                        if i < j {
                            assert(tv[i].0 == tags@[i].0@);
                        }
                    },
                    None => {},
                }
            }
            return Some(j);
        }
        j = j + 1;
    }
    proof {
        match tag_index(tv, key@) {
            Some(i) => {
                assert(tv[i].0 == tags@[i].0@);
            },
            None => {},
        }
    }
    None
}

/// A component's state at one moment, with a version and free-form tags.
#[derive(Debug)]
pub struct ComponentStateSnapshot {
    pub component_id: ComponentId,
    pub state_data: JsonValue,
    /// Milliseconds since the Unix epoch when the snapshot was taken.
    pub timestamp: u64,
    pub version: u64,
    pub tags: Vec<(String, String)>,
}

impl ComponentStateSnapshot {
    /// A snapshot taken now, with no tags.
    pub fn new(component_id: ComponentId, state_data: JsonValue, version: u64) -> (r: Self)
        ensures
            r.component_id == component_id,
            r.state_data == state_data,
            r.version == version,
            r.tags@.len() == 0,
    {
        let timestamp = now_millis();
        Self::new_at(component_id, state_data, version, timestamp)
    }

    /// A snapshot taken at `timestamp`, with no tags.
    pub fn new_at(component_id: ComponentId, state_data: JsonValue, version: u64, timestamp: u64) -> (r: Self)
        ensures
            r.component_id == component_id,
            r.state_data == state_data,
            r.version == version,
            r.timestamp == timestamp,
            r.tags@.len() == 0,
    {
        ComponentStateSnapshot { component_id, state_data, timestamp, version, tags: Vec::new() }
    }

    /// This snapshot with the tag `key` set to `value`.
    pub fn with_tag(self, key: String, value: String) -> (r: Self)
        ensures
            r.component_id == self.component_id,
            r.state_data == self.state_data,
            r.version == self.version,
            r.timestamp == self.timestamp,
            tag_view(r.tags@) == tag_insert(tag_view(self.tags@), key@, value@),
    {
        let mut s = self;
        let ghost before = tag_view(s.tags@);
        match tag_find(&s.tags, &key) {
            Some(j) => {
                s.tags.set(j, (key, value));
                proof {
                    assert(tag_view(s.tags@) =~= before.update(j as int, (key@, value@)));
                }
            },
            None => {
                s.tags.push((key, value));
                proof {
                    assert(tag_view(s.tags@) =~= before.push((key@, value@)));
                }
            },
        }
        s
    }

    /// The value at `field_path` in the state data, where each dot-separated piece
    /// selects an object member by key or an array element by index.
    pub fn get_field(&self, field_path: &str) -> (r: Option<&JsonValue>)
        ensures
            match lookup(model(self.state_data), split_dot(field_path@)) {
                Some(j) => r is Some && model(*r.unwrap()) == j,
                None => r is None,
            },
    {
        get_path(&self.state_data, field_path)
    }

    /// Sets the value at `field_path` in the state data. Object members missing on
    /// the way are created as empty objects; an array index must already exist.
    pub fn set_field(&mut self, field_path: &str, value: JsonValue) -> (r: Result<(), String>)
        ensures
            model(final(self).state_data) == set_path(model(old(self).state_data), split_dot(field_path@), 0, model(value)).0,
            match set_path(model(old(self).state_data), split_dot(field_path@), 0, model(value)).1 {
                Some(e) => r matches Err(t) && t@ == e,
                None => r is Ok,
            },
            final(self).component_id == old(self).component_id,
            final(self).timestamp == old(self).timestamp,
            final(self).version == old(self).version,
            final(self).tags == old(self).tags,
    {
        let parts = split_path(field_path);
        proof {
            crate::json::lemma_split_dot_nonempty(field_path@);
        }
        if parts.len() == 0 {
            return Err(String::from_str("字段路径不能为空"));
        }
        Self::set_field_recursive(&mut self.state_data, &parts, 0, value)
    }

    /// Sets the value at `parts[index..]` inside `current`.
    fn set_field_recursive(current: &mut JsonValue, parts: &Vec<String>, index: usize, value: JsonValue) -> (r: Result<(), String>)
        ensures
            model(*final(current)) == set_path(model(*old(current)), texts(parts@), index as int, model(value)).0,
            match set_path(model(*old(current)), texts(parts@), index as int, model(value)).1 {
                Some(e) => r matches Err(t) && t@ == e,
                None => r is Ok,
            },
        decreases parts@.len() - index,
    {
        proof {
            reveal_strlit("索引超出范围");
            reveal_strlit("无效的数组索引");
            reveal_strlit("无法在非对象/数组类型上设置字段");
        }
        if index >= parts.len() {
            return Err(String::from_str("索引超出范围"));
        }
        let ghost ps = texts(parts@);
        let ghost vm = model(value);
        proof {
            assert(ps[index as int] == parts@[index as int]@);
        }
        let part = &parts[index];
        let last = index == parts.len() - 1;
        let mut taken = JsonValue::Null;
        std::mem::swap(current, &mut taken);
        match taken {
            JsonValue::Object(mut m) => {
                let ghost before = m@;
                proof {
                    lemma_entry_models(before);
                }
                let r = match obj_find(&m, part) {
                    Some(j) => {
                        proof {
                            assert(obj_get(entry_models(before), part@) == Some(model(before[j as int].1)));
                        }
                        if last {
                            m.set(j, (part.clone(), value));
                            proof {
                                lemma_entry_models_update(before, j as int, m@[j as int]);
                                assert(obj_index(entry_models(before), part@) == Some(j as int));
                                assert(entry_models(m@) == entry_models(before).update(j as int, (part@, vm)));
                                assert(obj_insert(entry_models(before), part@, vm) == entry_models(before).update(j as int, (part@, vm)));
                                assert(set_path(model(*old(current)), ps, index as int, vm).0 == Json::Object(entry_models(m@)));
                            }
                            Ok(())
                        } else {
                            let mut entry: (String, JsonValue) = (String::new(), JsonValue::Null);
                            m.set_and_swap(j, &mut entry);
                            let ghost old_child = entry.1;
                            proof {
                                assert(old_child == before[j as int].1);
                            }
                            let r = Self::set_field_recursive(&mut entry.1, parts, index + 1, value);
                            let ghost new_child = entry.1;
                            proof {
                                assert(model(new_child) == set_path(model(old_child), ps, index + 1, vm).0);
                            }
                            m.set(j, (part.clone(), entry.1));
                            proof {
                                assert(m@ =~= before.update(j as int, m@[j as int]));
                                lemma_entry_models_update(before, j as int, m@[j as int]);
                                assert(m@[j as int].1 == new_child);
                                assert(obj_index(entry_models(before), part@) == Some(j as int));
                                assert(index as int != ps.len() - 1);
                                assert(obj_get(entry_models(before), ps[index as int]) == Some(model(old_child)));
                                assert(set_path(model(*old(current)), ps, index as int, vm) == (
                                    Json::Object(obj_insert(entry_models(before), part@, set_path(model(old_child), ps, index + 1, vm).0)),
                                    set_path(model(old_child), ps, index + 1, vm).1));
                                assert(obj_insert(entry_models(before), part@, model(new_child)) == entry_models(m@));
                                assert(set_path(model(*old(current)), ps, index as int, vm).0 == Json::Object(entry_models(m@)));
                            }
                            r
                        }
                    },
                    None => {
                        if last {
                            m.push((part.clone(), value));
                            proof {
                                lemma_entry_models_push(before, m@.last());
                                assert(m@ == before.push(m@.last()));
                                assert(set_path(model(*old(current)), ps, index as int, vm).0 == Json::Object(entry_models(m@)));
                            }
                            Ok(())
                        } else {
                            let mut child = JsonValue::Object(Vec::new());
                            proof {
                                assert(model(child) == Json::Object(Seq::empty()));
                            }
                            let r = Self::set_field_recursive(&mut child, parts, index + 1, value);
                            m.push((part.clone(), child));
                            proof {
                                lemma_entry_models_push(before, m@.last());
                                assert(m@ == before.push(m@.last()));
                                assert(set_path(model(*old(current)), ps, index as int, vm).0 == Json::Object(entry_models(m@)));
                            }
                            r
                        }
                    },
                };
                proof {
                    assert(model(*old(current)) == Json::Object(entry_models(before)));
                    assert(model(JsonValue::Object(m)) == Json::Object(entry_models(m@)));
                    assert(set_path(model(*old(current)), ps, index as int, vm).0 == Json::Object(entry_models(m@)));
                }
                *current = JsonValue::Object(m);
                r
            },
            JsonValue::Array(mut a) => {
                let ghost before = a@;
                proof {
                    lemma_models(before);
                }
                let pc = chars_of(part.as_str());
                let r = match parse_index_chars(&pc) {
                    Some(i) => {
                        if i < a.len() {
                            if last {
                                a.set(i, value);
                                proof {
                                    lemma_models_update(before, i as int, value);
                                }
                                Ok(())
                            } else {
                                let mut child = JsonValue::Null;
                                a.set_and_swap(i, &mut child);
                                let r = Self::set_field_recursive(&mut child, parts, index + 1, value);
                                a.set(i, child);
                                proof {
                                    assert(a@ =~= before.update(i as int, child));
                                    lemma_models_update(before, i as int, child);
                                }
                                r
                            }
                        } else {
                            Err(out_of_range_text(i))
                        }
                    },
                    None => Err(String::from_str("无效的数组索引")),
                };
                *current = JsonValue::Array(a);
                r
            },
            other => {
                *current = other;
                Err(String::from_str("无法在非对象/数组类型上设置字段"))
            },
        }
    }
}

/// A snapshot as plain values: component, state, time, version, tags.
pub open spec fn snap_view(s: ComponentStateSnapshot) -> (Seq<char>, Json, u64, u64, Seq<(Seq<char>, Seq<char>)>) {
    (s.component_id.0@, model(s.state_data), s.timestamp, s.version, tag_view(s.tags@))
}

impl ComponentStateSnapshot {
    /// A deep copy of this snapshot.
    pub fn duplicate(&self) -> (r: Self)
        ensures
            snap_view(r) == snap_view(*self),
    {
        let mut tags: Vec<(String, String)> = Vec::new();
        let mut i: usize = 0;
        while i < self.tags.len()
            invariant
                0 <= i <= self.tags@.len(),
                tags@.len() == i,
                forall|j: int| 0 <= j < i ==> #[trigger] tags@[j].0@ == self.tags@[j].0@ && tags@[j].1@ == self.tags@[j].1@,
            decreases self.tags.len() - i,
        {
            tags.push((self.tags[i].0.clone(), self.tags[i].1.clone()));
            i = i + 1;
        }
        proof {
            assert(tag_view(tags@) =~= tag_view(self.tags@));
        }
        ComponentStateSnapshot {
            component_id: self.component_id.duplicate(),
            state_data: duplicate(&self.state_data),
            timestamp: self.timestamp,
            version: self.version,
            tags,
        }
    }
}

/// Settings of a state manager.
#[derive(Debug, Clone, Copy, PartialEq, Eq, Structural)]
pub struct StateManagerConfig {
    /// Time between automatic snapshots, in milliseconds; none means no automatic snapshots.
    pub auto_snapshot_interval: Option<u64>,
    pub event_channel_buffer: usize,
    pub enable_validation: bool,
    pub max_history_size: usize,
}

impl Default for StateManagerConfig {
    /// A snapshot every five minutes, a thousand events buffered, validation on, a
    /// history of a hundred changes.
    fn default() -> (r: Self)
        ensures
            r == (StateManagerConfig {
                auto_snapshot_interval: Some(300_000),
                event_channel_buffer: 1000,
                enable_validation: true,
                max_history_size: 100,
            }),
    {
        StateManagerConfig {
            auto_snapshot_interval: Some(300_000),
            event_channel_buffer: 1000,
            enable_validation: true,
            max_history_size: 100,
        }
    }
}

/// A change to a component's state.
#[derive(Debug)]
pub struct StateChangeEvent {
    pub component_id: ComponentId,
    pub change_type: StateChangeType,
    pub old_state: Option<JsonValue>,
    pub new_state: JsonValue,
    /// When the change happened, in milliseconds since the Unix epoch.
    pub timestamp: u64,
    pub reason: String,
}

/// A change as plain values: component, kind, old and new state, time, reason.
pub type EventView = (Seq<char>, StateChangeType, Option<Json>, Json, u64, Seq<char>);

pub open spec fn opt_model(v: Option<JsonValue>) -> Option<Json> {
    match v {
        Some(j) => Some(model(j)),
        None => None,
    }
}

pub open spec fn event_view(e: StateChangeEvent) -> EventView {
    (e.component_id.0@, e.change_type, opt_model(e.old_state), model(e.new_state), e.timestamp, e.reason@)
}

pub open spec fn event_views(h: Seq<StateChangeEvent>) -> Seq<EventView> {
    h.map_values(|e: StateChangeEvent| event_view(e))
}

impl StateChangeEvent {
    /// A deep copy of this change.
    pub fn duplicate(&self) -> (r: Self)
        ensures
            event_view(r) == event_view(*self),
    {
        StateChangeEvent {
            component_id: self.component_id.duplicate(),
            change_type: self.change_type,
            old_state: match &self.old_state {
                Some(v) => Some(duplicate(v)),
                None => None,
            },
            new_state: duplicate(&self.new_state),
            timestamp: self.timestamp,
            reason: self.reason.clone(),
        }
    }
}

/// `h` cut to its last `max` entries.
pub open spec fn keep_last<T>(h: Seq<T>, max: nat) -> Seq<T> {
    if h.len() > max { h.skip(h.len() - max) } else { h }
}

/// Where `e` goes among `s` (latest first) when inserted after every change that is
/// not older than it.
pub open spec fn newest_pos(s: Seq<EventView>, e: EventView) -> int
    decreases s.len(),
{
    if s.len() == 0 {
        0
    } else if s.last().4 >= e.4 {
        s.len() as int
    } else {
        newest_pos(s.drop_last(), e)
    }
}

/// `s` ordered latest first, changes at the same time keeping their relative order.
pub open spec fn newest_first(s: Seq<EventView>) -> Seq<EventView>
    decreases s.len(),
{
    if s.len() == 0 {
        s
    } else {
        let sorted = newest_first(s.drop_last());
        sorted.insert(newest_pos(sorted, s.last()), s.last())
    }
}

/// The changes of `h` concerning `k`, or all of them when no component is named.
pub open spec fn changes_of(h: Seq<EventView>, k: Option<Seq<char>>) -> Seq<EventView> {
    match k {
        Some(id) => h.filter(|e: EventView| e.0 == id),
        None => h,
    }
}

/// A new state must not be null when validation is on.
pub open spec fn state_refused(config: StateManagerConfig, state: Json) -> bool {
    config.enable_validation && state == Json::Null
}

/// The change that setting `k` to `state` at time `now` records, given the states before.
pub open spec fn set_change(states: Map<Seq<char>, Json>, k: Seq<char>, state: Json, reason: Seq<char>, now: u64) -> EventView {
    (k,
        if states.dom().contains(k) { StateChangeType::Updated } else { StateChangeType::Created },
        if states.dom().contains(k) { Some(states[k]) } else { None },
        state, now, reason)
}

/// Current states, version counters and recent changes of components.
pub struct StateManager {
    current_states: Vec<(ComponentId, JsonValue)>,
    version_counters: Vec<(ComponentId, u64)>,
    config: StateManagerConfig,
    change_history: Vec<StateChangeEvent>,
}

impl StateManager {
    /// Current state of each component.
    pub closed spec fn states(&self) -> Map<Seq<char>, Json> {
        assoc_map(self.current_states@).map_values(|v: JsonValue| model(v))
    }

    /// Version counter of each component.
    pub closed spec fn versions(&self) -> Map<Seq<char>, u64> {
        assoc_map(self.version_counters@)
    }

    /// Recent changes, oldest first.
    pub closed spec fn history(&self) -> Seq<EventView> {
        event_views(self.change_history@)
    }

    /// The settings.
    pub closed spec fn settings(&self) -> StateManagerConfig {
        self.config
    }

    pub closed spec fn wf(&self) -> bool {
        &&& keys_unique(self.current_states@)
        &&& keys_unique(self.version_counters@)
        &&& self.change_history@.len() <= self.config.max_history_size
    }

    /// The version counter of `k`, 0 when it has none.
    pub open spec fn version_of(&self, k: Seq<char>) -> u64 {
        if self.versions().dom().contains(k) { self.versions()[k] } else { 0 }
    }

    /// A manager with no states and no history.
    pub fn new(config: StateManagerConfig) -> (r: Self)
        ensures
            r.wf(),
            r.states() == Map::<Seq<char>, Json>::empty(),
            r.versions() == Map::<Seq<char>, u64>::empty(),
            r.history().len() == 0,
            r.settings() == config,
    {
        let r = StateManager { current_states: Vec::new(), version_counters: Vec::new(), config, change_history: Vec::new() };
        proof {
            assert(r.states() =~= Map::<Seq<char>, Json>::empty());
        }
        r
    }

    /// Appends `event` to the history, dropping the oldest changes beyond the limit.
    fn add_to_history(&mut self, event: StateChangeEvent)
        requires
            old(self).wf(),
        ensures
            final(self).wf(),
            final(self).history() == keep_last(old(self).history().push(event_view(event)), old(self).settings().max_history_size as nat),
            final(self).states() == old(self).states(),
            final(self).versions() == old(self).versions(),
            final(self).settings() == old(self).settings(),
            final(self).current_states == old(self).current_states,
            final(self).version_counters == old(self).version_counters,
    {
        let ghost h0 = self.history();
        let ghost v = event_view(event);
        self.change_history.push(event);
        proof {
            assert(self.history() =~= h0.push(v));
        }
        if self.change_history.len() > self.config.max_history_size {
            let excess = self.change_history.len() - self.config.max_history_size;
            let ghost h1 = self.change_history@;
            let kept = self.change_history.split_off(excess);
            self.change_history = kept;
            proof {
                assert(self.history() =~= h0.push(v).skip(excess as int));
            }
        }
    }

    /// Index of the current state of `id`.
    fn find_state(&self, id: &ComponentId) -> (r: Option<usize>)
        requires
            self.wf(),
        ensures
            match r {
                Some(i) => i < self.current_states@.len() && self.current_states@[i as int].0.0@ == id.0@
                    && self.states().dom().contains(id.0@) && self.states()[id.0@] == model(self.current_states@[i as int].1),
                None => !self.states().dom().contains(id.0@),
            },
    {
        let r = assoc_find(&self.current_states, id);
        proof {
            match r {
                Some(i) => {
                    lemma_assoc_get(self.current_states@, i as int);
                },
                None => {},
            }
        }
        r
    }

    /// The current state of `id`.
    pub fn get_state(&self, id: &ComponentId) -> (r: Option<JsonValue>)
        requires
            self.wf(),
        ensures
            match r {
                Some(v) => self.states().dom().contains(id.0@) && model(v) == self.states()[id.0@],
                None => !self.states().dom().contains(id.0@),
            },
    {
        match self.find_state(id) {
            Some(i) => Some(duplicate(&self.current_states[i].1)),
            None => None,
        }
    }

    /// Sets the state of `id` at the system clock's time; see `set_state_at`.
    pub fn set_state(&mut self, component_id: ComponentId, state: JsonValue, reason: String)
        -> (r: Result<(StateChangeEvent, ComponentStateSnapshot), ComponentError>)
        requires
            old(self).wf(),
            old(self).version_of(component_id.0@) < u64::MAX,
        ensures
            r is Ok ==> version_effect(*old(self), *final(self), StateCall::SetState, component_id.0@),
            r is Err ==> version_effect(*old(self), *final(self), StateCall::SetRefused, component_id.0@),
            final(self).wf(),
            r is Err <==> state_refused(old(self).settings(), model(state)),
            r is Err ==> final(self).states() == old(self).states() && final(self).versions() == old(self).versions()
                && final(self).history() == old(self).history(),
            r matches Err(e) ==> e matches ComponentError::StateError(m) && m@ == "状态不能为null"@,
            r is Ok ==> final(self).states() == old(self).states().insert(component_id.0@, model(state))
                && final(self).versions() == old(self).versions().insert(component_id.0@, (old(self).version_of(component_id.0@) + 1) as u64),
            r matches Ok((ev, snap)) ==> exists|now: u64| #[trigger] set_recorded(*old(self), *final(self), component_id.0@, model(state), reason@, now, ev, snap),
            final(self).settings() == old(self).settings(),
    {
        let now = now_millis();
        self.set_state_at(component_id, state, reason, now)
    }

    /// Sets the state of `id` at time `now`: refused for a null state when validation
    /// is on; otherwise the state is stored, the version counter goes up by one, the
    /// change (created or updated) joins the history, and the change and a snapshot of
    /// the new state at the new version are handed back to be published and saved.
    pub fn set_state_at(&mut self, component_id: ComponentId, state: JsonValue, reason: String, now: u64)
        -> (r: Result<(StateChangeEvent, ComponentStateSnapshot), ComponentError>)
        requires
            old(self).wf(),
            old(self).version_of(component_id.0@) < u64::MAX,
        ensures
            r is Ok ==> version_effect(*old(self), *final(self), StateCall::SetState, component_id.0@),
            r is Err ==> version_effect(*old(self), *final(self), StateCall::SetRefused, component_id.0@),
            final(self).wf(),
            r is Err <==> state_refused(old(self).settings(), model(state)),
            r matches Err(e) ==> e matches ComponentError::StateError(m) && m@ == "状态不能为null"@,
            r is Err ==> final(self).states() == old(self).states() && final(self).versions() == old(self).versions()
                && final(self).history() == old(self).history(),
            r is Ok ==> final(self).states() == old(self).states().insert(component_id.0@, model(state))
                && final(self).versions() == old(self).versions().insert(component_id.0@, (old(self).version_of(component_id.0@) + 1) as u64),
            r matches Ok((ev, snap)) ==> set_recorded(*old(self), *final(self), component_id.0@, model(state), reason@, now, ev, snap),
            final(self).settings() == old(self).settings(),
    {
        if self.config.enable_validation {
            match &state {
                JsonValue::Null => {
                    return Err(ComponentError::StateError(String::from_str("状态不能为null")));
                },
                _ => {},
            }
        }
        let ghost st0 = self.current_states@;
        let ghost old_states = self.states();
        let old_state = match self.find_state(&component_id) {
            Some(i) => {
                let mut entry = (component_id.duplicate(), duplicate(&state));
                self.current_states.set_and_swap(i, &mut entry);
                proof {
                    lemma_assoc_update(st0, i as int, self.current_states@[i as int]);
                    assert(self.states() =~= old_states.insert(component_id.0@, model(state)));
                }
                Some(entry.1)
            },
            None => {
                self.current_states.push((component_id.duplicate(), duplicate(&state)));
                proof {
                    lemma_assoc_push(st0, self.current_states@.last());
                    assert(self.current_states@ == st0.push(self.current_states@.last()));
                    assert(self.states() =~= old_states.insert(component_id.0@, model(state)));
                }
                None
            },
        };
        let version = self.bump_version(&component_id);
        let event = StateChangeEvent {
            component_id: component_id.duplicate(),
            change_type: if old_state.is_some() { StateChangeType::Updated } else { StateChangeType::Created },
            old_state,
            new_state: duplicate(&state),
            timestamp: now,
            reason,
        };
        let copy = event.duplicate();
        self.add_to_history(copy);
        let snapshot = ComponentStateSnapshot::new_at(component_id, state, version, now);
        proof {
            assert(snap_view(snapshot).4 =~= Seq::<(Seq<char>, Seq<char>)>::empty());
        }
        Ok((event, snapshot))
    }

    /// Raises the version counter of `id` by one and returns the new value.
    fn bump_version(&mut self, id: &ComponentId) -> (r: u64)
        requires
            old(self).wf(),
            old(self).version_of(id.0@) < u64::MAX,
        ensures
            final(self).wf(),
            r == old(self).version_of(id.0@) + 1,
            final(self).versions() == old(self).versions().insert(id.0@, r),
            final(self).states() == old(self).states(),
            final(self).history() == old(self).history(),
            final(self).settings() == old(self).settings(),
            final(self).current_states == old(self).current_states,
            final(self).change_history == old(self).change_history,
    {
        let ghost vc0 = self.version_counters@;
        match assoc_find(&self.version_counters, id) {
            Some(i) => {
                proof {
                    lemma_assoc_get(vc0, i as int);
                }
                let v = self.version_counters[i].1 + 1;
                self.version_counters.set(i, (id.duplicate(), v));
                proof {
                    lemma_assoc_update(vc0, i as int, self.version_counters@[i as int]);
                }
                v
            },
            None => {
                self.version_counters.push((id.duplicate(), 1));
                proof {
                    lemma_assoc_push(vc0, self.version_counters@.last());
                    assert(self.version_counters@ == vc0.push(self.version_counters@.last()));
                }
                1
            },
        }
    }

    /// Removes the state of `id` at the system clock's time; see `remove_state_at`.
    pub fn remove_state(&mut self, component_id: &ComponentId, reason: String) -> (r: Result<Option<StateChangeEvent>, ComponentError>)
        requires
            old(self).wf(),
        ensures
            version_effect(*old(self), *final(self), StateCall::RemoveState, component_id.0@),
            final(self).wf(),
            r matches Ok(ev) && (ev is Some <==> old(self).states().dom().contains(component_id.0@)),
            final(self).states() == old(self).states().remove(component_id.0@),
            final(self).versions() == old(self).versions().remove(component_id.0@),
            final(self).settings() == old(self).settings(),
            !old(self).states().dom().contains(component_id.0@) ==> final(self).history() == old(self).history(),
            r matches Ok(Some(ev)) ==> exists|now: u64| #[trigger] removal_recorded(*old(self), *final(self), component_id.0@, reason@, now, ev),
    {
        let now = now_millis();
        self.remove_state_at(component_id, reason, now)
    }

    /// Removes the state and the version counter of `id` at time `now`; when it had a
    /// state, the deletion joins the history and is handed back to be published.
    pub fn remove_state_at(&mut self, component_id: &ComponentId, reason: String, now: u64) -> (r: Result<Option<StateChangeEvent>, ComponentError>)
        requires
            old(self).wf(),
        ensures
            version_effect(*old(self), *final(self), StateCall::RemoveState, component_id.0@),
            final(self).wf(),
            final(self).states() == old(self).states().remove(component_id.0@),
            final(self).versions() == old(self).versions().remove(component_id.0@),
            final(self).settings() == old(self).settings(),
            r is Ok,
            !old(self).states().dom().contains(component_id.0@) ==> r == Ok::<Option<StateChangeEvent>, ComponentError>(None)
                && final(self).history() == old(self).history(),
            old(self).states().dom().contains(component_id.0@) ==> (r matches Ok(Some(ev))
                && removal_recorded(*old(self), *final(self), component_id.0@, reason@, now, ev)),
    {
        let ghost st0 = self.current_states@;
        let ghost old_states = self.states();
        let removed = match self.find_state(component_id) {
            Some(i) => {
                let entry = self.current_states.remove(i);
                proof {
                    lemma_assoc_remove(st0, i as int);
                    assert(self.states() =~= old_states.remove(component_id.0@));
                }
                Some(entry.1)
            },
            None => {
                proof {
                    assert(self.states() =~= old_states.remove(component_id.0@));
                }
                None
            },
        };
        let event = match removed {
            Some(old_state) => {
                let ev = StateChangeEvent {
                    component_id: component_id.duplicate(),
                    change_type: StateChangeType::Deleted,
                    old_state: Some(old_state),
                    new_state: JsonValue::Null,
                    timestamp: now,
                    reason,
                };
                let copy = ev.duplicate();
                self.add_to_history(copy);
                Some(ev)
            },
            None => None,
        };
        let ghost vc0 = self.version_counters@;
        match assoc_find(&self.version_counters, component_id) {
            Some(i) => {
                self.version_counters.remove(i);
                proof {
                    lemma_assoc_remove(vc0, i as int);
                }
            },
            None => {
                proof {
                    assert(self.versions() =~= self.versions().remove(component_id.0@));
                }
            },
        }
        Ok(event)
    }

    /// The current state of every component.
    pub fn get_all_states(&self) -> (r: Vec<(ComponentId, JsonValue)>)
        requires
            self.wf(),
        ensures
            keys_unique(r@),
            assoc_map(r@).map_values(|v: JsonValue| model(v)) == self.states(),
    {
        let mut out: Vec<(ComponentId, JsonValue)> = Vec::new();
        let mut i: usize = 0;
        while i < self.current_states.len()
            invariant
                keys_unique(self.current_states@),
                0 <= i <= self.current_states@.len(),
                out@.len() == i,
                forall|j: int| 0 <= j < i ==> #[trigger] out@[j].0.0@ == self.current_states@[j].0.0@
                    && model(out@[j].1) == model(self.current_states@[j].1),
            decreases self.current_states.len() - i,
        {
            out.push((self.current_states[i].0.duplicate(), duplicate(&self.current_states[i].1)));
            i = i + 1;
        }
        proof {
            let a = out@.map_values(|e: (ComponentId, JsonValue)| (e.0, model(e.1)));
            let b = self.current_states@.map_values(|e: (ComponentId, JsonValue)| (e.0, model(e.1)));
            lemma_same_keys(a, b);
            lemma_model_map(out@);
            lemma_model_map(self.current_states@);
            assert forall|x: int, y: int| 0 <= x < y < out@.len() implies #[trigger] out@[x].0.0@ != #[trigger] out@[y].0.0@ by {
                assert(self.current_states@[x].0.0@ != self.current_states@[y].0.0@);
            };
        }
        out
    }

    /// A snapshot of the current state of `id` at the system clock's time, tagged as
    /// made by hand; see `create_snapshot_at`.
    pub fn create_snapshot(&self, component_id: &ComponentId) -> (r: Result<Option<ComponentStateSnapshot>, ComponentError>)
        requires
            self.wf(),
        ensures
            r matches Ok(s) && (s is Some <==> self.states().dom().contains(component_id.0@)),
            r matches Ok(Some(snap)) ==> exists|now: u64| snap_view(snap) == #[trigger] manual_snapshot(*self, component_id.0@, now),
    {
        let now = now_millis();
        self.create_snapshot_at(component_id, now)
    }

    /// A snapshot of the current state of `id` at time `now`, at its current version,
    /// tagged `type` = `manual` and `timestamp` = the time in whole seconds; none when
    /// it has no state. It is handed back to be saved.
    pub fn create_snapshot_at(&self, component_id: &ComponentId, now: u64) -> (r: Result<Option<ComponentStateSnapshot>, ComponentError>)
        requires
            self.wf(),
        ensures
            r is Ok,
            !self.states().dom().contains(component_id.0@) ==> r == Ok::<Option<ComponentStateSnapshot>, ComponentError>(None),
            self.states().dom().contains(component_id.0@) ==> (r matches Ok(Some(snap))
                && snap_view(snap) == manual_snapshot(*self, component_id.0@, now)),
    {
        match self.get_state(component_id) {
            Some(state) => {
                let version = self.current_version(component_id);
                let secs = decimal_string(now / 1000);
                let snap0 = ComponentStateSnapshot::new_at(component_id.duplicate(), state, version, now);
                proof {
                    reveal_strlit("type");
                    reveal_strlit("timestamp");
                    assert(tag_view(snap0.tags@) =~= Seq::<(Seq<char>, Seq<char>)>::empty());
                }
                let snap1 = snap0.with_tag(String::from_str("type"), String::from_str("manual"));
                proof {
                    assert(tag_view(snap1.tags@) =~= seq![("type"@, "manual"@)]);
                    assert("type"@.len() != "timestamp"@.len());
                    assert(tag_index(seq![("type"@, "manual"@)], "timestamp"@) is None) by {
                        assert(seq![("type"@, "manual"@)][0].0 != "timestamp"@);
                        reveal_with_fuel(tag_index, 2);
                    };
                }
                let snap = snap1.with_tag(String::from_str("timestamp"), secs);
                proof {
                    assert(snap_view(snap).4 =~= seq![("type"@, "manual"@), ("timestamp"@, decimal((now / 1000) as nat))]);
                }
                Ok(Some(snap))
            },
            None => Ok(None),
        }
    }

    /// The version counter of `id`, 0 when it has none.
    pub fn current_version(&self, id: &ComponentId) -> (r: u64)
        requires
            self.wf(),
        ensures
            r == self.version_of(id.0@),
    {
        match assoc_find(&self.version_counters, id) {
            Some(i) => {
                proof {
                    lemma_assoc_get(self.version_counters@, i as int);
                }
                self.version_counters[i].1
            },
            None => 0,
        }
    }

    /// Snapshots of every current state at its current version, tagged `type` = `auto`,
    /// taken at time `now`, to be saved by the periodic snapshot task.
    pub fn auto_snapshots_at(&self, now: u64) -> (r: Vec<ComponentStateSnapshot>)
        requires
            self.wf(),
        ensures
            r@.len() == self.states().len(),
            forall|i: int, j: int| 0 <= i < j < r@.len() ==> #[trigger] r@[i].component_id.0@ != #[trigger] r@[j].component_id.0@,
            forall|i: int| 0 <= i < r@.len() ==> {
                let k = (#[trigger] r@[i]).component_id.0@;
                &&& self.states().dom().contains(k)
                &&& snap_view(r@[i]) == (k, self.states()[k], now, self.version_of(k), seq![("type"@, "auto"@)])
            },
    {
        let mut out: Vec<ComponentStateSnapshot> = Vec::new();
        let mut i: usize = 0;
        while i < self.current_states.len()
            invariant
                self.wf(),
                0 <= i <= self.current_states@.len(),
                out@.len() == i,
                forall|j: int| 0 <= j < i ==> (#[trigger] out@[j]).component_id.0@ == self.current_states@[j].0.0@,
                forall|j: int| 0 <= j < i ==> {
                    let k = (#[trigger] out@[j]).component_id.0@;
                    &&& self.states().dom().contains(k)
                    &&& snap_view(out@[j]) == (k, self.states()[k], now, self.version_of(k), seq![("type"@, "auto"@)])
                },
            decreases self.current_states.len() - i,
        {
            let id = self.current_states[i].0.duplicate();
            proof {
                lemma_assoc_get(self.current_states@, i as int);
            }
            let version = self.current_version(&id);
            let snap = ComponentStateSnapshot::new_at(id, duplicate(&self.current_states[i].1), version, now)
                .with_tag(String::from_str("type"), String::from_str("auto"));
            proof {
                reveal_strlit("type");
                assert(tag_index(Seq::<(Seq<char>, Seq<char>)>::empty(), "type"@) is None);
                assert(snap_view(snap).4 =~= seq![("type"@, "auto"@)]);
            }
            out.push(snap);
            i = i + 1;
        }
        proof {
            lemma_assoc_len(self.current_states@);
            assert(self.states().len() == assoc_map(self.current_states@).len()) by {
                assert(self.states().dom() =~= assoc_map(self.current_states@).dom());
            };
            assert forall|a: int, b: int| 0 <= a < b < out@.len() implies #[trigger] out@[a].component_id.0@ != #[trigger] out@[b].component_id.0@ by {
                assert(self.current_states@[a].0.0@ != self.current_states@[b].0.0@);
            };
        }
        out
    }

    /// Restores `id` to the state of `loaded`, the snapshot the store gave back for it,
    /// at time `now`: with a snapshot, its state is set with the reason naming the
    /// snapshot's version and the outcome of that is handed back; without one, nothing
    /// changes and `None` comes back.
    pub fn restore_from_snapshot(&mut self, component_id: &ComponentId, loaded: Option<ComponentStateSnapshot>, now: u64)
        -> (r: Result<Option<(StateChangeEvent, ComponentStateSnapshot)>, ComponentError>)
        requires
            old(self).wf(),
            old(self).version_of(component_id.0@) < u64::MAX,
        ensures
            final(self).wf(),
            final(self).settings() == old(self).settings(),
            loaded is None ==> r == Ok::<Option<(StateChangeEvent, ComponentStateSnapshot)>, ComponentError>(None)
                && final(self).states() == old(self).states() && final(self).versions() == old(self).versions()
                && final(self).history() == old(self).history(),
            loaded matches Some(snap) ==> (r is Err <==> state_refused(old(self).settings(), model(snap.state_data)))
                && (r is Ok ==> (r matches Ok(Some(out)) && event_view(out.0).5 == "从快照版本 "@ + decimal(snap.version as nat) + " 恢复"@)
                    && final(self).states() == old(self).states().insert(component_id.0@, model(snap.state_data))
                    && final(self).versions() == old(self).versions().insert(component_id.0@, (old(self).version_of(component_id.0@) + 1) as u64)),
    {
        match loaded {
            Some(snap) => {
                let v = decimal_string(snap.version);
                let reason = crate::text::join3("从快照版本 ", v.as_str(), " 恢复");
                match self.set_state_at(component_id.duplicate(), snap.state_data, reason, now) {
                    Ok(out) => Ok(Some(out)),
                    Err(e) => Err(e),
                }
            },
            None => Ok(None),
        }
    }

    /// Resets `id` at time `now` to `initial`, its first saved snapshot: with one, its
    /// state is set back to that snapshot's; without one, its state is removed.
    pub fn reset_state(&mut self, component_id: &ComponentId, initial: Option<ComponentStateSnapshot>, reason: String, now: u64)
        -> (r: Result<Option<StateChangeEvent>, ComponentError>)
        requires
            old(self).wf(),
            old(self).version_of(component_id.0@) < u64::MAX,
        ensures
            final(self).wf(),
            final(self).settings() == old(self).settings(),
            initial is None ==> r is Ok && final(self).states() == old(self).states().remove(component_id.0@)
                && final(self).versions() == old(self).versions().remove(component_id.0@),
            initial matches Some(snap) ==> (r is Err <==> state_refused(old(self).settings(), model(snap.state_data)))
                && (r is Ok ==> final(self).states() == old(self).states().insert(component_id.0@, model(snap.state_data))
                    && final(self).versions() == old(self).versions().insert(component_id.0@, (old(self).version_of(component_id.0@) + 1) as u64)),
    {
        match initial {
            Some(snap) => {
                match self.set_state_at(component_id.duplicate(), snap.state_data, reason, now) {
                    Ok(out) => Ok(Some(out.0)),
                    Err(e) => Err(e),
                }
            },
            None => self.remove_state_at(component_id, reason, now),
        }
    }

    /// The recorded changes, latest first (changes made at the same time in the order
    /// they were made), only those of `component_id` when one is named, at most `limit`.
    pub fn get_change_history(&self, component_id: Option<&ComponentId>, limit: Option<usize>) -> (r: Vec<StateChangeEvent>)
        ensures
            ({
                let key = match component_id { Some(c) => Some(c.0@), None => None };
                let sorted = newest_first(changes_of(self.history(), key));
                event_views(r@) == match limit {
                    Some(l) => if l < sorted.len() { sorted.take(l as int) } else { sorted },
                    None => sorted,
                }
            }),
    {
        let ghost key = match component_id { Some(c) => Some(c.0@), None => None };
        let ghost pred = |e: EventView| e.0 == key->0;
        let mut picked: Vec<StateChangeEvent> = Vec::new();
        let mut i: usize = 0;
        proof {
            reveal(Seq::filter);
            assert(self.history().take(0) =~= Seq::<EventView>::empty());
            assert(event_views(picked@) =~= changes_of(self.history().take(0), key));
        }
        while i < self.change_history.len()
            invariant
                0 <= i <= self.change_history@.len(),
                key == (match component_id { Some(c) => Some(c.0@), None => None::<Seq<char>> }),
                pred == (|e: EventView| e.0 == key->0),
                event_views(picked@) == changes_of(self.history().take(i as int), key),
            decreases self.change_history.len() - i,
        {
            proof {
                reveal(Seq::filter);
                assert(self.history().take(i + 1).drop_last() =~= self.history().take(i as int));
                assert(self.history().take(i + 1).last() == event_view(self.change_history@[i as int]));
            }
            let keep = match component_id {
                Some(c) => self.change_history[i].component_id.same_as(c),
                None => true,
            };
            let ghost before = picked@;
            if keep {
                picked.push(self.change_history[i].duplicate());
                proof {
                    assert(event_views(picked@) =~= event_views(before).push(event_view(self.change_history@[i as int])));
                }
            }
            proof {
                if key is None {
                    assert(self.history().take(i + 1) =~= self.history().take(i as int).push(event_view(self.change_history@[i as int])));
                }
            }
            i = i + 1;
        }
        proof {
            assert(self.history().take(self.change_history@.len() as int) =~= self.history());
        }
        let mut sorted = sort_newest_first(picked);
        match limit {
            Some(l) => {
                if l < sorted.len() {
                    sorted.truncate(l);
                    proof {
                        assert(event_views(sorted@) =~= newest_first(changes_of(self.history(), key)).take(l as int));
                    }
                }
            },
            None => {},
        }
        sorted
    }

    /// Sets the state of every component in `states`, in order, at the system clock's
    /// time; see `set_states_at`.
    pub fn set_states(&mut self, states: Vec<(ComponentId, JsonValue)>, reason: String)
        -> (r: Result<Vec<(StateChangeEvent, ComponentStateSnapshot)>, ComponentError>)
        requires
            old(self).wf(),
            forall|k: Seq<char>| old(self).version_of(k) + states@.len() < u64::MAX,
        ensures
            final(self).wf(),
            final(self).settings() == old(self).settings(),
            r is Err <==> exists|i: int| 0 <= i < states@.len() && state_refused(old(self).settings(), model(#[trigger] states@[i].1)),
            r matches Err(e) ==> e matches ComponentError::StateError(m) && m@ == "状态不能为null"@,
            r is Ok ==> final(self).states() == apply_states(old(self).states(), pairs_view(states@)),
            r is Err ==> exists|i: int| 0 <= i < states@.len()
                && state_refused(old(self).settings(), model(#[trigger] states@[i].1))
                && (forall|j: int| 0 <= j < i ==> !state_refused(old(self).settings(), model(states@[j].1)))
                && final(self).states() == apply_states(old(self).states(), pairs_view(states@).take(i)),
            r matches Ok(out) ==> out@.len() == states@.len(),
    {
        let now = now_millis();
        self.set_states_at(states, reason, now)
    }

    /// Sets the state of every component in `states`, in order, at time `now`, as
    /// `set_state_at` does; stops at the first state refused, keeping those set before
    /// it. When all are set, a batch change for the component `__batch__` with the
    /// state `{"count": n}`, `n` the number of states, joins the history. The changes
    /// and snapshots of the states set are handed back.
    pub fn set_states_at(&mut self, states: Vec<(ComponentId, JsonValue)>, reason: String, now: u64)
        -> (r: Result<Vec<(StateChangeEvent, ComponentStateSnapshot)>, ComponentError>)
        requires
            old(self).wf(),
            forall|k: Seq<char>| old(self).version_of(k) + states@.len() < u64::MAX,
        ensures
            final(self).wf(),
            final(self).settings() == old(self).settings(),
            r is Err <==> exists|i: int| 0 <= i < states@.len() && state_refused(old(self).settings(), model(#[trigger] states@[i].1)),
            r matches Err(e) ==> e matches ComponentError::StateError(m) && m@ == "状态不能为null"@,
            r is Ok ==> final(self).states() == apply_states(old(self).states(), pairs_view(states@)),
            r is Err ==> exists|i: int| 0 <= i < states@.len()
                && state_refused(old(self).settings(), model(#[trigger] states@[i].1))
                && (forall|j: int| 0 <= j < i ==> !state_refused(old(self).settings(), model(states@[j].1)))
                && final(self).states() == apply_states(old(self).states(), pairs_view(states@).take(i)),
            r is Ok && old(self).settings().max_history_size > 0 ==> final(self).history().last() == (
                "__batch__"@, StateChangeType::BatchUpdate, None::<Json>,
                Json::Object(seq![("count"@, Json::Number(decimal(states@.len())))]), now, reason@),
            r matches Ok(out) ==> out@.len() == states@.len(),
    {
        let n = states.len();
        let ghost pv = pairs_view(states@);
        let ghost s0 = self.states();
        let mut rest = states;
        let mut out: Vec<(StateChangeEvent, ComponentStateSnapshot)> = Vec::new();
        let mut i: usize = 0;
        proof {
            assert(pv.take(0) =~= Seq::<(Seq<char>, Json)>::empty());
            assert(pairs_view(rest@) =~= pv.skip(0));
        }
        while i < n
            invariant
                self.wf(),
                0 <= i <= n,
                n == pv.len(),
                rest@.len() + i == n,
                pairs_view(rest@) == pv.skip(i as int),
                pv == pairs_view(states@),
                self.states() == apply_states(s0, pv.take(i as int)),
                s0 == old(self).states(),
                self.settings() == old(self).settings(),
                forall|k: Seq<char>| self.version_of(k) + (n - i) < u64::MAX,
                forall|j: int| 0 <= j < i ==> !state_refused(old(self).settings(), #[trigger] pv[j].1),
                out@.len() == i,
            decreases n - i,
        {
            let ghost rv = rest@;
            let (id, state) = rest.remove(0);
            proof {
                assert(pairs_view(rv)[0] == (id.0@, model(state)));
                assert(pv[i as int] == (id.0@, model(state)));
                assert(rest@ =~= rv.drop_first());
                assert(pairs_view(rv.drop_first()) =~= pairs_view(rv).drop_first());
                assert(pv.skip(i as int).drop_first() =~= pv.skip(i + 1));
                assert(pairs_view(rest@) =~= pv.skip(i + 1));
                assert(pv.take(i + 1).drop_last() =~= pv.take(i as int));
            }
            let ghost vbefore = self.versions();
            let ghost pre = *self;
            match self.set_state_at(id, state, clone_text(&reason), now) {
                Ok(o) => {
                    out.push(o);
                },
                Err(e) => {
                    proof {
                        assert(state_refused(old(self).settings(), model(states@[i as int].1)));
                        assert forall|j: int| 0 <= j < i implies !state_refused(old(self).settings(), model(states@[j].1)) by {
                            assert(pv[j] == (states@[j].0.0@, model(states@[j].1)));
                            assert(!state_refused(old(self).settings(), pv[j].1));
                        };
                        assert(pairs_view(states@).take(i as int) == pv.take(i as int));
                        assert(self.states() == apply_states(old(self).states(), pairs_view(states@).take(i as int)));
                    }
                    return Err(e);
                },
            }
            proof {
                assert forall|k: Seq<char>| self.version_of(k) + (n - (i + 1)) < u64::MAX by {
                    assert(pre.version_of(k) + (n - i) < u64::MAX);
                    assert(pre.version_of(k) == old_version(vbefore, k));
                    assert(self.version_of(k) <= old_version(vbefore, k) + 1);
                };
            }
            i = i + 1;
        }
        proof {
            assert(pv.take(n as int) =~= pv);
            assert forall|j: int| 0 <= j < states@.len() implies !state_refused(old(self).settings(), model(#[trigger] states@[j].1)) by {
                assert(pv[j].1 == model(states@[j].1));
            };
        }
        let count = decimal_string(n as u64);
        let mut members: Vec<(String, JsonValue)> = Vec::new();
        members.push((String::from_str("count"), JsonValue::Number(count)));
        let batch = StateChangeEvent {
            component_id: ComponentId::new(String::from_str("__batch__")),
            change_type: StateChangeType::BatchUpdate,
            old_state: None,
            new_state: JsonValue::Object(members),
            timestamp: now,
            reason,
        };
        let ghost bv = event_view(batch);
        proof {
            reveal_strlit("__batch__");
            reveal_strlit("count");
            lemma_entry_models(members@);
            assert(entry_models(members@) =~= seq![("count"@, Json::Number(decimal(n as nat)))]);
        }
        let ghost h0 = self.history();
        self.add_to_history(batch);
        proof {
            if self.config.max_history_size > 0 {
                let hp = h0.push(bv);
                assert(keep_last(hp, self.config.max_history_size as nat).last() == bv);
            }
        }
        Ok(out)
    }
}

proof fn lemma_model_map(s: Seq<(ComponentId, JsonValue)>)
    ensures
        assoc_map(s.map_values(|e: (ComponentId, JsonValue)| (e.0, model(e.1)))) == assoc_map(s).map_values(|v: JsonValue| model(v)),
    decreases s.len(),
{
    let f = |e: (ComponentId, JsonValue)| (e.0, model(e.1));
    if s.len() > 0 {
        lemma_model_map(s.drop_last());
        assert(s.map_values(f).drop_last() =~= s.drop_last().map_values(f));
        assert(assoc_map(s.map_values(f)) =~= assoc_map(s).map_values(|v: JsonValue| model(v)));
    } else {
        assert(assoc_map(s).map_values(|v: JsonValue| model(v)) =~= Map::<Seq<char>, Json>::empty());
    }
}

/// Setting `k` to `state` at time `now` took `before` to `after`, and handed back
/// the change `ev`, which joined the history, and the snapshot `snap` of the new state
/// at the new version.
pub open spec fn set_recorded(before: StateManager, after: StateManager, k: Seq<char>, state: Json, reason: Seq<char>, now: u64,
    ev: StateChangeEvent, snap: ComponentStateSnapshot) -> bool {
    let change = set_change(before.states(), k, state, reason, now);
    &&& event_view(ev) == change
    &&& after.history() == keep_last(before.history().push(change), before.settings().max_history_size as nat)
    &&& snap_view(snap) == (k, state, now, (before.version_of(k) + 1) as u64, Seq::<(Seq<char>, Seq<char>)>::empty())
}

/// Removing the state of `k` at time `now` handed back the deletion `ev`, which joined
/// the history of `after`.
pub open spec fn removal_recorded(before: StateManager, after: StateManager, k: Seq<char>, reason: Seq<char>, now: u64,
    ev: StateChangeEvent) -> bool {
    let change = (k, StateChangeType::Deleted, Some(before.states()[k]), Json::Null, now, reason);
    &&& event_view(ev) == change
    &&& after.history() == keep_last(before.history().push(change), before.settings().max_history_size as nat)
}

/// The snapshot of `k` taken by hand at time `now`: its current state at its current
/// version, tagged `type` = `manual` and `timestamp` = the time in whole seconds.
pub open spec fn manual_snapshot(m: StateManager, k: Seq<char>, now: u64) -> (Seq<char>, Json, u64, u64, Seq<(Seq<char>, Seq<char>)>) {
    (k, m.states()[k], now, m.version_of(k), seq![("type"@, "manual"@), ("timestamp"@, decimal((now / 1000) as nat))])
}

/// Once a state is set for `k`, reading `k` gives it back, and every other component
/// keeps the state it had.
pub proof fn lemma_state_read_after_write(before: StateManager, after: StateManager, k: Seq<char>, v: Json)
    requires
        after.states() == before.states().insert(k, v),
    ensures
        after.states().dom().contains(k),
        after.states()[k] == v,
        forall|j: Seq<char>| j != k ==> (#[trigger] after.states().dom().contains(j) <==> before.states().dom().contains(j)),
        forall|j: Seq<char>| j != k && #[trigger] before.states().dom().contains(j) ==> after.states()[j] == before.states()[j],
{
}

/// Setting a field of a snapshot, as `set_field` does, either succeeds, and `get_field`
/// then gives the value back, or fails and leaves the state data as it was.
pub proof fn lemma_snapshot_set_field(before: ComponentStateSnapshot, after: ComponentStateSnapshot, path: Seq<char>,
    value: Json, r: Result<(), String>)
    requires
        model(after.state_data) == set_path(model(before.state_data), split_dot(path), 0, value).0,
        match set_path(model(before.state_data), split_dot(path), 0, value).1 {
            Some(e) => r is Err,
            None => r is Ok,
        },
    ensures
        r is Ok ==> lookup(model(after.state_data), split_dot(path)) == Some(value),
        r is Err ==> model(after.state_data) == model(before.state_data),
{
    crate::json::lemma_set_field_outcome(model(before.state_data), path, value);
}

/// A call on a state manager that touches the version counters: a state set, a state
/// removed, or a set that was refused.
#[derive(Debug, Clone, Copy, PartialEq, Eq, Structural)]
pub enum StateCall {
    SetState,
    RemoveState,
    SetRefused,
}

/// `after` is what `call`, on the component with key `k`, made of the counters of `before`.
pub open spec fn version_effect(before: StateManager, after: StateManager, call: StateCall, k: Seq<char>) -> bool {
    match call {
        StateCall::SetState => after.versions() == before.versions().insert(k, (before.version_of(k) + 1) as u64),
        StateCall::RemoveState => after.versions() == before.versions().remove(k),
        StateCall::SetRefused => after.versions() == before.versions(),
    }
}

/// How many states were set for `k` in `calls` since its last removal.
pub open spec fn sets_since_removal(calls: Seq<(StateCall, Seq<char>)>, k: Seq<char>) -> nat
    decreases calls.len(),
{
    if calls.len() == 0 {
        0
    } else if calls.last() == (StateCall::SetState, k) {
        sets_since_removal(calls.drop_last(), k) + 1
    } else if calls.last() == (StateCall::RemoveState, k) {
        0
    } else {
        sets_since_removal(calls.drop_last(), k)
    }
}

/// Starting from a manager with no version for `k`, after any run of calls passing
/// through `states`, the version of `k` is the number of states set for it since it was
/// last removed; so the snapshot of the next set carries that number plus one.
pub proof fn lemma_version_counts_sets(states: Seq<StateManager>, calls: Seq<(StateCall, Seq<char>)>, k: Seq<char>)
    requires
        states.len() == calls.len() + 1,
        states[0].version_of(k) == 0,
        forall|i: int| 0 <= i < calls.len() ==> #[trigger] version_effect(states[i], states[i + 1], calls[i].0, calls[i].1),
        forall|i: int| 0 <= i < calls.len() && calls[i].0 == StateCall::SetState ==> #[trigger] states[i].version_of(calls[i].1) < u64::MAX,
    ensures
        states.last().version_of(k) == sets_since_removal(calls, k),
    decreases calls.len(),
{
    if calls.len() > 0 {
        let n = calls.len() - 1;
        let init = calls.drop_last();
        let prefix = states.drop_last();
        assert forall|i: int| 0 <= i < init.len() implies #[trigger] version_effect(prefix[i], prefix[i + 1], init[i].0, init[i].1) by {
            assert(version_effect(states[i], states[i + 1], calls[i].0, calls[i].1));
        };
        assert forall|i: int| 0 <= i < init.len() && init[i].0 == StateCall::SetState implies #[trigger] prefix[i].version_of(init[i].1) < u64::MAX by {
            assert(states[i].version_of(calls[i].1) < u64::MAX);
        };
        lemma_version_counts_sets(prefix, init, k);
        assert(version_effect(states[n], states[n + 1], calls[n].0, calls[n].1));
        if calls[n].0 == StateCall::SetState {
            assert(states[n].version_of(calls[n].1) < u64::MAX);
        }
        assert(calls.last() == calls[n]);
    }
}

/// The change history never holds more than the configured number of changes.
pub proof fn lemma_history_bounded(m: StateManager)
    requires
        m.wf(),
    ensures
        m.history().len() <= m.settings().max_history_size,
{
}

/// `events` latest first, events at the same time keeping their relative order.
pub fn sort_newest_first(events: Vec<StateChangeEvent>) -> (r: Vec<StateChangeEvent>)
    ensures
        event_views(r@) == newest_first(event_views(events@)),
{
    let ghost all = event_views(events@);
    let mut rest = events;
    let mut out: Vec<StateChangeEvent> = Vec::new();
    let n = rest.len();
    let mut i: usize = 0;
    proof {
        assert(all.take(0) =~= Seq::<EventView>::empty());
        assert(event_views(out@) =~= Seq::<EventView>::empty());
        assert(event_views(rest@) =~= all.skip(0));
    }
    while rest.len() > 0
        invariant
            rest@.len() + i == n,
            n == all.len(),
            event_views(rest@) == all.skip(i as int),
            event_views(out@) == newest_first(all.take(i as int)),
        decreases rest.len(),
    {
        let ghost rv = rest@;
        let e = rest.remove(0);
        let ghost ev = event_view(e);
        proof {
            assert(event_views(rv)[0] == ev);
            assert(ev == all[i as int]);
            assert(all.take(i + 1).drop_last() =~= all.take(i as int));
            assert(rest@ =~= rv.drop_first());
            assert(event_views(rv.drop_first()) =~= event_views(rv).drop_first());
            assert(all.skip(i as int).drop_first() =~= all.skip(i + 1));
            assert(event_views(rest@) =~= all.skip(i + 1));
        }
        let t = e.timestamp;
        let ghost ov = event_views(out@);
        let mut p: usize = out.len();
        proof {
            assert(ov.take(p as int) =~= ov);
        }
        while p > 0 && out[p - 1].timestamp < t
            invariant
                0 <= p <= out@.len(),
                ov == event_views(out@),
                newest_pos(ov, ev) == newest_pos(ov.take(p as int), ev),
                t == ev.4,
            decreases p,
        {
            proof {
                assert(ov.take(p as int).drop_last() =~= ov.take(p - 1));
                assert(ov.take(p as int).last() == ov[p - 1]);
            }
            p = p - 1;
        }
        proof {
            if p > 0 {
                assert(ov.take(p as int).last() == ov[p - 1]);
            } else {
                assert(ov.take(0) =~= Seq::<EventView>::empty());
            }
        }
        out.insert(p, e);
        proof {
            assert(event_views(out@) =~= ov.insert(p as int, ev));
        }
        i = i + 1;
    }
    proof {
        assert(all.take(n as int) =~= all);
    }
    out
}

/// Text and model of each component state pair.
pub open spec fn pairs_view(s: Seq<(ComponentId, JsonValue)>) -> Seq<(Seq<char>, Json)> {
    s.map_values(|p: (ComponentId, JsonValue)| (p.0.0@, model(p.1)))
}

/// `m` with each pair of `s` set in turn.
pub open spec fn apply_states(m: Map<Seq<char>, Json>, s: Seq<(Seq<char>, Json)>) -> Map<Seq<char>, Json>
    decreases s.len(),
{
    if s.len() == 0 {
        m
    } else {
        apply_states(m, s.drop_last()).insert(s.last().0, s.last().1)
    }
}

/// The version recorded in `v` for `k`, 0 when none.
pub open spec fn old_version(v: Map<Seq<char>, u64>, k: Seq<char>) -> u64 {
    if v.dom().contains(k) { v[k] } else { 0 }
}

/// A copy of `s`.
fn clone_text(s: &String) -> (r: String)
    ensures
        r@ == s@,
{
    s.clone()
}

} // verus!
