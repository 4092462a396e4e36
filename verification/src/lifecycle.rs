use vstd::prelude::*;
use crate::component::{ComponentId, ComponentType, ComponentError, type_key, type_debug};
use crate::assoc::{keys_unique, assoc_map, assoc_find, lemma_assoc_get, lemma_assoc_update, lemma_assoc_push, lemma_assoc_remove, lemma_same_keys};
use crate::text::{quoted, quote_text, join2, join3};

verus! {

/// Stage of a component's life.
#[derive(Debug, Clone, PartialEq, Eq)]
pub enum LifecyclePhase {
    NotCreated,
    Creating,
    Created,
    Initializing,
    Initialized,
    Starting,
    Running,
    Pausing,
    Paused,
    Resuming,
    Stopping,
    Stopped,
    Destroying,
    Destroyed,
    Error(String),
}

/// How `{:?}` writes a phase.
pub open spec fn phase_debug(p: LifecyclePhase) -> Seq<char> {
    match p {
        LifecyclePhase::NotCreated => "NotCreated"@,
        LifecyclePhase::Creating => "Creating"@,
        LifecyclePhase::Created => "Created"@,
        LifecyclePhase::Initializing => "Initializing"@,
        LifecyclePhase::Initialized => "Initialized"@,
        LifecyclePhase::Starting => "Starting"@,
        LifecyclePhase::Running => "Running"@,
        LifecyclePhase::Pausing => "Pausing"@,
        LifecyclePhase::Paused => "Paused"@,
        LifecyclePhase::Resuming => "Resuming"@,
        LifecyclePhase::Stopping => "Stopping"@,
        LifecyclePhase::Stopped => "Stopped"@,
        LifecyclePhase::Destroying => "Destroying"@,
        LifecyclePhase::Destroyed => "Destroyed"@,
        LifecyclePhase::Error(s) => "Error("@ + quoted(s@) + ")"@,
    }
}

impl LifecyclePhase {
    /// A copy of this phase.
    pub fn duplicate(&self) -> (r: Self)
        ensures
            r == *self,
    {
        match self {
            LifecyclePhase::NotCreated => LifecyclePhase::NotCreated,
            LifecyclePhase::Creating => LifecyclePhase::Creating,
            LifecyclePhase::Created => LifecyclePhase::Created,
            LifecyclePhase::Initializing => LifecyclePhase::Initializing,
            LifecyclePhase::Initialized => LifecyclePhase::Initialized,
            LifecyclePhase::Starting => LifecyclePhase::Starting,
            LifecyclePhase::Running => LifecyclePhase::Running,
            LifecyclePhase::Pausing => LifecyclePhase::Pausing,
            LifecyclePhase::Paused => LifecyclePhase::Paused,
            LifecyclePhase::Resuming => LifecyclePhase::Resuming,
            LifecyclePhase::Stopping => LifecyclePhase::Stopping,
            LifecyclePhase::Stopped => LifecyclePhase::Stopped,
            LifecyclePhase::Destroying => LifecyclePhase::Destroying,
            LifecyclePhase::Destroyed => LifecyclePhase::Destroyed,
            LifecyclePhase::Error(s) => LifecyclePhase::Error(s.clone()),
        }
    }

    /// The phase as `{:?}` writes it.
    pub fn debug_text(&self) -> (r: String)
        ensures
            r@ == phase_debug(*self),
    {
        match self {
            LifecyclePhase::NotCreated => String::from_str("NotCreated"),
            LifecyclePhase::Creating => String::from_str("Creating"),
            LifecyclePhase::Created => String::from_str("Created"),
            LifecyclePhase::Initializing => String::from_str("Initializing"),
            LifecyclePhase::Initialized => String::from_str("Initialized"),
            LifecyclePhase::Starting => String::from_str("Starting"),
            LifecyclePhase::Running => String::from_str("Running"),
            LifecyclePhase::Pausing => String::from_str("Pausing"),
            LifecyclePhase::Paused => String::from_str("Paused"),
            LifecyclePhase::Resuming => String::from_str("Resuming"),
            LifecyclePhase::Stopping => String::from_str("Stopping"),
            LifecyclePhase::Stopped => String::from_str("Stopped"),
            LifecyclePhase::Destroying => String::from_str("Destroying"),
            LifecyclePhase::Destroyed => String::from_str("Destroyed"),
            LifecyclePhase::Error(s) => {
                let q = quote_text(s.as_str());
                join3("Error(", q.as_str(), ")")
            },
        }
    }
}

/// How one component depends on another.
#[derive(Debug, Clone, Copy, PartialEq, Eq, Structural)]
pub enum DependencyType {
    /// Must be running before this component starts.
    Required,
    /// Should be running before this component starts.
    Preferred,
    /// Must not run at the same time.
    Conflicts,
    /// Exchanges data with this component.
    Data,
    /// Offers a service interface to this component.
    Service,
}

/// A dependency of a component on another one.
#[derive(Debug)]
pub struct ComponentDependency {
    pub component_id: ComponentId,
    pub dependency_type: DependencyType,
    pub optional: bool,
    pub min_version: Option<String>,
}

/// A dependency as plain values.
pub open spec fn dep_view(d: ComponentDependency) -> (Seq<char>, DependencyType, bool, Option<Seq<char>>) {
    (d.component_id.0@, d.dependency_type, d.optional, match d.min_version {
        Some(v) => Some(v@),
        None => None,
    })
}

pub open spec fn dep_views(ds: Seq<ComponentDependency>) -> Seq<(Seq<char>, DependencyType, bool, Option<Seq<char>>)> {
    ds.map_values(|d: ComponentDependency| dep_view(d))
}

impl ComponentDependency {
    /// A copy of this dependency.
    pub fn duplicate(&self) -> (r: Self)
        ensures
            dep_view(r) == dep_view(*self),
    {
        ComponentDependency {
            component_id: self.component_id.duplicate(),
            dependency_type: self.dependency_type,
            optional: self.optional,
            min_version: match &self.min_version {
                Some(v) => Some(v.clone()),
                None => None,
            },
        }
    }
}

/// A copy of each dependency in `ds`.
pub fn copy_dependencies(ds: &Vec<ComponentDependency>) -> (r: Vec<ComponentDependency>)
    ensures
        dep_views(r@) == dep_views(ds@),
{
    let mut out: Vec<ComponentDependency> = Vec::new();
    let mut i: usize = 0;
    while i < ds.len()
        invariant
            0 <= i <= ds@.len(),
            out@.len() == i,
            forall|j: int| 0 <= j < i ==> #[trigger] dep_view(out@[j]) == dep_view(ds@[j]),
        decreases ds.len() - i,
    {
        out.push(ds[i].duplicate());
        i = i + 1;
    }
    proof {
        assert(dep_views(out@) =~= dep_views(ds@));
    }
    out
}

/// What a registered component kind brings: its kind, its dependencies, a version and a description.
#[derive(Debug)]
pub struct ComponentRegistration {
    pub component_type: ComponentType,
    pub dependencies: Vec<ComponentDependency>,
    pub version: String,
    pub description: String,
}

/// The problem a dependency `d` has under `phases`, if any: a required one must exist
/// and run, a conflicting one must not run; optional ones and the other kinds pass.
pub open spec fn dep_problem(phases: Map<Seq<char>, LifecyclePhase>, d: (Seq<char>, DependencyType, bool, Option<Seq<char>>)) -> Option<Seq<char>> {
    if d.2 {
        None
    } else {
        match d.1 {
            DependencyType::Required => if !phases.dom().contains(d.0) {
                Some("依赖组件 "@ + d.0 + " 不存在"@)
            } else if phases[d.0] != LifecyclePhase::Running {
                Some("依赖组件 "@ + d.0 + " 未运行"@)
            } else {
                None
            },
            DependencyType::Conflicts => if phases.dom().contains(d.0) && phases[d.0] == LifecyclePhase::Running {
                Some("冲突组件 "@ + d.0 + " 正在运行"@)
            } else {
                None
            },
            _ => None,
        }
    }
}

/// The problem of the first dependency in `ds` that has one.
pub open spec fn first_problem(phases: Map<Seq<char>, LifecyclePhase>, ds: Seq<(Seq<char>, DependencyType, bool, Option<Seq<char>>)>) -> Option<Seq<char>>
    decreases ds.len(),
{
    if ds.len() == 0 {
        None
    } else {
        match dep_problem(phases, ds[0]) {
            Some(m) => Some(m),
            None => first_problem(phases, ds.drop_first()),
        }
    }
}

/// Registry of component kinds, component instances, their phases and dependencies.
pub struct ComponentRegistry {
    registrations: Vec<ComponentRegistration>,
    instances: Vec<(ComponentId, ComponentType)>,
    states: Vec<(ComponentId, LifecyclePhase)>,
    dependency_graph: Vec<(ComponentId, Vec<ComponentDependency>)>,
}

impl ComponentRegistry {
    /// The kinds registered, in registration order.
    pub closed spec fn kinds(&self) -> Seq<(int, Seq<char>)> {
        self.registrations@.map_values(|r: ComponentRegistration| type_key(r.component_type))
    }

    /// The dependencies declared for the kind at position `i` of `kinds()`.
    pub closed spec fn kind_dependencies(&self, i: int) -> Seq<(Seq<char>, DependencyType, bool, Option<Seq<char>>)> {
        dep_views(self.registrations@[i].dependencies@)
    }

    /// Component instances and their kinds.
    pub closed spec fn instances(&self) -> Map<Seq<char>, (int, Seq<char>)> {
        assoc_map(self.instances@).map_values(|t: ComponentType| type_key(t))
    }

    /// Recorded phase of each component.
    pub closed spec fn phases(&self) -> Map<Seq<char>, LifecyclePhase> {
        assoc_map(self.states@)
    }

    /// Declared dependencies of each component.
    pub closed spec fn dependencies(&self) -> Map<Seq<char>, Seq<(Seq<char>, DependencyType, bool, Option<Seq<char>>)>> {
        assoc_map(self.dependency_graph@).map_values(|v: Vec<ComponentDependency>| dep_views(v@))
    }

    pub closed spec fn wf(&self) -> bool {
        &&& keys_unique(self.instances@)
        &&& keys_unique(self.states@)
        &&& keys_unique(self.dependency_graph@)
        &&& forall|i: int, j: int| 0 <= i < j < self.registrations@.len()
            ==> #[trigger] type_key(self.registrations@[i].component_type) != #[trigger] type_key(self.registrations@[j].component_type)
    }

    /// Position of kind `t` among the registered kinds.
    pub open spec fn kind_index(&self, t: (int, Seq<char>)) -> Option<int> {
        if exists|i: int| 0 <= i < self.kinds().len() && self.kinds()[i] == t {
            Some(choose|i: int| 0 <= i < self.kinds().len() && self.kinds()[i] == t)
        } else {
            None
        }
    }

    /// The dependencies recorded for `k`, none if it has no entry.
    pub open spec fn deps_of(&self, k: Seq<char>) -> Seq<(Seq<char>, DependencyType, bool, Option<Seq<char>>)> {
        if self.dependencies().dom().contains(k) { self.dependencies()[k] } else { Seq::empty() }
    }

    /// An empty registry.
    pub fn new() -> (r: Self)
        ensures
            r.wf(),
            r.kinds().len() == 0,
            r.instances() == Map::<Seq<char>, (int, Seq<char>)>::empty(),
            r.phases() == Map::<Seq<char>, LifecyclePhase>::empty(),
            r.dependencies() == Map::<Seq<char>, Seq<(Seq<char>, DependencyType, bool, Option<Seq<char>>)>>::empty(),
    {
        let r = ComponentRegistry {
            registrations: Vec::new(),
            instances: Vec::new(),
            states: Vec::new(),
            dependency_graph: Vec::new(),
        };
        proof {
            assert(r.kinds() =~= Seq::<(int, Seq<char>)>::empty());
            assert(r.instances() =~= Map::<Seq<char>, (int, Seq<char>)>::empty());
            assert(r.dependencies() =~= Map::<Seq<char>, Seq<(Seq<char>, DependencyType, bool, Option<Seq<char>>)>>::empty());
        }
        r
    }

    /// Position of a registration of kind `t`.
    fn find_kind(&self, t: &ComponentType) -> (r: Option<usize>)
        requires
            self.wf(),
        ensures
            match r {
                Some(i) => i < self.kinds().len() && self.kinds()[i as int] == type_key(*t) && self.kind_index(type_key(*t)) == Some(i as int),
                None => self.kind_index(type_key(*t)) is None,
            },
    {
        let mut i: usize = 0;
        while i < self.registrations.len()
            invariant
                self.wf(),
                0 <= i <= self.registrations@.len(),
                forall|j: int| 0 <= j < i ==> #[trigger] self.kinds()[j] != type_key(*t),
            decreases self.registrations.len() - i,
        {
            if self.registrations[i].component_type.same_as(t) {
                proof {
                    assert(self.kinds()[i as int] == type_key(*t));
                    let c = choose|c: int| 0 <= c < self.kinds().len() && self.kinds()[c] == type_key(*t);
                    if c != i {
                        if c < i {
                            assert(type_key(self.registrations@[c].component_type) != type_key(self.registrations@[i as int].component_type));
                        } else {
                            assert(type_key(self.registrations@[i as int].component_type) != type_key(self.registrations@[c].component_type));
                        }
                    }
                }
                return Some(i);
            }
            i = i + 1;
        }
        None
    }

    /// Registers a component kind; refused when the kind is already registered.
    pub fn register_component_type(&mut self, registration: ComponentRegistration) -> (r: Result<(), ComponentError>)
        requires
            old(self).wf(),
        ensures
            final(self).wf(),
            r is Err <==> old(self).kind_index(type_key(registration.component_type)) is Some,
            r matches Err(e) ==> (e matches ComponentError::ConfigError(m)
                && m@ == "组件类型 "@ + type_debug(registration.component_type) + " 已注册"@),
            r is Ok ==> final(self).kinds() == old(self).kinds().push(type_key(registration.component_type)),
            r is Ok ==> final(self).kind_dependencies(old(self).kinds().len() as int) == dep_views(registration.dependencies@),
            r is Err ==> final(self).kinds() == old(self).kinds(),
            forall|i: int| 0 <= i < old(self).kinds().len() ==> #[trigger] final(self).kind_dependencies(i) == old(self).kind_dependencies(i),
            final(self).instances() == old(self).instances(),
            final(self).phases() == old(self).phases(),
            final(self).dependencies() == old(self).dependencies(),
    {
        match self.find_kind(&registration.component_type) {
            Some(_) => {
                let t = registration.component_type.debug_text();
                Err(ComponentError::ConfigError(join3("组件类型 ", t.as_str(), " 已注册")))
            },
            None => {
                let ghost before = self.registrations@;
                let ghost key = type_key(registration.component_type);
                self.registrations.push(registration);
                proof {
                    assert(self.kinds() =~= before.map_values(|r: ComponentRegistration| type_key(r.component_type)).push(key));
                    assert forall|i: int, j: int| 0 <= i < j < self.registrations@.len()
                        implies #[trigger] type_key(self.registrations@[i].component_type) != #[trigger] type_key(self.registrations@[j].component_type) by {
                        if j == before.len() {
                            assert(self.kinds()[i] == type_key(before[i].component_type));
                        }
                    };
                }
                Ok(())
            },
        }
    }

    /// Why creating component `component_id` of kind `component_type` is refused, if it is.
    pub fn creation_check(&self, component_type: &ComponentType, component_id: &ComponentId) -> (r: Result<(), ComponentError>)
        requires
            self.wf(),
        ensures
            r is Ok <==> !self.instances().dom().contains(component_id.0@) && self.kind_index(type_key(*component_type)) is Some,
            r matches Err(e) ==> (e matches ComponentError::ConfigError(m) && m@ == (if self.instances().dom().contains(component_id.0@) {
                "组件 "@ + component_id.0@ + " 已存在"@
            } else {
                "组件类型 "@ + type_debug(*component_type) + " 未注册"@
            })),
    {
        match assoc_find(&self.instances, component_id) {
            Some(i) => {
                proof {
                    lemma_assoc_get(self.instances@, i as int);
                }
                return Err(ComponentError::ConfigError(join3("组件 ", component_id.0.as_str(), " 已存在")));
            },
            None => {},
        }
        match self.find_kind(component_type) {
            Some(_) => Ok(()),
            None => {
                let t = component_type.debug_text();
                Err(ComponentError::ConfigError(join3("组件类型 ", t.as_str(), " 未注册")))
            },
        }
    }

    /// Records a new component of a registered kind, in the `Created` phase, with the
    /// kind's dependencies; refused as `creation_check` says.
    pub fn create_component(&mut self, component_type: &ComponentType, component_id: ComponentId) -> (r: Result<ComponentId, ComponentError>)
        requires
            old(self).wf(),
        ensures
            final(self).wf(),
            final(self).kinds() == old(self).kinds(),
            forall|i: int| 0 <= i < old(self).kinds().len() ==> #[trigger] final(self).kind_dependencies(i) == old(self).kind_dependencies(i),
            r is Ok <==> !old(self).instances().dom().contains(component_id.0@) && old(self).kind_index(type_key(*component_type)) is Some,
            r matches Err(e) ==> (e matches ComponentError::ConfigError(m) && m@ == (if old(self).instances().dom().contains(component_id.0@) {
                "组件 "@ + component_id.0@ + " 已存在"@
            } else {
                "组件类型 "@ + type_debug(*component_type) + " 未注册"@
            })),
            r is Err ==> final(self).instances() == old(self).instances() && final(self).phases() == old(self).phases()
                && final(self).dependencies() == old(self).dependencies(),
            r matches Ok(id) ==> id.0@ == component_id.0@
                && final(self).instances() == old(self).instances().insert(component_id.0@, type_key(*component_type))
                && final(self).phases() == old(self).phases().insert(component_id.0@, LifecyclePhase::Created)
                && final(self).dependencies() == old(self).dependencies().insert(component_id.0@,
                    old(self).kind_dependencies(old(self).kind_index(type_key(*component_type))->0)),
    {
        match self.creation_check(component_type, &component_id) {
            Err(e) => {
                return Err(e);
            },
            Ok(()) => {},
        }
        let k = match self.find_kind(component_type) {
            Some(k) => k,
            None => {
                return Err(ComponentError::ConfigError(String::new()));
            },
        };
        let deps = copy_dependencies(&self.registrations[k].dependencies);
        let ghost inst0 = self.instances@;
        let ghost st0 = self.states@;
        let ghost dg0 = self.dependency_graph@;
        self.instances.push((component_id.duplicate(), component_type.duplicate()));
        proof {
            lemma_assoc_push(inst0, self.instances@.last());
            assert(self.instances@ == inst0.push(self.instances@.last()));
            assert(self.instances() =~= assoc_map(inst0).map_values(|t: ComponentType| type_key(t)).insert(component_id.0@, type_key(*component_type)));
        }
        self.put_phase(&component_id, LifecyclePhase::Created);
        self.put_dependencies(&component_id, deps);
        Ok(component_id)
    }

    /// Records `phase` for `id`.
    fn put_phase(&mut self, id: &ComponentId, phase: LifecyclePhase)
        requires
            old(self).wf(),
        ensures
            final(self).wf(),
            final(self).phases() == old(self).phases().insert(id.0@, phase),
            final(self).registrations@ == old(self).registrations@,
            final(self).kinds() == old(self).kinds(),
            forall|i: int| 0 <= i < old(self).kinds().len() ==> #[trigger] final(self).kind_dependencies(i) == old(self).kind_dependencies(i),
            final(self).instances() == old(self).instances(),
            final(self).dependencies() == old(self).dependencies(),
    {
        let ghost st0 = self.states@;
        match assoc_find(&self.states, id) {
            Some(i) => {
                self.states.set(i, (id.duplicate(), phase));
                proof {
                    lemma_assoc_update(st0, i as int, self.states@[i as int]);
                }
            },
            None => {
                self.states.push((id.duplicate(), phase));
                proof {
                    lemma_assoc_push(st0, self.states@.last());
                    assert(self.states@ == st0.push(self.states@.last()));
                }
            },
        }
    }

    /// Records the dependencies of `id`.
    fn put_dependencies(&mut self, id: &ComponentId, deps: Vec<ComponentDependency>)
        requires
            old(self).wf(),
        ensures
            final(self).wf(),
            final(self).dependencies() == old(self).dependencies().insert(id.0@, dep_views(deps@)),
            final(self).kinds() == old(self).kinds(),
            forall|i: int| 0 <= i < old(self).kinds().len() ==> #[trigger] final(self).kind_dependencies(i) == old(self).kind_dependencies(i),
            final(self).instances() == old(self).instances(),
            final(self).phases() == old(self).phases(),
    {
        let ghost dg0 = self.dependency_graph@;
        let ghost dv = dep_views(deps@);
        match assoc_find(&self.dependency_graph, id) {
            Some(i) => {
                self.dependency_graph.set(i, (id.duplicate(), deps));
                proof {
                    lemma_assoc_update(dg0, i as int, self.dependency_graph@[i as int]);
                    assert(self.dependencies() =~= assoc_map(dg0).map_values(|v: Vec<ComponentDependency>| dep_views(v@)).insert(id.0@, dv));
                }
            },
            None => {
                self.dependency_graph.push((id.duplicate(), deps));
                proof {
                    lemma_assoc_push(dg0, self.dependency_graph@.last());
                    assert(self.dependency_graph@ == dg0.push(self.dependency_graph@.last()));
                    assert(self.dependencies() =~= assoc_map(dg0).map_values(|v: Vec<ComponentDependency>| dep_views(v@)).insert(id.0@, dv));
                }
            },
        }
    }

    /// Whether `id` is an existing instance.
    pub fn has_instance(&self, id: &ComponentId) -> (r: bool)
        requires
            self.wf(),
        ensures
            r == self.instances().dom().contains(id.0@),
    {
        match assoc_find(&self.instances, id) {
            Some(i) => {
                proof {
                    lemma_assoc_get(self.instances@, i as int);
                }
                true
            },
            None => false,
        }
    }

    /// The recorded phase of `id`.
    pub fn get_component_state(&self, id: &ComponentId) -> (r: Option<LifecyclePhase>)
        requires
            self.wf(),
        ensures
            r == (if self.phases().dom().contains(id.0@) { Some(self.phases()[id.0@]) } else { None }),
    {
        match assoc_find(&self.states, id) {
            Some(i) => {
                proof {
                    lemma_assoc_get(self.states@, i as int);
                }
                Some(self.states[i].1.duplicate())
            },
            None => None,
        }
    }

    /// Records `state` as the phase of `id`.
    pub fn set_component_state(&mut self, id: &ComponentId, state: LifecyclePhase) -> (r: Result<(), ComponentError>)
        requires
            old(self).wf(),
        ensures
            final(self).wf(),
            r is Ok,
            final(self).phases() == old(self).phases().insert(id.0@, state),
            final(self).kinds() == old(self).kinds(),
            forall|i: int| 0 <= i < old(self).kinds().len() ==> #[trigger] final(self).kind_dependencies(i) == old(self).kind_dependencies(i),
            final(self).instances() == old(self).instances(),
            final(self).dependencies() == old(self).dependencies(),
    {
        self.put_phase(id, state);
        Ok(())
    }

    /// Destroys `id`, given how its cleanup went: it enters `Destroying`; a failed
    /// cleanup ends there with its error; otherwise the instance and its dependencies
    /// are dropped and it ends `Destroyed`.
    pub fn destroy_component(&mut self, id: &ComponentId, cleanup: Result<(), ComponentError>) -> (r: Result<(), ComponentError>)
        requires
            old(self).wf(),
        ensures
            final(self).wf(),
            r == cleanup,
            final(self).kinds() == old(self).kinds(),
            forall|i: int| 0 <= i < old(self).kinds().len() ==> #[trigger] final(self).kind_dependencies(i) == old(self).kind_dependencies(i),
            r is Err ==> final(self).phases() == old(self).phases().insert(id.0@, LifecyclePhase::Destroying)
                && final(self).instances() == old(self).instances()
                && final(self).dependencies() == old(self).dependencies(),
            r is Ok ==> final(self).phases() == old(self).phases().insert(id.0@, LifecyclePhase::Destroyed)
                && final(self).instances() == old(self).instances().remove(id.0@)
                && final(self).dependencies() == old(self).dependencies().remove(id.0@),
    {
        self.put_phase(id, LifecyclePhase::Destroying);
        if cleanup.is_err() {
            return cleanup;
        }
        let ghost inst0 = self.instances@;
        match assoc_find(&self.instances, id) {
            Some(i) => {
                self.instances.remove(i);
                proof {
                    lemma_assoc_remove(inst0, i as int);
                    assert(self.instances() =~= assoc_map(inst0).map_values(|t: ComponentType| type_key(t)).remove(id.0@));
                }
            },
            None => {
                proof {
                    assert(self.instances() =~= self.instances().remove(id.0@));
                }
            },
        }
        self.put_phase(id, LifecyclePhase::Destroyed);
        let ghost dg0 = self.dependency_graph@;
        match assoc_find(&self.dependency_graph, id) {
            Some(i) => {
                self.dependency_graph.remove(i);
                proof {
                    lemma_assoc_remove(dg0, i as int);
                    assert(self.dependencies() =~= assoc_map(dg0).map_values(|v: Vec<ComponentDependency>| dep_views(v@)).remove(id.0@));
                }
            },
            None => {
                proof {
                    assert(self.dependencies() =~= self.dependencies().remove(id.0@));
                }
            },
        }
        proof {
            assert(self.phases() =~= old(self).phases().insert(id.0@, LifecyclePhase::Destroyed));
            assert forall|i: int| 0 <= i < old(self).kinds().len() implies #[trigger] self.kind_dependencies(i) == old(self).kind_dependencies(i) by {
                assert(self.registrations@ == old(self).registrations@);
            };
        }
        cleanup
    }

    /// Every recorded phase, by component.
    pub fn get_all_component_states(&self) -> (r: Vec<(ComponentId, LifecyclePhase)>)
        requires
            self.wf(),
        ensures
            keys_unique(r@),
            assoc_map(r@) == self.phases(),
    {
        let mut out: Vec<(ComponentId, LifecyclePhase)> = Vec::new();
        let mut i: usize = 0;
        while i < self.states.len()
            invariant
                keys_unique(self.states@),
                0 <= i <= self.states@.len(),
                out@.len() == i,
                forall|j: int| 0 <= j < i ==> #[trigger] out@[j].0.0@ == self.states@[j].0.0@ && out@[j].1 == self.states@[j].1,
            decreases self.states.len() - i,
        {
            out.push((self.states[i].0.duplicate(), self.states[i].1.duplicate()));
            i = i + 1;
        }
        proof {
            lemma_same_keys(out@, self.states@);
        }
        out
    }

    /// Checks the dependencies of `id` in order; the first one with a problem gives
    /// the error: a required dependency that does not exist or is not running, or a
    /// conflicting one that is running. Optional dependencies are skipped.
    pub fn check_dependencies(&self, id: &ComponentId) -> (r: Result<(), ComponentError>)
        requires
            self.wf(),
        ensures
            match first_problem(self.phases(), self.deps_of(id.0@)) {
                Some(m) => r matches Err(e) && e matches ComponentError::ConfigError(t) && t@ == m,
                None => r is Ok,
            },
    {
        let idx = match assoc_find(&self.dependency_graph, id) {
            Some(i) => i,
            None => {
                return Ok(());
            },
        };
        proof {
            lemma_assoc_get(self.dependency_graph@, idx as int);
        }
        let deps = &self.dependency_graph[idx].1;
        let ghost all = dep_views(deps@);
        proof {
            assert(all.skip(0) =~= all);
        }
        let mut j: usize = 0;
        while j < deps.len()
            invariant
                self.wf(),
                0 <= j <= deps@.len(),
                all == dep_views(deps@),
                all == self.deps_of(id.0@),
                first_problem(self.phases(), all) == first_problem(self.phases(), all.skip(j as int)),
            decreases deps.len() - j,
        {
            let ghost rest = all.skip(j as int);
            proof {
                assert(rest[0] == dep_view(deps@[j as int]));
                assert(rest.drop_first() =~= all.skip(j + 1));
            }
            let d = &deps[j];
            if !d.optional {
                match d.dependency_type {
                    DependencyType::Required => {
                        match self.get_component_state(&d.component_id) {
                            Some(LifecyclePhase::Running) => {},
                            Some(_) => {
                                return Err(ComponentError::ConfigError(join3("依赖组件 ", d.component_id.0.as_str(), " 未运行")));
                            },
                            None => {
                                return Err(ComponentError::ConfigError(join3("依赖组件 ", d.component_id.0.as_str(), " 不存在")));
                            },
                        }
                    },
                    DependencyType::Conflicts => {
                        match self.get_component_state(&d.component_id) {
                            Some(LifecyclePhase::Running) => {
                                return Err(ComponentError::ConfigError(join3("冲突组件 ", d.component_id.0.as_str(), " 正在运行")));
                            },
                            _ => {},
                        }
                    },
                    _ => {},
                }
            }
            j = j + 1;
        }
        Ok(())
    }
}

/// Settings of a lifecycle manager.
#[derive(Debug, Clone, Copy, PartialEq, Eq, Structural)]
pub struct LifecycleManagerConfig {
    /// Time allowed for a component to start, in milliseconds.
    pub startup_timeout: u64,
    /// Time allowed for a component to stop, in milliseconds.
    pub shutdown_timeout: u64,
    pub max_concurrent_operations: usize,
    pub enable_dependency_check: bool,
}

impl Default for LifecycleManagerConfig {
    /// Thirty seconds to start, ten to stop, ten operations at once, dependencies checked.
    fn default() -> (r: Self)
        ensures
            r == (LifecycleManagerConfig {
                startup_timeout: 30_000,
                shutdown_timeout: 10_000,
                max_concurrent_operations: 10,
                enable_dependency_check: true,
            }),
    {
        LifecycleManagerConfig {
            startup_timeout: 30_000,
            shutdown_timeout: 10_000,
            max_concurrent_operations: 10,
            enable_dependency_check: true,
        }
    }
}

/// How a component's own initialization ended.
#[derive(Debug)]
pub enum InitOutcome {
    /// It completed.
    Completed,
    /// It failed with this error.
    Failed(ComponentError),
    /// It did not finish within the startup timeout.
    TimedOut,
}

/// A request to move a component from one phase to another.
#[derive(Debug, Clone, Copy, PartialEq, Eq, Structural)]
pub enum Transition {
    Start,
    Stop,
    Pause,
    Resume,
}

/// Whether `t` may begin from phase `p`.
pub open spec fn allowed_from(t: Transition, p: LifecyclePhase) -> bool {
    match t {
        Transition::Start => p == LifecyclePhase::Initialized || p == LifecyclePhase::Stopped,
        Transition::Stop => p == LifecyclePhase::Running || p == LifecyclePhase::Paused,
        Transition::Pause => p == LifecyclePhase::Running,
        Transition::Resume => p == LifecyclePhase::Paused,
    }
}

/// The phase `t` ends in.
pub open spec fn target_phase(t: Transition) -> LifecyclePhase {
    match t {
        Transition::Start => LifecyclePhase::Running,
        Transition::Stop => LifecyclePhase::Stopped,
        Transition::Pause => LifecyclePhase::Paused,
        Transition::Resume => LifecyclePhase::Running,
    }
}

/// The phase a component passes through during `t`.
pub open spec fn passing_phase(t: Transition) -> LifecyclePhase {
    match t {
        Transition::Start => LifecyclePhase::Starting,
        Transition::Stop => LifecyclePhase::Stopping,
        Transition::Pause => LifecyclePhase::Pausing,
        Transition::Resume => LifecyclePhase::Resuming,
    }
}

/// One telling of a listener: its position, the component, the phase it entered, and
/// the listener's answer.
pub type Told = (int, ComponentId, LifecyclePhase, Result<(), ComponentError>);

/// `seg` is one round of telling the listeners `ls`, in order, that `id` entered `p`:
/// entry `j` is listener `j`'s telling, with an answer that listener gives to it.
pub open spec fn told_round<L: LifecycleListener>(ls: Seq<L>, seg: Seq<Told>, id: ComponentId, p: LifecyclePhase) -> bool {
    &&& seg.len() == ls.len()
    &&& forall|j: int| 0 <= j < seg.len() ==> {
        &&& (#[trigger] seg[j]).0 == j
        &&& seg[j].1 == id
        &&& seg[j].2 == p
        &&& ls[j].answers(&id, &p, seg[j].3)
    }
}

/// `after` is `before` followed by one round of telling `ls` per phase of `phases`, in turn.
pub open spec fn told_in_turn<L: LifecycleListener>(before: Seq<Told>, after: Seq<Told>, ls: Seq<L>, id: ComponentId,
    phases: Seq<LifecyclePhase>) -> bool
    decreases phases.len(),
{
    if phases.len() == 0 {
        after == before
    } else {
        let mid = after.len() - ls.len();
        &&& after.len() >= ls.len()
        &&& told_in_turn(before, after.take(mid), ls, id, phases.drop_last())
        &&& told_round(ls, after.skip(mid), id, phases.last())
    }
}

proof fn lemma_told_more<L: LifecycleListener>(before: Seq<Told>, mid: Seq<Told>, after: Seq<Told>, ls: Seq<L>,
    id: ComponentId, phases: Seq<LifecyclePhase>, p: LifecyclePhase)
    requires
        told_in_turn(before, mid, ls, id, phases),
        after.len() == mid.len() + ls.len(),
        after.take(mid.len() as int) == mid,
        told_round(ls, after.skip(mid.len() as int), id, p),
    ensures
        told_in_turn(before, after, ls, id, phases.push(p)),
{
    assert(phases.push(p).drop_last() =~= phases);
    assert(phases.push(p).last() == p);
}

/// The verb for `t` in a refusal.
pub open spec fn verb(t: Transition) -> Seq<char> {
    match t {
        Transition::Start => "启动"@,
        Transition::Stop => "停止"@,
        Transition::Pause => "暂停"@,
        Transition::Resume => "恢复"@,
    }
}

/// Why `t` on `k` is refused under `phases`, if it is: whether the error is a
/// configuration error (else a state error), and its text.
pub open spec fn refusal(phases: Map<Seq<char>, LifecyclePhase>, k: Seq<char>, t: Transition) -> Option<(bool, Seq<char>)> {
    if !phases.dom().contains(k) {
        Some((true, "组件 "@ + k + " 不存在"@))
    } else if !allowed_from(t, phases[k]) {
        Some((false, "组件 "@ + k + " 当前状态 "@ + phase_debug(phases[k]) + " 不能"@ + verb(t)))
    } else {
        None
    }
}

/// `e` is the error that `refusal` describes.
pub open spec fn is_refusal(e: ComponentError, why: (bool, Seq<char>)) -> bool {
    if why.0 {
        e matches ComponentError::ConfigError(m) && m@ == why.1
    } else {
        e matches ComponentError::StateError(m) && m@ == why.1
    }
}

/// The text an error carries.
pub open spec fn error_text(e: ComponentError) -> Seq<char> {
    match e {
        ComponentError::InitializationFailed(m) => m@,
        ComponentError::RenderError(m) => m@,
        ComponentError::UpdateError(m) => m@,
        ComponentError::ConfigError(m) => m@,
        ComponentError::StateError(m) => m@,
        ComponentError::CommunicationError(m) => m@,
        ComponentError::ResourceError(m) => m@,
    }
}

/// `r` is an initialization failure with text `msg`, and `k` went from phases
/// `before` to `after` by entering `Error` with that text.
pub open spec fn recorded_failure(
    before: Map<Seq<char>, LifecyclePhase>,
    after: Map<Seq<char>, LifecyclePhase>,
    k: Seq<char>,
    r: Result<(), ComponentError>,
    msg: Seq<char>,
) -> bool {
    &&& r is Err
    &&& r->Err_0 is InitializationFailed
    &&& error_text(r->Err_0) == msg
    &&& after.dom() == before.dom().insert(k)
    &&& after[k] is Error
    &&& after[k]->Error_0@ == msg
    &&& forall|j: Seq<char>| j != k && #[trigger] after.dom().contains(j) ==> after[j] == before[j]
}

/// Every listener of `ls` can be told of every change.
pub open spec fn all_accept<L: LifecycleListener>(ls: Seq<L>) -> bool {
    forall|i: int, c: ComponentId, p: LifecyclePhase| 0 <= i < ls.len() ==> #[trigger] ls[i].accepts(&c, &p)
}

/// Moves components through their lifecycle phases over a registry, and tells its
/// listeners of each phase a component enters.
pub struct LifecycleManager<L> {
    registry: ComponentRegistry,
    listeners: Vec<L>,
    config: LifecycleManagerConfig,
    told: Ghost<Seq<Told>>,
}

impl<L: LifecycleListener> LifecycleManager<L> {
    /// The registry this manager drives.
    pub closed spec fn reg(&self) -> ComponentRegistry {
        self.registry
    }

    /// The settings this manager runs with.
    pub closed spec fn settings(&self) -> LifecycleManagerConfig {
        self.config
    }

    /// The listeners, in the order they were added.
    pub closed spec fn listener_list(&self) -> Seq<L> {
        self.listeners@
    }

    /// Every telling of a listener so far, in order: the listener's position, the
    /// component, the phase it entered and the listener's answer.
    pub closed spec fn told(&self) -> Seq<Told> {
        self.told@
    }

    pub open spec fn wf(&self) -> bool {
        &&& self.reg().wf()
        &&& all_accept(self.listener_list())
    }

    /// A manager over `registry` with `config`, with no listeners.
    pub fn new(registry: ComponentRegistry, config: LifecycleManagerConfig) -> (r: Self)
        ensures
            r.reg() == registry,
            r.settings() == config,
            r.listener_list().len() == 0,
            r.told().len() == 0,
    {
        LifecycleManager { registry, listeners: Vec::new(), config, told: Ghost(Seq::empty()) }
    }

    /// The registry this manager drives.
    pub fn registry(&self) -> (r: &ComponentRegistry)
        ensures
            *r == self.reg(),
    {
        &self.registry
    }

    /// The registry, for changes made outside the lifecycle calls.
    pub fn registry_mut(&mut self) -> (r: &mut ComponentRegistry)
        ensures
            *r == old(self).reg(),
            final(self).reg() == *final(r),
            final(self).settings() == old(self).settings(),
            final(self).listener_list() == old(self).listener_list(),
            final(self).told() == old(self).told(),
    {
        &mut self.registry
    }

    /// Adds `listener` after the others.
    pub fn add_listener(&mut self, listener: L)
        requires
            old(self).wf(),
            forall|c: ComponentId, p: LifecyclePhase| #[trigger] listener.accepts(&c, &p),
        ensures
            final(self).wf(),
            final(self).listener_list() == old(self).listener_list().push(listener),
            final(self).reg() == old(self).reg(),
            final(self).settings() == old(self).settings(),
            final(self).told() == old(self).told(),
    {
        self.listeners.push(listener);
        proof {
            assert forall|i: int, c: ComponentId, p: LifecyclePhase|
                0 <= i < self.listener_list().len() implies #[trigger] self.listener_list()[i].accepts(&c, &p) by {
                if i < old(self).listener_list().len() {
                    assert(self.listener_list()[i] == old(self).listener_list()[i]);
                }
            };
        }
    }

    /// Removes every listener called `listener_name`, keeping the others in order.
    pub fn remove_listener(&mut self, listener_name: &str)
        requires
            old(self).wf(),
        ensures
            final(self).wf(),
            final(self).listener_list() == old(self).listener_list().filter(|l: L| l.label() != listener_name@),
            final(self).reg() == old(self).reg(),
            final(self).settings() == old(self).settings(),
            final(self).told() == old(self).told(),
    {
        let ghost pred = |l: L| l.label() != listener_name@;
        let ghost all = self.listeners@;
        let ghost mut j: int = 0;
        let target = String::from_str(listener_name);
        let mut i: usize = 0;
        proof {
            reveal(Seq::filter);
            assert(all.take(0) =~= Seq::<L>::empty());
            assert(self.listeners@.take(0) =~= all.take(0).filter(pred));
            assert(self.listeners@.skip(0) =~= all.skip(0));
        }
        while i < self.listeners.len()
            invariant
                0 <= i <= self.listeners@.len(),
                0 <= j <= all.len(),
                self.listeners@.len() - i == all.len() - j,
                self.listeners@.take(i as int) == all.take(j).filter(pred),
                self.listeners@.skip(i as int) == all.skip(j),
                all == old(self).listeners@,
                pred == (|l: L| l.label() != listener_name@),
                target@ == listener_name@,
                self.registry == old(self).registry,
                self.config == old(self).config,
                self.told == old(self).told,
                old(self).wf(),
            decreases self.listeners@.len() - i,
        {
            let ghost before = self.listeners@;
            proof {
                assert(before[i as int] == all[j]) by {
                    assert(before.skip(i as int)[0] == all.skip(j)[0]);
                };
                assert(all.take(j + 1).drop_last() =~= all.take(j));
                assert(all.take(j + 1).last() == all[j]);
                reveal(Seq::filter);
            }
            let here = String::from_str(self.listeners[i].name());
            if here == target {
                let _ = self.listeners.remove(i);
                proof {
                    assert(self.listeners@.take(i as int) =~= before.take(i as int));
                    assert forall|x: int| 0 <= x < all.skip(j + 1).len() implies
                        #[trigger] self.listeners@.skip(i as int)[x] == all.skip(j + 1)[x] by {
                        assert(before.skip(i as int)[x + 1] == all.skip(j)[x + 1]);
                    };
                    assert(self.listeners@.skip(i as int) =~= all.skip(j + 1));
                    assert(all.take(j + 1).filter(pred) =~= all.take(j).filter(pred));
                }
            } else {
                i = i + 1;
                proof {
                    assert(self.listeners@.take(i as int) =~= before.take(i - 1).push(all[j]));
                    assert(all.take(j + 1).filter(pred) =~= all.take(j).filter(pred).push(all[j]));
                    assert forall|x: int| 0 <= x < all.skip(j + 1).len() implies
                        #[trigger] self.listeners@.skip(i as int)[x] == all.skip(j + 1)[x] by {
                        assert(before.skip(i - 1)[x + 1] == all.skip(j)[x + 1]);
                    };
                    assert(self.listeners@.skip(i as int) =~= all.skip(j + 1));
                }
            }
            proof {
                j = j + 1;
            }
        }
        proof {
            assert(j == all.len());
            assert(all.take(j) =~= all);
            assert(self.listeners@ =~= self.listeners@.take(i as int));
            assert forall|k: int, c: ComponentId, p: LifecyclePhase|
                0 <= k < self.listener_list().len() implies #[trigger] self.listener_list()[k].accepts(&c, &p) by {
                let x = self.listeners@[k];
                assert(all.filter(pred).contains(x)) by {
                    assert(all.filter(pred)[k] == x);
                };
                all.lemma_filter_contains_rev(pred, x);
                let m = choose|m: int| 0 <= m < all.len() && all[m] == x;
                assert(old(self).listener_list()[m].accepts(&c, &p));
            };
        }
    }

    /// Tells every listener, in order, that `id` entered `phase`; a listener's error
    /// does not stop the others.
    fn notify_listeners(&mut self, id: &ComponentId, phase: &LifecyclePhase)
        requires
            old(self).wf(),
        ensures
            final(self).wf(),
            final(self).reg() == old(self).reg(),
            final(self).settings() == old(self).settings(),
            final(self).listener_list() == old(self).listener_list(),
            final(self).told().len() == old(self).told().len() + old(self).listener_list().len(),
            final(self).told().take(old(self).told().len() as int) == old(self).told(),
            told_round(old(self).listener_list(), final(self).told().skip(old(self).told().len() as int), *id, *phase),
    {
        let ghost t0 = self.told@;
        let mut i: usize = 0;
        while i < self.listeners.len()
            invariant
                0 <= i <= self.listeners@.len(),
                self.listeners@ == old(self).listeners@,
                self.registry == old(self).registry,
                self.config == old(self).config,
                old(self).wf(),
                t0 == old(self).told@,
                self.told@.len() == t0.len() + i,
                self.told@.take(t0.len() as int) == t0,
                forall|j: int| 0 <= j < i ==> {
                    &&& (#[trigger] self.told@[t0.len() + j]).0 == j
                    &&& self.told@[t0.len() + j].1 == *id
                    &&& self.told@[t0.len() + j].2 == *phase
                    &&& self.listeners@[j].answers(id, phase, self.told@[t0.len() + j].3)
                },
            decreases self.listeners@.len() - i,
        {
            proof {
                assert(old(self).listener_list()[i as int].accepts(id, phase));
            }
            let answer = self.listeners[i].on_lifecycle_change(id, phase);
            let ghost t1 = self.told@;
            self.told = Ghost(self.told@.push((i as int, *id, *phase, answer)));
            proof {
                assert(self.told@.take(t0.len() as int) =~= t1.take(t0.len() as int));
                assert forall|j: int| 0 <= j < i + 1 implies {
                    &&& (#[trigger] self.told@[t0.len() + j]).0 == j
                    &&& self.told@[t0.len() + j].1 == *id
                    &&& self.told@[t0.len() + j].2 == *phase
                    &&& self.listeners@[j].answers(id, phase, self.told@[t0.len() + j].3)
                } by {
                    if j < i {
                        assert(self.told@[t0.len() + j] == t1[t0.len() + j]);
                    }
                };
            }
            i = i + 1;
        }
        proof {
            let seg = self.told@.skip(t0.len() as int);
            assert forall|j: int| 0 <= j < seg.len() implies {
                &&& (#[trigger] seg[j]).0 == j
                &&& seg[j].1 == *id
                &&& seg[j].2 == *phase
                &&& old(self).listener_list()[j].answers(id, phase, seg[j].3)
            } by {
                assert(seg[j] == self.told@[t0.len() + j]);
            };
        }
    }

    /// First half of initializing `id`: its dependencies are checked when the settings
    /// ask for it, then it enters `Initializing`, and it must be an existing instance.
    /// The component's own initialization runs between this and `finish_initialization`.
    pub fn initialize_component(&mut self, id: &ComponentId) -> (r: Result<(), ComponentError>)
        requires
            old(self).wf(),
        ensures
            final(self).wf(),
            final(self).settings() == old(self).settings(),
            final(self).listener_list() == old(self).listener_list(),
            final(self).reg().kinds() == old(self).reg().kinds(),
            final(self).reg().instances() == old(self).reg().instances(),
            final(self).reg().dependencies() == old(self).reg().dependencies(),
            ({
                let problem = if old(self).settings().enable_dependency_check {
                    first_problem(old(self).reg().phases(), old(self).reg().deps_of(id.0@))
                } else {
                    None
                };
                match problem {
                    Some(m) => (r matches Err(e) && e matches ComponentError::ConfigError(t) && t@ == m)
                        && final(self).reg().phases() == old(self).reg().phases()
                        && final(self).told() == old(self).told(),
                    None => final(self).reg().phases() == old(self).reg().phases().insert(id.0@, LifecyclePhase::Initializing)
                        && told_in_turn(old(self).told(), final(self).told(), old(self).listener_list(), *id,
                            seq![LifecyclePhase::Initializing])
                        && (r is Ok <==> old(self).reg().instances().dom().contains(id.0@))
                        && (r matches Err(e) ==> e matches ComponentError::ConfigError(t) && t@ == "组件 "@ + id.0@ + " 不存在"@),
                }
            }),
    {
        if self.config.enable_dependency_check {
            match self.registry.check_dependencies(id) {
                Err(e) => {
                    return Err(e);
                },
                Ok(()) => {},
            }
        }
        let _ = self.registry.set_component_state(id, LifecyclePhase::Initializing);
        let ghost t0 = self.told@;
        self.notify_listeners(id, &LifecyclePhase::Initializing);
        proof {
            lemma_told_more(t0, t0, self.told@, self.listeners@, *id, Seq::empty(), LifecyclePhase::Initializing);
            assert(Seq::<LifecyclePhase>::empty().push(LifecyclePhase::Initializing) =~= seq![LifecyclePhase::Initializing]);
        }
        if !self.registry.has_instance(id) {
            return Err(ComponentError::ConfigError(join3("组件 ", id.0.as_str(), " 不存在")));
        }
        Ok(())
    }

    /// Second half of initializing `id`, given how the component's own initialization
    /// ended: `Initialized` when it completed, else `Error` with the reason, which the
    /// returned error carries too.
    pub fn finish_initialization(&mut self, id: &ComponentId, outcome: InitOutcome) -> (r: Result<(), ComponentError>)
        requires
            old(self).wf(),
        ensures
            final(self).wf(),
            final(self).settings() == old(self).settings(),
            final(self).listener_list() == old(self).listener_list(),
            final(self).reg().kinds() == old(self).reg().kinds(),
            final(self).reg().instances() == old(self).reg().instances(),
            final(self).reg().dependencies() == old(self).reg().dependencies(),
            match outcome {
                InitOutcome::Completed => r is Ok
                    && final(self).reg().phases() == old(self).reg().phases().insert(id.0@, LifecyclePhase::Initialized)
                    && told_in_turn(old(self).told(), final(self).told(), old(self).listener_list(), *id,
                        seq![LifecyclePhase::Initialized]),
                InitOutcome::Failed(e) => recorded_failure(old(self).reg().phases(), final(self).reg().phases(), id.0@, r,
                    "初始化失败: "@ + e.spec_message()) && final(self).told() == old(self).told(),
                InitOutcome::TimedOut => recorded_failure(old(self).reg().phases(), final(self).reg().phases(), id.0@, r,
                    "初始化超时"@) && final(self).told() == old(self).told(),
            },
    {
        match outcome {
            InitOutcome::Completed => {
                let _ = self.registry.set_component_state(id, LifecyclePhase::Initialized);
                let ghost t0 = self.told@;
                self.notify_listeners(id, &LifecyclePhase::Initialized);
                proof {
                    lemma_told_more(t0, t0, self.told@, self.listeners@, *id, Seq::empty(), LifecyclePhase::Initialized);
                    assert(Seq::<LifecyclePhase>::empty().push(LifecyclePhase::Initialized) =~= seq![LifecyclePhase::Initialized]);
                }
                Ok(())
            },
            InitOutcome::Failed(e) => {
                let detail = e.message();
                let msg = join2("初始化失败: ", detail.as_str());
                let _ = self.registry.set_component_state(id, LifecyclePhase::Error(msg.clone()));
                Err(ComponentError::InitializationFailed(msg))
            },
            InitOutcome::TimedOut => {
                let msg = String::from_str("初始化超时");
                let _ = self.registry.set_component_state(id, LifecyclePhase::Error(msg.clone()));
                Err(ComponentError::InitializationFailed(msg))
            },
        }
    }

    fn transition(&mut self, id: &ComponentId, t: Transition) -> (r: Result<(), ComponentError>)
        requires
            old(self).wf(),
        ensures
            final(self).wf(),
            final(self).settings() == old(self).settings(),
            final(self).listener_list() == old(self).listener_list(),
            final(self).reg().kinds() == old(self).reg().kinds(),
            final(self).reg().instances() == old(self).reg().instances(),
            final(self).reg().dependencies() == old(self).reg().dependencies(),
            match refusal(old(self).reg().phases(), id.0@, t) {
                Some(why) => (r matches Err(e) && is_refusal(e, why)) && final(self).reg().phases() == old(self).reg().phases()
                    && final(self).told() == old(self).told(),
                None => r is Ok && final(self).reg().phases() == old(self).reg().phases().insert(id.0@, target_phase(t))
                    && told_in_turn(old(self).told(), final(self).told(), old(self).listener_list(), *id,
                        seq![passing_phase(t), target_phase(t)]),
            },
    {
        let current = match self.registry.get_component_state(id) {
            Some(p) => p,
            None => {
                return Err(ComponentError::ConfigError(join3("组件 ", id.0.as_str(), " 不存在")));
            },
        };
        let ok = match t {
            Transition::Start => matches!(current, LifecyclePhase::Initialized | LifecyclePhase::Stopped),
            Transition::Stop => matches!(current, LifecyclePhase::Running | LifecyclePhase::Paused),
            Transition::Pause => matches!(current, LifecyclePhase::Running),
            Transition::Resume => matches!(current, LifecyclePhase::Paused),
        };
        if !ok {
            let shown = current.debug_text();
            let verb_text = match t {
                Transition::Start => "启动",
                Transition::Stop => "停止",
                Transition::Pause => "暂停",
                Transition::Resume => "恢复",
            };
            proof {
                reveal_strlit("启动");
                reveal_strlit("停止");
                reveal_strlit("暂停");
                reveal_strlit("恢复");
            }
            let head = join3("组件 ", id.0.as_str(), " 当前状态 ");
            let tail = join3(shown.as_str(), " 不能", verb_text);
            let msg = join2(head.as_str(), tail.as_str());
            proof {
                assert(msg@ =~= "组件 "@ + id.0@ + " 当前状态 "@ + phase_debug(current) + " 不能"@ + verb(t));
            }
            return Err(ComponentError::StateError(msg));
        }
        let (passing, target) = match t {
            Transition::Start => (LifecyclePhase::Starting, LifecyclePhase::Running),
            Transition::Stop => (LifecyclePhase::Stopping, LifecyclePhase::Stopped),
            Transition::Pause => (LifecyclePhase::Pausing, LifecyclePhase::Paused),
            Transition::Resume => (LifecyclePhase::Resuming, LifecyclePhase::Running),
        };
        let _ = self.registry.set_component_state(id, passing.duplicate());
        let ghost t0 = self.told@;
        self.notify_listeners(id, &passing);
        let ghost t1 = self.told@;
        let _ = self.registry.set_component_state(id, target.duplicate());
        self.notify_listeners(id, &target);
        proof {
            lemma_told_more(t0, t0, t1, self.listeners@, *id, Seq::empty(), passing);
            lemma_told_more(t0, t1, self.told@, self.listeners@, *id, seq![passing], target);
            assert(Seq::<LifecyclePhase>::empty().push(passing) =~= seq![passing]);
            assert(seq![passing].push(target) =~= seq![passing_phase(t), target_phase(t)]);
        }
        proof {
            assert(self.reg().phases() =~= old(self).reg().phases().insert(id.0@, target_phase(t)));
        }
        Ok(())
    }

    /// Starts `id`: allowed from `Initialized` or `Stopped`; it passes through
    /// `Starting` and ends `Running`.
    pub fn start_component(&mut self, id: &ComponentId) -> (r: Result<(), ComponentError>)
        requires
            old(self).wf(),
        ensures
            final(self).wf(),
            final(self).settings() == old(self).settings(),
            final(self).listener_list() == old(self).listener_list(),
            final(self).reg().kinds() == old(self).reg().kinds(),
            final(self).reg().instances() == old(self).reg().instances(),
            final(self).reg().dependencies() == old(self).reg().dependencies(),
            match refusal(old(self).reg().phases(), id.0@, Transition::Start) {
                Some(why) => (r matches Err(e) && is_refusal(e, why)) && final(self).reg().phases() == old(self).reg().phases()
                    && final(self).told() == old(self).told(),
                None => r is Ok && final(self).reg().phases() == old(self).reg().phases().insert(id.0@, LifecyclePhase::Running)
                    && told_in_turn(old(self).told(), final(self).told(), old(self).listener_list(), *id,
                        seq![passing_phase(Transition::Start), target_phase(Transition::Start)]),
            },
    {
        self.transition(id, Transition::Start)
    }

    /// Stops `id`: allowed from `Running` or `Paused`; it passes through `Stopping`
    /// and ends `Stopped`.
    pub fn stop_component(&mut self, id: &ComponentId) -> (r: Result<(), ComponentError>)
        requires
            old(self).wf(),
        ensures
            final(self).wf(),
            final(self).settings() == old(self).settings(),
            final(self).listener_list() == old(self).listener_list(),
            final(self).reg().kinds() == old(self).reg().kinds(),
            final(self).reg().instances() == old(self).reg().instances(),
            final(self).reg().dependencies() == old(self).reg().dependencies(),
            match refusal(old(self).reg().phases(), id.0@, Transition::Stop) {
                Some(why) => (r matches Err(e) && is_refusal(e, why)) && final(self).reg().phases() == old(self).reg().phases()
                    && final(self).told() == old(self).told(),
                None => r is Ok && final(self).reg().phases() == old(self).reg().phases().insert(id.0@, LifecyclePhase::Stopped)
                    && told_in_turn(old(self).told(), final(self).told(), old(self).listener_list(), *id,
                        seq![passing_phase(Transition::Stop), target_phase(Transition::Stop)]),
            },
    {
        self.transition(id, Transition::Stop)
    }

    /// Pauses `id`: allowed from `Running`; it passes through `Pausing` and ends `Paused`.
    pub fn pause_component(&mut self, id: &ComponentId) -> (r: Result<(), ComponentError>)
        requires
            old(self).wf(),
        ensures
            final(self).wf(),
            final(self).settings() == old(self).settings(),
            final(self).listener_list() == old(self).listener_list(),
            final(self).reg().kinds() == old(self).reg().kinds(),
            final(self).reg().instances() == old(self).reg().instances(),
            final(self).reg().dependencies() == old(self).reg().dependencies(),
            match refusal(old(self).reg().phases(), id.0@, Transition::Pause) {
                Some(why) => (r matches Err(e) && is_refusal(e, why)) && final(self).reg().phases() == old(self).reg().phases()
                    && final(self).told() == old(self).told(),
                None => r is Ok && final(self).reg().phases() == old(self).reg().phases().insert(id.0@, LifecyclePhase::Paused)
                    && told_in_turn(old(self).told(), final(self).told(), old(self).listener_list(), *id,
                        seq![passing_phase(Transition::Pause), target_phase(Transition::Pause)]),
            },
    {
        self.transition(id, Transition::Pause)
    }

    /// Resumes `id`: allowed from `Paused`; it passes through `Resuming` and ends `Running`.
    pub fn resume_component(&mut self, id: &ComponentId) -> (r: Result<(), ComponentError>)
        requires
            old(self).wf(),
        ensures
            final(self).wf(),
            final(self).settings() == old(self).settings(),
            final(self).listener_list() == old(self).listener_list(),
            final(self).reg().kinds() == old(self).reg().kinds(),
            final(self).reg().instances() == old(self).reg().instances(),
            final(self).reg().dependencies() == old(self).reg().dependencies(),
            match refusal(old(self).reg().phases(), id.0@, Transition::Resume) {
                Some(why) => (r matches Err(e) && is_refusal(e, why)) && final(self).reg().phases() == old(self).reg().phases()
                    && final(self).told() == old(self).told(),
                None => r is Ok && final(self).reg().phases() == old(self).reg().phases().insert(id.0@, LifecyclePhase::Running)
                    && told_in_turn(old(self).told(), final(self).told(), old(self).listener_list(), *id,
                        seq![passing_phase(Transition::Resume), target_phase(Transition::Resume)]),
            },
    {
        self.transition(id, Transition::Resume)
    }
}

/// Something told of every lifecycle change, implemented by the users of the library.
pub trait LifecycleListener {
    /// Whether this listener can be told that `component_id` entered `phase`.
    spec fn accepts(&self, component_id: &ComponentId, phase: &LifecyclePhase) -> bool;

    /// The listener's name.
    spec fn label(&self) -> Seq<char>;

    /// Whether `r` is an answer this listener may give when told that `component_id`
    /// entered `phase`.
    spec fn answers(&self, component_id: &ComponentId, phase: &LifecyclePhase, r: Result<(), ComponentError>) -> bool;

    /// Tells the listener that `component_id` entered `phase`.
    fn on_lifecycle_change(&self, component_id: &ComponentId, phase: &LifecyclePhase) -> (r: Result<(), ComponentError>)
        requires
            self.accepts(component_id, phase),
        ensures
            self.answers(component_id, phase, r),
    ;

    /// The listener's name.
    fn name(&self) -> (r: &str)
        ensures
            r@ == self.label(),
    ;
}

/// Lifecycle behaviour of a component, implemented by the users of the library.
pub trait ComponentLifecycle {
    /// Initializes the component.
    fn initialize(&mut self) -> (r: Result<(), ComponentError>);

    /// Starts the component.
    fn start(&mut self) -> (r: Result<(), ComponentError>);

    /// Pauses the component.
    fn pause(&mut self) -> (r: Result<(), ComponentError>);

    /// Resumes the component.
    fn resume(&mut self) -> (r: Result<(), ComponentError>);

    /// Stops the component.
    fn stop(&mut self) -> (r: Result<(), ComponentError>);

    /// Destroys the component.
    fn destroy(&mut self) -> (r: Result<(), ComponentError>);

    /// The phase the component is in.
    fn current_phase(&self) -> (r: LifecyclePhase);

    /// Whether the component may move to `phase`.
    fn can_transition_to(&self, phase: &LifecyclePhase) -> (r: bool);
}

/// A lifecycle listener made of a name and a callback.
pub struct SimpleLifecycleListener<F> {
    name: String,
    callback: F,
}

impl<F: Fn(&ComponentId, &LifecyclePhase) -> Result<(), ComponentError>> SimpleLifecycleListener<F> {
    /// The listener's callback.
    pub closed spec fn handler(&self) -> F {
        self.callback
    }

    /// A listener called `name` that hands each change to `callback`.
    pub fn new(name: String, callback: F) -> (r: Self)
        ensures
            r.label() == name@,
            r.handler() == callback,
    {
        SimpleLifecycleListener { name, callback }
    }
}

impl<F: Fn(&ComponentId, &LifecyclePhase) -> Result<(), ComponentError>> LifecycleListener for SimpleLifecycleListener<F> {
    /// The name it was made with.
    closed spec fn label(&self) -> Seq<char> {
        self.name@
    }

    /// The callback accepts the change.
    open spec fn accepts(&self, component_id: &ComponentId, phase: &LifecyclePhase) -> bool {
        call_requires(self.handler(), (component_id, phase))
    }

    /// An answer of the callback.
    open spec fn answers(&self, component_id: &ComponentId, phase: &LifecyclePhase, r: Result<(), ComponentError>) -> bool {
        call_ensures(self.handler(), (component_id, phase), r)
    }

    /// The callback's answer.
    fn on_lifecycle_change(&self, component_id: &ComponentId, phase: &LifecyclePhase) -> (r: Result<(), ComponentError>)
    {
        (self.callback)(component_id, phase)
    }

    fn name(&self) -> (r: &str)
        ensures
            r@ == self.label(),
    {
        self.name.as_str()
    }
}

/// Which phases each transition may begin from, and where it ends: start from
/// `Initialized` or `Stopped` to `Running`, stop from `Running` or `Paused` to
/// `Stopped`, pause from `Running` to `Paused`, resume from `Paused` to `Running`; a
/// component with no phase is refused every transition.
pub proof fn lemma_transition_table(phases: Map<Seq<char>, LifecyclePhase>, k: Seq<char>)
    ensures
        refusal(phases, k, Transition::Start) is None <==> phases.dom().contains(k)
            && (phases[k] == LifecyclePhase::Initialized || phases[k] == LifecyclePhase::Stopped),
        refusal(phases, k, Transition::Stop) is None <==> phases.dom().contains(k)
            && (phases[k] == LifecyclePhase::Running || phases[k] == LifecyclePhase::Paused),
        refusal(phases, k, Transition::Pause) is None <==> phases.dom().contains(k)
            && phases[k] == LifecyclePhase::Running,
        refusal(phases, k, Transition::Resume) is None <==> phases.dom().contains(k)
            && phases[k] == LifecyclePhase::Paused,
        target_phase(Transition::Start) == LifecyclePhase::Running,
        target_phase(Transition::Stop) == LifecyclePhase::Stopped,
        target_phase(Transition::Pause) == LifecyclePhase::Paused,
        target_phase(Transition::Resume) == LifecyclePhase::Running,
        passing_phase(Transition::Start) == LifecyclePhase::Starting,
        passing_phase(Transition::Stop) == LifecyclePhase::Stopping,
        passing_phase(Transition::Pause) == LifecyclePhase::Pausing,
        passing_phase(Transition::Resume) == LifecyclePhase::Resuming,
{
}

/// What a refused transition says: an unknown component is named as missing, one in
/// the wrong phase is named with that phase and the verb of the transition.
pub proof fn lemma_refusal_texts(phases: Map<Seq<char>, LifecyclePhase>, k: Seq<char>, t: Transition)
    ensures
        !phases.dom().contains(k) ==> refusal(phases, k, t) == Some((true, "组件 "@ + k + " 不存在"@)),
        phases.dom().contains(k) && refusal(phases, k, t) is Some ==> refusal(phases, k, t) == Some((false,
            "组件 "@ + k + " 当前状态 "@ + phase_debug(phases[k]) + " 不能"@ + match t {
                Transition::Start => "启动"@,
                Transition::Stop => "停止"@,
                Transition::Pause => "暂停"@,
                Transition::Resume => "恢复"@,
            })),
{
}

/// What a failing dependency says: a required one that does not exist or does not
/// run, or a conflicting one that runs, is named with the reason.
pub proof fn lemma_dependency_messages(phases: Map<Seq<char>, LifecyclePhase>, d: (Seq<char>, DependencyType, bool, Option<Seq<char>>))
    requires
        !d.2,
    ensures
        d.1 == DependencyType::Required && !phases.dom().contains(d.0) ==>
            first_problem(phases, seq![d]) == Some("依赖组件 "@ + d.0 + " 不存在"@),
        d.1 == DependencyType::Required && phases.dom().contains(d.0) && phases[d.0] != LifecyclePhase::Running ==>
            first_problem(phases, seq![d]) == Some("依赖组件 "@ + d.0 + " 未运行"@),
        d.1 == DependencyType::Conflicts && phases.dom().contains(d.0) && phases[d.0] == LifecyclePhase::Running ==>
            first_problem(phases, seq![d]) == Some("冲突组件 "@ + d.0 + " 正在运行"@),
{
    assert(seq![d][0] == d);
}

/// A paused component can be stopped: the stop is not refused and leaves it `Stopped`.
pub proof fn lemma_stop_from_paused(phases: Map<Seq<char>, LifecyclePhase>, k: Seq<char>)
    requires
        phases.dom().contains(k),
        phases[k] == LifecyclePhase::Paused,
    ensures
        refusal(phases, k, Transition::Stop) is None,
        phases.insert(k, target_phase(Transition::Stop))[k] == LifecyclePhase::Stopped,
{
}

/// The dependency check passes exactly when every required dependency that is not
/// optional exists and is running, and no conflicting dependency that is not optional
/// is running; a conflicting component that exists but does not run blocks nothing,
/// and optional dependencies and the other kinds are never checked.
pub proof fn lemma_dependency_check_passes(phases: Map<Seq<char>, LifecyclePhase>,
    ds: Seq<(Seq<char>, DependencyType, bool, Option<Seq<char>>)>)
    ensures
        first_problem(phases, ds) is None <==> (
            (forall|i: int| 0 <= i < ds.len() && !ds[i].2 && ds[i].1 == DependencyType::Required ==>
                phases.dom().contains(#[trigger] ds[i].0) && phases[ds[i].0] == LifecyclePhase::Running)
            && (forall|i: int| 0 <= i < ds.len() && !ds[i].2 && ds[i].1 == DependencyType::Conflicts ==>
                !(phases.dom().contains(#[trigger] ds[i].0) && phases[ds[i].0] == LifecyclePhase::Running))),
    decreases ds.len(),
{
    if ds.len() > 0 {
        let rest = ds.drop_first();
        lemma_dependency_check_passes(phases, rest);
        let req = |q: Seq<(Seq<char>, DependencyType, bool, Option<Seq<char>>)>, i: int|
            !q[i].2 && q[i].1 == DependencyType::Required ==> phases.dom().contains(q[i].0) && phases[q[i].0] == LifecyclePhase::Running;
        let con = |q: Seq<(Seq<char>, DependencyType, bool, Option<Seq<char>>)>, i: int|
            !q[i].2 && q[i].1 == DependencyType::Conflicts ==> !(phases.dom().contains(q[i].0) && phases[q[i].0] == LifecyclePhase::Running);
        if first_problem(phases, ds) is None {
            assert(dep_problem(phases, ds[0]) is None);
            assert forall|i: int| 0 <= i < ds.len() && !ds[i].2 && ds[i].1 == DependencyType::Required implies
                phases.dom().contains(#[trigger] ds[i].0) && phases[ds[i].0] == LifecyclePhase::Running by {
                if i > 0 {
                    assert(rest[i - 1] == ds[i]);
                    assert(req(rest, i - 1));
                }
            };
            assert forall|i: int| 0 <= i < ds.len() && !ds[i].2 && ds[i].1 == DependencyType::Conflicts implies
                !(phases.dom().contains(#[trigger] ds[i].0) && phases[ds[i].0] == LifecyclePhase::Running) by {
                if i > 0 {
                    assert(rest[i - 1] == ds[i]);
                    assert(con(rest, i - 1));
                }
            };
        }
        if (forall|i: int| 0 <= i < ds.len() && !ds[i].2 && ds[i].1 == DependencyType::Required ==>
                phases.dom().contains(#[trigger] ds[i].0) && phases[ds[i].0] == LifecyclePhase::Running)
            && (forall|i: int| 0 <= i < ds.len() && !ds[i].2 && ds[i].1 == DependencyType::Conflicts ==>
                !(phases.dom().contains(#[trigger] ds[i].0) && phases[ds[i].0] == LifecyclePhase::Running)) {
            assert(req(ds, 0) && con(ds, 0));
            assert(dep_problem(phases, ds[0]) is None);
            assert forall|i: int| 0 <= i < rest.len() && !rest[i].2 && rest[i].1 == DependencyType::Required implies
                phases.dom().contains(#[trigger] rest[i].0) && phases[rest[i].0] == LifecyclePhase::Running by {
                assert(rest[i] == ds[i + 1]);
                assert(req(ds, i + 1));
            };
            assert forall|i: int| 0 <= i < rest.len() && !rest[i].2 && rest[i].1 == DependencyType::Conflicts implies
                !(phases.dom().contains(#[trigger] rest[i].0) && phases[rest[i].0] == LifecyclePhase::Running) by {
                assert(rest[i] == ds[i + 1]);
                assert(con(ds, i + 1));
            };
        }
    }
}

/// Pausing a running component and then resuming it succeeds both times and leaves
/// every phase as it was.
pub proof fn lemma_pause_then_resume(phases: Map<Seq<char>, LifecyclePhase>, k: Seq<char>)
    requires
        phases.dom().contains(k),
        phases[k] == LifecyclePhase::Running,
    ensures
        refusal(phases, k, Transition::Pause) is None,
        refusal(phases.insert(k, target_phase(Transition::Pause)), k, Transition::Resume) is None,
        phases.insert(k, target_phase(Transition::Pause)).insert(k, target_phase(Transition::Resume)) == phases,
{
    assert(phases.insert(k, LifecyclePhase::Paused).insert(k, LifecyclePhase::Running) =~= phases);
}

/// Stopping a running component and starting it again succeeds both times and leaves
/// every phase as it was.
pub proof fn lemma_stop_then_start(phases: Map<Seq<char>, LifecyclePhase>, k: Seq<char>)
    requires
        phases.dom().contains(k),
        phases[k] == LifecyclePhase::Running,
    ensures
        refusal(phases, k, Transition::Stop) is None,
        refusal(phases.insert(k, target_phase(Transition::Stop)), k, Transition::Start) is None,
        phases.insert(k, target_phase(Transition::Stop)).insert(k, target_phase(Transition::Start)) == phases,
{
    assert(phases.insert(k, LifecyclePhase::Stopped).insert(k, LifecyclePhase::Running) =~= phases);
}

/// A component that is running cannot be started or resumed again, and one that is
/// not running cannot be paused.
pub proof fn lemma_no_double_start(phases: Map<Seq<char>, LifecyclePhase>, k: Seq<char>)
    ensures
        phases.dom().contains(k) && phases[k] == LifecyclePhase::Running ==>
            refusal(phases, k, Transition::Start) is Some && refusal(phases, k, Transition::Resume) is Some,
        phases.dom().contains(k) && phases[k] != LifecyclePhase::Running ==>
            refusal(phases, k, Transition::Pause) is Some,
{
}

} // verus!
