use vstd::prelude::*;
use crate::component::{ComponentError, random_uuid_text, is_uuid_v4_text};
use crate::json::JsonValue;
use crate::text::join3;
use crate::routing::{MessageRouter, MessageStats, ServiceMessage, routed_at};

verus! {

/// Unique identifier of a GUI service.
#[derive(Debug, Clone)]
pub struct ServiceId(pub String);

impl ServiceId {
    /// Builds an identifier from the given text.
    pub fn new(id: String) -> (r: Self)
        ensures
            r.0@ == id@,
    {
        ServiceId(id)
    }

    /// A fresh random identifier: the text of a version-4 UUID.
    pub fn generate() -> (r: Self)
        ensures
            is_uuid_v4_text(r.0@),
    {
        ServiceId(random_uuid_text())
    }

    /// A copy of this identifier with the same text.
    pub fn duplicate(&self) -> (r: Self)
        ensures
            r.0@ == self.0@,
    {
        ServiceId(self.0.clone())
    }

    /// Whether two identifiers hold the same text.
    pub fn same_as(&self, other: &ServiceId) -> (r: bool)
        ensures
            r == (self.0@ == other.0@),
    {
        self.0 == other.0
    }
}

/// The texts of a sequence of service identifiers.
pub open spec fn id_views(ids: Seq<ServiceId>) -> Seq<Seq<char>> {
    ids.map_values(|s: ServiceId| s.0@)
}

/// A dependency graph: each registered service with the services it depends on,
/// in registration order.
pub type DepGraph = Seq<(Seq<char>, Seq<Seq<char>>)>;

pub open spec fn registered(g: DepGraph, k: Seq<char>) -> bool {
    exists|i: int| 0 <= i < g.len() && #[trigger] g[i].0 == k
}

pub open spec fn unique_keys(g: DepGraph) -> bool {
    forall|i: int, j: int|
        0 <= i < g.len() && 0 <= j < g.len() && #[trigger] g[i].0 == #[trigger] g[j].0 ==> i == j
}

/// A position at which `k` is registered.
pub open spec fn key_index(g: DepGraph, k: Seq<char>) -> int {
    choose|i: int| 0 <= i < g.len() && #[trigger] g[i].0 == k
}

/// The dependencies of `k`: empty when `k` is not registered.
pub open spec fn deps_of(g: DepGraph, k: Seq<char>) -> Seq<Seq<char>> {
    if registered(g, k) {
        g[key_index(g, k)].1
    } else {
        Seq::empty()
    }
}

/// `a` depends directly on `b`.
pub open spec fn edge(g: DepGraph, a: Seq<char>, b: Seq<char>) -> bool {
    deps_of(g, a).contains(b)
}

/// Every service named in the graph: registered ones and the ones they depend on.
#[verifier::opaque]
pub open spec fn node_seq(g: DepGraph) -> Seq<Seq<char>>
    decreases g.len(),
{
    if g.len() == 0 {
        Seq::empty()
    } else {
        node_seq(g.drop_last()) + seq![g.last().0] + g.last().1
    }
}

pub open spec fn is_node(g: DepGraph, k: Seq<char>) -> bool {
    node_seq(g).contains(k)
}

/// Each element of `p` depends directly on the next one.
pub open spec fn is_path(g: DepGraph, p: Seq<Seq<char>>) -> bool {
    forall|j: int| 0 <= j < p.len() - 1 ==> #[trigger] edge(g, p[j], p[j + 1])
}

/// Some service depends, directly or through others, on itself.
pub open spec fn has_cycle(g: DepGraph) -> bool {
    exists|p: Seq<Seq<char>>| p.len() > 0 && #[trigger] is_path(g, p) && edge(g, p.last(), p[0])
}

/// Every dependency of an element stands before it.
pub open spec fn deps_first(g: DepGraph, o: Seq<Seq<char>>) -> bool {
    forall|i: int, d: Seq<char>|
        0 <= i < o.len() && #[trigger] edge(g, o[i], d) ==> exists|j: int|
            0 <= j < i && #[trigger] o[j] == d
}

/// `o` names every service of the graph once, each after all of its dependencies.
pub open spec fn is_startup_order(g: DepGraph, o: Seq<Seq<char>>) -> bool {
    &&& o.no_duplicates()
    &&& forall|k: Seq<char>| #[trigger] o.contains(k) <==> is_node(g, k)
    &&& deps_first(g, o)
}

/// A service named at position `i` of the graph is a node.
pub proof fn lemma_node_from_entry(g: DepGraph, i: int, k: Seq<char>)
    requires
        0 <= i < g.len(),
        g[i].0 == k || g[i].1.contains(k),
    ensures
        is_node(g, k),
    decreases g.len(),
{
    reveal(node_seq);
    let h = g.drop_last();
    let ns = node_seq(h) + seq![g.last().0] + g.last().1;
    assert(node_seq(g) == ns);
    if i < g.len() - 1 {
        assert(h[i] == g[i]);
        lemma_node_from_entry(h, i, k);
        let idx = choose|idx: int| 0 <= idx < node_seq(h).len() && node_seq(h)[idx] == k;
        assert(ns[idx] == k);
    } else if g[i].0 == k {
        assert(ns[node_seq(h).len() as int] == k);
    } else {
        let idx = choose|idx: int| 0 <= idx < g.last().1.len() && g.last().1[idx] == k;
        assert(ns[node_seq(h).len() + 1 + idx] == k);
    }
}

/// A node is named at some position of the graph.
pub proof fn lemma_entry_from_node(g: DepGraph, k: Seq<char>) -> (i: int)
    requires
        is_node(g, k),
    ensures
        0 <= i < g.len(),
        g[i].0 == k || g[i].1.contains(k),
    decreases g.len(),
{
    reveal(node_seq);
    let h = g.drop_last();
    let ns = node_seq(h) + seq![g.last().0] + g.last().1;
    assert(node_seq(g) == ns);
    let idx = choose|idx: int| 0 <= idx < ns.len() && ns[idx] == k;
    if idx < node_seq(h).len() {
        assert(node_seq(h)[idx] == k);
        let i = lemma_entry_from_node(h, k);
        assert(h[i] == g[i]);
        i
    } else if idx == node_seq(h).len() {
        g.len() - 1
    } else {
        assert(g.last().1[idx - node_seq(h).len() - 1] == k);
        g.len() - 1
    }
}

pub proof fn lemma_edge_target_is_node(g: DepGraph, a: Seq<char>, b: Seq<char>)
    requires
        edge(g, a, b),
    ensures
        is_node(g, b),
        registered(g, a),
{
    if !registered(g, a) {
        assert(deps_of(g, a) =~= Seq::<Seq<char>>::empty());
    }
    let i = key_index(g, a);
    assert(g[i].1.contains(b));
    lemma_node_from_entry(g, i, b);
}

/// With unique keys, `key_index` names the one position of a registered key.
pub proof fn lemma_key_index(g: DepGraph, i: int)
    requires
        unique_keys(g),
        0 <= i < g.len(),
    ensures
        registered(g, g[i].0),
        key_index(g, g[i].0) == i,
{
    let k = g[i].0;
    assert(registered(g, k));
    let j = key_index(g, k);
    assert(g[j].0 == g[i].0);
}

/// With unique keys, the dependencies listed at any position of `k` are those of `k`.
pub proof fn lemma_deps_at(g: DepGraph, i: int)
    requires
        unique_keys(g),
        0 <= i < g.len(),
    ensures
        deps_of(g, g[i].0) == g[i].1,
{
    let k = g[i].0;
    assert(registered(g, k));
    let j = key_index(g, k);
    assert(g[j].0 == g[i].0);
}

/// A startup order that names every service after its dependencies leaves no room
/// for a dependency cycle.
pub proof fn lemma_startup_order_acyclic(g: DepGraph, o: Seq<Seq<char>>)
    requires
        is_startup_order(g, o),
    ensures
        !has_cycle(g),
{
    if has_cycle(g) {
        let p = choose|p: Seq<Seq<char>>| p.len() > 0 && #[trigger] is_path(g, p) && edge(g, p.last(), p[0]);
        // every element of p is a node, so it has a position in o
        assert forall|j: int| 0 <= j < p.len() implies #[trigger] o.contains(p[j]) by {
            if j == 0 {
                lemma_edge_target_is_node(g, p.last(), p[0]);
            } else {
                assert(edge(g, p[j - 1], p[j - 1 + 1]));
                lemma_edge_target_is_node(g, p[j - 1], p[j]);
            }
        };
        // positions strictly decrease along the path
        let pos = |x: Seq<char>| o.index_of(x);
        assert forall|j: int| 0 <= j < p.len() implies o.index_of(#[trigger] p[j]) <= o.index_of(p[0]) - j by {
            lemma_path_positions(g, o, p, j);
        };
        let last = p.last();
        assert(o.contains(last));
        assert(o.index_of(p[p.len() - 1]) <= o.index_of(p[0]) - (p.len() - 1));
        edge_moves_back(g, o, last, p[0]);
        assert(false);
    }
}

proof fn edge_moves_back(g: DepGraph, o: Seq<Seq<char>>, a: Seq<char>, b: Seq<char>)
    requires
        is_startup_order(g, o),
        o.contains(a),
        edge(g, a, b),
    ensures
        o.contains(b),
        o.index_of(b) < o.index_of(a),
{
    o.index_of_first_ensures(a);
    let ia = o.index_of(a);
    assert(edge(g, o[ia], b));
    let j = choose|j: int| 0 <= j < ia && #[trigger] o[j] == b;
    o.index_of_first_ensures(b);
    assert(o.contains(b));
    let ib = o.index_of(b);
    assert(o[ib] == b);
    assert(o[j] == o[ib]);
    assert(ib == j);
}

proof fn lemma_path_positions(g: DepGraph, o: Seq<Seq<char>>, p: Seq<Seq<char>>, j: int)
    requires
        is_startup_order(g, o),
        is_path(g, p),
        0 <= j < p.len(),
        forall|t: int| 0 <= t < p.len() ==> #[trigger] o.contains(p[t]),
    ensures
        o.index_of(p[j]) <= o.index_of(p[0]) - j,
    decreases j,
{
    if j > 0 {
        lemma_path_positions(g, o, p, j - 1);
        assert(edge(g, p[j - 1], p[j - 1 + 1]));
        assert(o.contains(p[j - 1]));
        edge_moves_back(g, o, p[j - 1], p[j]);
    }
}


/// Invariant of a depth-first walk: `vis` is the chain of services being entered,
/// `ord` the services already placed.
pub open spec fn walk_ready(g: DepGraph, vis: Seq<Seq<char>>, ord: Seq<Seq<char>>) -> bool {
    &&& vis.no_duplicates()
    &&& ord.no_duplicates()
    &&& forall|x: Seq<char>| #[trigger] vis.contains(x) ==> !ord.contains(x) && is_node(g, x)
    &&& forall|x: Seq<char>| #[trigger] ord.contains(x) ==> is_node(g, x)
    &&& is_path(g, vis)
    &&& deps_first(g, ord)
}

proof fn lemma_walk_room(g: DepGraph, vis: Seq<Seq<char>>)
    requires
        vis.no_duplicates(),
        forall|x: Seq<char>| #[trigger] vis.contains(x) ==> is_node(g, x),
    ensures
        vis.len() <= node_seq(g).to_set().len(),
{
    vis.unique_seq_to_set();
    assert(vis.to_set().subset_of(node_seq(g).to_set()));
    broadcast use vstd::seq_lib::seq_to_set_is_finite;
    vstd::set_lib::lemma_len_subset(vis.to_set(), node_seq(g).to_set());
}

/// With a dependency cycle no startup order exists.
pub proof fn lemma_no_startup_order_with_cycle(g: DepGraph)
    requires
        has_cycle(g),
    ensures
        forall|o: Seq<Seq<char>>| !is_startup_order(g, o),
{
    assert forall|o: Seq<Seq<char>>| !is_startup_order(g, o) by {
        if is_startup_order(g, o) {
            lemma_startup_order_acyclic(g, o);
        }
    };
}

proof fn lemma_cycle_found(g: DepGraph, vis: Seq<Seq<char>>, id: Seq<char>)
    requires
        is_path(g, vis),
        vis.contains(id),
        edge(g, vis.last(), id),
    ensures
        has_cycle(g),
{
    let k = vis.index_of(id);
    vis.index_of_first_ensures(id);
    let p = vis.subrange(k, vis.len() as int);
    assert(p[0] == id);
    assert(p.last() == vis.last());
    assert forall|j: int| 0 <= j < p.len() - 1 implies #[trigger] edge(g, p[j], p[j + 1]) by {
        assert(p[j] == vis[k + j]);
        assert(p[j + 1] == vis[k + j + 1]);
        assert(edge(g, vis[k + j], vis[k + j + 1]));
    };
    assert(is_path(g, p));
}

proof fn lemma_enter(g: DepGraph, vis0: Seq<Seq<char>>, ord0: Seq<Seq<char>>, id: Seq<char>)
    requires
        walk_ready(g, vis0, ord0),
        !vis0.contains(id),
        !ord0.contains(id),
        is_node(g, id),
        vis0.len() > 0 ==> edge(g, vis0.last(), id),
    ensures
        walk_ready(g, vis0.push(id), ord0),
{
    let vis1 = vis0.push(id);
    assert(vis1.no_duplicates()) by {
        assert forall|a: int, b: int| 0 <= a < vis1.len() && 0 <= b < vis1.len() && a != b implies vis1[a] != vis1[b] by {
            if a < vis0.len() && b < vis0.len() {
                assert(vis0[a] != vis0[b]);
            } else if a < vis0.len() {
                assert(vis0.contains(vis0[a]));
            } else {
                assert(vis0.contains(vis0[b]));
            }
        };
    };
    assert forall|x: Seq<char>| #[trigger] vis1.contains(x) implies !ord0.contains(x) && is_node(g, x) by {
        if x != id {
            let t = choose|t: int| 0 <= t < vis1.len() && vis1[t] == x;
            assert(vis0[t] == x);
            assert(vis0.contains(x));
        }
    };
    assert forall|j: int| 0 <= j < vis1.len() - 1 implies #[trigger] edge(g, vis1[j], vis1[j + 1]) by {
        if j < vis0.len() - 1 {
            assert(edge(g, vis0[j], vis0[j + 1]));
        }
    };
    assert(is_path(g, vis1));
    assert(deps_first(g, ord0));
    assert(walk_ready(g, vis1, ord0));
}

proof fn lemma_place(g: DepGraph, vis0: Seq<Seq<char>>, ord0: Seq<Seq<char>>, ord1: Seq<Seq<char>>, id: Seq<char>)
    requires
        walk_ready(g, vis0.push(id), ord1),
        ord0.is_prefix_of(ord1),
        is_node(g, id),
        forall|d: Seq<char>| #[trigger] edge(g, id, d) ==> ord1.contains(d),
    ensures
        walk_ready(g, vis0, ord1.push(id)),
        ord0.is_prefix_of(ord1.push(id)),
        ord1.push(id).contains(id),
{
    let vis1 = vis0.push(id);
    let ord2 = ord1.push(id);
    assert(vis1.contains(id)) by {
        assert(vis1[vis0.len() as int] == id);
    };
    assert(!ord1.contains(id));
    assert forall|x: Seq<char>| #[trigger] ord2.contains(x) implies is_node(g, x) by {
        if x != id {
            let t = choose|t: int| 0 <= t < ord2.len() && ord2[t] == x;
            assert(ord1[t] == x);
            assert(ord1.contains(x));
        }
    };
    assert forall|x: Seq<char>| #[trigger] vis0.contains(x) implies !ord2.contains(x) && is_node(g, x) by {
        let t0 = choose|t: int| 0 <= t < vis0.len() && vis0[t] == x;
        assert(vis1[t0] == x);
        assert(vis1.contains(x));
        if ord2.contains(x) {
            let t = choose|t: int| 0 <= t < ord2.len() && ord2[t] == x;
            if t < ord1.len() {
                assert(ord1[t] == x);
            } else {
                assert(vis1[vis0.len() as int] == id);
                assert(x == id);
            }
        }
    };
    assert forall|j: int| 0 <= j < vis0.len() - 1 implies #[trigger] edge(g, vis0[j], vis0[j + 1]) by {
        assert(vis1[j] == vis0[j]);
        assert(vis1[j + 1] == vis0[j + 1]);
        assert(edge(g, vis1[j], vis1[j + 1]));
    };
    assert forall|i: int, d: Seq<char>| 0 <= i < ord2.len() && #[trigger] edge(g, ord2[i], d) implies exists|jj: int|
        0 <= jj < i && #[trigger] ord2[jj] == d by {
        if i < ord1.len() {
            assert(ord2[i] == ord1[i]);
            assert(edge(g, ord1[i], d));
            let jj = choose|jj: int| 0 <= jj < i && #[trigger] ord1[jj] == d;
            assert(ord2[jj] == d);
        } else {
            assert(ord2[i] == id);
            assert(ord1.contains(d));
            let jj = choose|jj: int| 0 <= jj < ord1.len() && ord1[jj] == d;
            assert(ord2[jj] == d);
        }
    };
    assert(vis0.no_duplicates()) by {
        assert forall|a: int, b: int| 0 <= a < vis0.len() && 0 <= b < vis0.len() && a != b implies vis0[a] != vis0[b] by {
            assert(vis1[a] == vis0[a]);
            assert(vis1[b] == vis0[b]);
        };
    };
    assert(ord2.no_duplicates());
    assert(ord0.is_prefix_of(ord2)) by {
        assert(ord2.subrange(0, ord0.len() as int) =~= ord1.subrange(0, ord0.len() as int));
    };
    assert(ord2[ord2.len() - 1] == id);
}

/// Whether `id` is among `ids`.
pub fn contains_id(ids: &Vec<ServiceId>, id: &ServiceId) -> (r: bool)
    ensures
        r == id_views(ids@).contains(id.0@),
{
    let mut i: usize = 0;
    while i < ids.len()
        invariant
            0 <= i <= ids.len(),
            forall|j: int| 0 <= j < i ==> id_views(ids@)[j] != id.0@,
        decreases ids.len() - i,
    {
        if ids[i].same_as(id) {
            assert(id_views(ids@)[i as int] == id.0@);
            return true;
        }
        i = i + 1;
    }
    false
}

/// A registered service: its identifier and the services it depends on.
pub struct ServiceEntry {
    pub id: ServiceId,
    pub dependencies: Vec<ServiceId>,
}

/// Lifecycle states of a service.
#[derive(Debug)]
pub enum ServiceState {
    Stopped,
    Starting,
    Running,
    Stopping,
    Paused,
    Error(String),
}

impl ServiceState {
    /// A copy of this state.
    pub fn duplicate(&self) -> (r: Self)
        ensures
            r == *self,
    {
        match self {
            ServiceState::Stopped => ServiceState::Stopped,
            ServiceState::Starting => ServiceState::Starting,
            ServiceState::Running => ServiceState::Running,
            ServiceState::Stopping => ServiceState::Stopping,
            ServiceState::Paused => ServiceState::Paused,
            ServiceState::Error(m) => ServiceState::Error(m.clone()),
        }
    }
}

/// Registry of services with their states and dependency graph.
pub struct GUIServiceManager {
    services: Vec<ServiceEntry>,
    states: Vec<ServiceState>,
    is_running: bool,
    message_router: MessageRouter,
}

impl GUIServiceManager {
    pub closed spec fn entries(&self) -> Seq<ServiceEntry> {
        self.services@
    }

    /// The state of each registered service, by registration position.
    pub closed spec fn states(&self) -> Seq<ServiceState> {
        self.states@
    }


    /// The recorded state of `k`, if it is registered.
    pub open spec fn state_of(&self, k: Seq<char>) -> Option<ServiceState> {
        if registered(self.graph(), k) {
            Some(self.states()[key_index(self.graph(), k)])
        } else {
            None
        }
    }

    /// The dependency graph, in registration order.
    pub open spec fn graph(&self) -> DepGraph {
        self.entries().map_values(|e: ServiceEntry| (e.id.0@, id_views(e.dependencies@)))
    }

    /// Well-formedness: each service registered once, each with one state.
    pub closed spec fn wf(&self) -> bool {
        &&& unique_keys(self.graph())
        &&& self.states@.len() == self.services@.len()
        &&& self.message_router.wf()
    }

    /// The router of the messages between services.
    pub closed spec fn router(&self) -> MessageRouter {
        self.message_router
    }

    /// Text of the error for a dependency `d` that is not running.
    pub open spec fn dependency_message(&self, d: Seq<char>) -> Seq<char> {
        if registered(self.graph(), d) {
            "依赖服务 "@ + d + " 未运行"@
        } else {
            "依赖服务 "@ + d + " 未找到"@
        }
    }

    /// `d` is registered and running.
    pub open spec fn dep_ready(&self, d: Seq<char>) -> bool {
        self.state_of(d) == Some(ServiceState::Running)
    }

    /// Every dependency of `k` is registered and running.
    pub open spec fn deps_ready(&self, k: Seq<char>) -> bool {
        forall|t: int| 0 <= t < deps_of(self.graph(), k).len() ==> #[trigger] self.dep_ready(deps_of(self.graph(), k)[t])
    }

    /// `d` is the first dependency of `k` that is not ready.
    pub open spec fn first_unready(&self, k: Seq<char>, t: int) -> bool {
        &&& 0 <= t < deps_of(self.graph(), k).len()
        &&& !self.dep_ready(deps_of(self.graph(), k)[t])
        &&& forall|u: int| 0 <= u < t ==> #[trigger] self.dep_ready(deps_of(self.graph(), k)[u])
    }

    /// The error `check_dependencies` gives for `k`, when one of its dependencies is not ready.
    pub open spec fn dependency_error(&self, k: Seq<char>, e: ComponentError) -> bool {
        exists|t: int| #[trigger] self.first_unready(k, t) && (e matches ComponentError::ConfigError(m) && m@ == self.dependency_message(deps_of(self.graph(), k)[t]))
    }

    /// An empty manager.
    pub fn new() -> (r: Self)
        ensures
            r.wf(),
            r.graph().len() == 0,
            r.states().len() == 0,
            !r.running(),
            r.router().channel_ids().len() == 0,
            r.router().counters() == (MessageStats { total_sent: 0, total_received: 0, total_dropped: 0, last_activity: None }),
    {
        let r = GUIServiceManager { services: Vec::new(), states: Vec::new(), is_running: false, message_router: MessageRouter::new() };
        proof {
            assert(r.graph() =~= Seq::<(Seq<char>, Seq<Seq<char>>)>::empty());
        }
        r
    }

    /// Registers a service with its dependencies, in the `Stopped` state; refused
    /// when a service with the same identifier is already registered.
    pub fn register_service(&mut self, id: ServiceId, dependencies: Vec<ServiceId>) -> (r: Result<(), ComponentError>)
        requires
            old(self).wf(),
        ensures
            final(self).wf(),
            r is Err <==> registered(old(self).graph(), id.0@),
            r matches Err(e) ==> (e matches ComponentError::ConfigError(m) && m@ == "服务 "@ + id.0@ + " 已存在"@),
            r is Err ==> final(self).graph() == old(self).graph() && final(self).states() == old(self).states(),
            r is Ok ==> final(self).graph() == old(self).graph().push((id.0@, id_views(dependencies@))),
            r is Ok ==> final(self).states() == old(self).states().push(ServiceState::Stopped),
            final(self).running() == old(self).running(),
    {
        match self.find(&id) {
            Some(_) => {
                Err(ComponentError::ConfigError(join3("服务 ", id.0.as_str(), " 已存在")))
            },
            None => {
                let ghost g0 = self.graph();
                let ghost k = id.0@;
                let ghost dv = id_views(dependencies@);
                self.services.push(ServiceEntry { id, dependencies });
                self.states.push(ServiceState::Stopped);
                proof {
                    assert(self.graph() =~= g0.push((k, dv)));
                }
                Ok(())
            },
        }
    }

    /// The recorded state of `id`.
    pub fn get_service_state(&self, id: &ServiceId) -> (r: Option<ServiceState>)
        requires
            self.wf(),
        ensures
            r == self.state_of(id.0@),
    {
        match self.find(id) {
            Some(i) => {
                proof {
                    lemma_key_index(self.graph(), i as int);
                }
                Some(self.states[i].duplicate())
            },
            None => None,
        }
    }

    /// Checks that every dependency of `id` is registered and running; the first one
    /// that is not gives the error.
    pub fn check_dependencies(&self, id: &ServiceId) -> (r: Result<(), ComponentError>)
        requires
            self.wf(),
        ensures
            r is Ok <==> self.deps_ready(id.0@),
            r matches Err(e) ==> self.dependency_error(id.0@, e),
    {
        let ghost g = self.graph();
        match self.find(id) {
            None => {
                proof {
                    assert(deps_of(g, id.0@) =~= Seq::<Seq<char>>::empty());
                }
                Ok(())
            },
            Some(idx) => {
                let deps = &self.services[idx].dependencies;
                proof {
                    lemma_deps_at(g, idx as int);
                    assert(deps_of(g, id.0@) == id_views(deps@));
                }
                let mut j: usize = 0;
                while j < deps.len()
                    invariant
                        g == self.graph(),
                        self.wf(),
                        self.states@.len() == self.services@.len(),
                        0 <= j <= deps@.len(),
                        deps_of(g, id.0@) == id_views(deps@),
                        forall|u: int| 0 <= u < j ==> #[trigger] self.dep_ready(deps_of(g, id.0@)[u]),
                    decreases deps.len() - j,
                {
                    let d = &deps[j];
                    assert(deps_of(g, id.0@)[j as int] == d.0@);
                    match self.find(d) {
                        None => {
                            assert(self.first_unready(id.0@, j as int));
                            return Err(ComponentError::ConfigError(join3("依赖服务 ", d.0.as_str(), " 未找到")));
                        },
                        Some(di) => {
                            proof {
                                lemma_key_index(g, di as int);
                            }
                            match &self.states[di] {
                                ServiceState::Running => {},
                                _ => {
                                    assert(self.first_unready(id.0@, j as int));
                                    return Err(ComponentError::ConfigError(join3("依赖服务 ", d.0.as_str(), " 未运行")));
                                },
                            }
                        },
                    }
                    j = j + 1;
                }
                Ok(())
            },
        }
    }

    /// Records a new state for a registered service.
    fn put_state(&mut self, i: usize, st: ServiceState)
        requires
            i < old(self).states().len(),
            old(self).wf(),
        ensures
            final(self).wf(),
            final(self).graph() == old(self).graph(),
            final(self).states() == old(self).states().update(i as int, st),
            final(self).running() == old(self).running(),
    {
        self.states.set(i, st);
    }

    /// Start request for `id`: its dependencies must be running and it must be
    /// registered; it then enters `Starting`.
    pub fn begin_start(&mut self, id: &ServiceId) -> (r: Result<(), ComponentError>)
        requires
            old(self).wf(),
        ensures
            final(self).wf(),
            final(self).graph() == old(self).graph(),
            final(self).running() == old(self).running(),
            r is Ok <==> old(self).deps_ready(id.0@) && registered(old(self).graph(), id.0@),
            r matches Err(e) ==> (if !old(self).deps_ready(id.0@) {
                old(self).dependency_error(id.0@, e)
            } else {
                e matches ComponentError::ConfigError(m) && m@ == "服务 "@ + id.0@ + " 未找到"@
            }),
            r is Ok ==> final(self).states() == old(self).states().update(key_index(old(self).graph(), id.0@), ServiceState::Starting),
            r is Err ==> final(self).states() == old(self).states(),
    {
        match self.check_dependencies(id) {
            Err(e) => {
                return Err(e);
            },
            Ok(()) => {},
        }
        match self.find(id) {
            None => Err(ComponentError::ConfigError(join3("服务 ", id.0.as_str(), " 未找到"))),
            Some(i) => {
                proof {
                    lemma_key_index(self.graph(), i as int);
                }
                self.put_state(i, ServiceState::Starting);
                Ok(())
            },
        }
    }

    /// Outcome of starting `id`: `Running` on success, else `Error` with the error's
    /// text; the outcome is handed back.
    pub fn finish_start(&mut self, id: &ServiceId, outcome: Result<(), ComponentError>) -> (r: Result<(), ComponentError>)
        requires
            old(self).wf(),
        ensures
            final(self).wf(),
            r == outcome,
            final(self).graph() == old(self).graph(),
            final(self).running() == old(self).running(),
            !registered(old(self).graph(), id.0@) ==> final(self).states() == old(self).states(),
            registered(old(self).graph(), id.0@) ==> final(self).states().len() == old(self).states().len()
                && (forall|j: int| 0 <= j < old(self).states().len() && j != key_index(old(self).graph(), id.0@)
                    ==> final(self).states()[j] == old(self).states()[j]),
            registered(old(self).graph(), id.0@) ==> (match outcome {
                Ok(()) => final(self).state_of(id.0@) == Some(ServiceState::Running),
                Err(e) => final(self).state_of(id.0@) matches Some(ServiceState::Error(m)) && m@ == e.spec_message(),
            }),
    {
        self.record_outcome(id, outcome, ServiceState::Running)
    }

    /// Stop request for `id`: it must be registered; it then enters `Stopping`.
    pub fn begin_stop(&mut self, id: &ServiceId) -> (r: Result<(), ComponentError>)
        requires
            old(self).wf(),
        ensures
            final(self).wf(),
            final(self).graph() == old(self).graph(),
            final(self).running() == old(self).running(),
            r is Ok <==> registered(old(self).graph(), id.0@),
            r matches Err(e) ==> (e matches ComponentError::ConfigError(m) && m@ == "服务 "@ + id.0@ + " 未找到"@),
            r is Ok ==> final(self).states() == old(self).states().update(key_index(old(self).graph(), id.0@), ServiceState::Stopping),
            r is Err ==> final(self).states() == old(self).states(),
    {
        match self.find(id) {
            None => Err(ComponentError::ConfigError(join3("服务 ", id.0.as_str(), " 未找到"))),
            Some(i) => {
                proof {
                    lemma_key_index(self.graph(), i as int);
                }
                self.put_state(i, ServiceState::Stopping);
                Ok(())
            },
        }
    }

    /// Outcome of stopping `id`: `Stopped` on success, else `Error` with the error's
    /// text; the outcome is handed back.
    pub fn finish_stop(&mut self, id: &ServiceId, outcome: Result<(), ComponentError>) -> (r: Result<(), ComponentError>)
        requires
            old(self).wf(),
        ensures
            final(self).wf(),
            r == outcome,
            final(self).graph() == old(self).graph(),
            final(self).running() == old(self).running(),
            !registered(old(self).graph(), id.0@) ==> final(self).states() == old(self).states(),
            registered(old(self).graph(), id.0@) ==> final(self).states().len() == old(self).states().len()
                && (forall|j: int| 0 <= j < old(self).states().len() && j != key_index(old(self).graph(), id.0@)
                    ==> final(self).states()[j] == old(self).states()[j]),
            registered(old(self).graph(), id.0@) ==> (match outcome {
                Ok(()) => final(self).state_of(id.0@) == Some(ServiceState::Stopped),
                Err(e) => final(self).state_of(id.0@) matches Some(ServiceState::Error(m)) && m@ == e.spec_message(),
            }),
    {
        self.record_outcome(id, outcome, ServiceState::Stopped)
    }

    fn record_outcome(&mut self, id: &ServiceId, outcome: Result<(), ComponentError>, done: ServiceState) -> (r: Result<(), ComponentError>)
        requires
            old(self).wf(),
        ensures
            final(self).wf(),
            r == outcome,
            final(self).graph() == old(self).graph(),
            final(self).running() == old(self).running(),
            !registered(old(self).graph(), id.0@) ==> final(self).states() == old(self).states(),
            registered(old(self).graph(), id.0@) ==> final(self).states().len() == old(self).states().len()
                && (forall|j: int| 0 <= j < old(self).states().len() && j != key_index(old(self).graph(), id.0@)
                    ==> final(self).states()[j] == old(self).states()[j]),
            registered(old(self).graph(), id.0@) ==> (match outcome {
                Ok(()) => final(self).state_of(id.0@) == Some(done),
                Err(e) => final(self).state_of(id.0@) matches Some(ServiceState::Error(m)) && m@ == e.spec_message(),
            }),
    {
        match self.find(id) {
            None => outcome,
            Some(i) => {
                proof {
                    lemma_key_index(self.graph(), i as int);
                }
                let st = match &outcome {
                    Ok(()) => done,
                    Err(e) => ServiceState::Error(e.message()),
                };
                self.put_state(i, st);
                outcome
            },
        }
    }

    /// Marks the manager as started or stopped as a whole.
    pub fn set_running(&mut self, running: bool)
        requires
            old(self).wf(),
        ensures
            final(self).wf(),
            final(self).running() == running,
            final(self).graph() == old(self).graph(),
            final(self).states() == old(self).states(),
    {
        self.is_running = running;
    }

    /// Routes `message` between services by the system clock, as `MessageRouter::route_message` does.
    pub fn send_message(&mut self, message: ServiceMessage) -> (r: Result<Vec<ServiceId>, ComponentError>)
        requires
            old(self).wf(),
            old(self).router().counters().total_dropped < u64::MAX,
            old(self).router().counters().total_sent < u64::MAX,
        ensures
            final(self).wf(),
            final(self).graph() == old(self).graph(),
            final(self).states() == old(self).states(),
            final(self).running() == old(self).running(),
            final(self).router().channel_ids() == old(self).router().channel_ids(),
            exists|now: u64| #[trigger] routed_at(old(self).router(), final(self).router(), message, now, r),
    {
        let ghost m = message;
        let r = self.message_router.route_message(message);
        proof {
            let now = choose|now: u64| #[trigger] routed_at(old(self).router(), self.router(), m, now, r);
            assert(routed_at(old(self).router(), self.router(), m, now, r));
        }
        r
    }

    /// The counters of the messages routed between services.
    pub fn message_stats(&self) -> (r: MessageStats)
        ensures
            r == self.router().counters(),
    {
        self.message_router.get_stats()
    }

    /// Identifiers of the registered services, in registration order.
    pub fn service_ids(&self) -> (r: Vec<ServiceId>)
        ensures
            r@.len() == self.graph().len(),
            forall|i: int| 0 <= i < r@.len() ==> (#[trigger] r@[i]).0@ == self.graph()[i].0,
    {
        let mut r: Vec<ServiceId> = Vec::new();
        let mut i: usize = 0;
        while i < self.services.len()
            invariant
                0 <= i <= self.services@.len(),
                self.entries() == self.services@,
                r@.len() == i,
                forall|j: int| 0 <= j < i ==> (#[trigger] r@[j]).0@ == self.graph()[j].0,
            decreases self.services.len() - i,
        {
            r.push(self.services[i].id.duplicate());
            i = i + 1;
        }
        r
    }

    /// Whether the manager has been started as a whole.
    pub closed spec fn running(&self) -> bool {
        self.is_running
    }

    /// Services in a startup order: every service named in the graph once, after
    /// all of its dependencies; refused exactly when the dependencies form a cycle,
    /// with an error naming a service found again while its dependencies were walked.
    pub fn calculate_startup_order(&self) -> (r: Result<Vec<ServiceId>, ComponentError>)
        requires
            self.wf(),
        ensures
            r matches Ok(o) ==> is_startup_order(self.graph(), id_views(o@)),
            r is Err <==> has_cycle(self.graph()),
            r matches Err(e) ==> e matches ComponentError::ConfigError(m)
                && exists|k: Seq<char>| #[trigger] is_node(self.graph(), k) && m@ == "检测到服务依赖环: "@ + k,
    {
        let ghost g = self.graph();
        let mut order: Vec<ServiceId> = Vec::new();
        let mut visiting: Vec<ServiceId> = Vec::new();
        let mut i: usize = 0;
        proof {
            assert(id_views(visiting@) =~= Seq::<Seq<char>>::empty());
            assert(id_views(order@) =~= Seq::<Seq<char>>::empty());
        }
        while i < self.services.len()
            invariant
                self.wf(),
                g == self.graph(),
                0 <= i <= self.entries().len(),
                self.entries() == self.services@,
                id_views(visiting@) =~= Seq::<Seq<char>>::empty(),
                walk_ready(g, Seq::empty(), id_views(order@)),
                forall|t: int| 0 <= t < i ==> id_views(order@).contains(#[trigger] g[t].0),
            decreases self.services.len() - i,
        {
            let ghost before = id_views(order@);
            let id = &self.services[i].id;
            proof {
                assert(g[i as int].0 == id.0@);
                lemma_node_from_entry(g, i as int, id.0@);
            }
            if !contains_id(&order, id) {
                match self.visit(id, &mut visiting, &mut order) {
                    Err(e) => {
                        proof {
                            lemma_no_startup_order_with_cycle(g);
                        }
                        return Err(e);
                    },
                    Ok(()) => {},
                }
                proof {
                    let after = id_views(order@);
                    assert forall|t: int| 0 <= t < i + 1 implies after.contains(#[trigger] g[t].0) by {
                        if t < i {
                            let w = choose|w: int| 0 <= w < before.len() && before[w] == g[t].0;
                            assert(after[w] == before[w]);
                        }
                    };
                }
            }
            i = i + 1;
        }
        proof {
            let o = id_views(order@);
            assert forall|k: Seq<char>| #[trigger] o.contains(k) <==> is_node(g, k) by {
                if is_node(g, k) {
                    let e = lemma_entry_from_node(g, k);
                    assert(o.contains(g[e].0));
                    if g[e].0 != k {
                        lemma_deps_at(g, e);
                        assert(edge(g, g[e].0, k));
                        let w = choose|w: int| 0 <= w < o.len() && o[w] == g[e].0;
                        assert(edge(g, o[w], k));
                        let jj = choose|jj: int| 0 <= jj < w && #[trigger] o[jj] == k;
                    }
                }
            };
            assert(is_startup_order(g, o));
            lemma_startup_order_acyclic(g, o);
        }
        Ok(order)
    }

    /// Position at which `id` is registered.
    fn find(&self, id: &ServiceId) -> (r: Option<usize>)
        ensures
            r matches Some(i) ==> i < self.entries().len() && self.graph()[i as int].0 == id.0@,
            r is None ==> !registered(self.graph(), id.0@),
    {
        let mut i: usize = 0;
        while i < self.services.len()
            invariant
                0 <= i <= self.services@.len(),
                self.entries() == self.services@,
                forall|j: int| 0 <= j < i ==> self.graph()[j].0 != id.0@,
            decreases self.services.len() - i,
        {
            if self.services[i].id.same_as(id) {
                return Some(i);
            }
            i = i + 1;
        }
        None
    }

    /// Depth-first placement of `id` after everything it depends on.
    fn visit(&self, id: &ServiceId, visiting: &mut Vec<ServiceId>, order: &mut Vec<ServiceId>) -> (r: Result<(), ComponentError>)
        requires
            self.wf(),
            is_node(self.graph(), id.0@),
            walk_ready(self.graph(), id_views(old(visiting)@), id_views(old(order)@)),
            old(visiting)@.len() > 0 ==> edge(self.graph(), id_views(old(visiting)@).last(), id.0@),
        ensures
            r is Ok ==> {
                &&& id_views(final(visiting)@) == id_views(old(visiting)@)
                &&& walk_ready(self.graph(), id_views(old(visiting)@), id_views(final(order)@))
                &&& id_views(old(order)@).is_prefix_of(id_views(final(order)@))
                &&& id_views(final(order)@).contains(id.0@)
            },
            r is Err ==> has_cycle(self.graph()),
            r matches Err(e) ==> e matches ComponentError::ConfigError(m)
                && exists|k: Seq<char>| #[trigger] is_node(self.graph(), k) && m@ == "检测到服务依赖环: "@ + k,
        decreases node_seq(self.graph()).to_set().len() - old(visiting)@.len(),
    {
        let ghost g = self.graph();
        let ghost vis0 = id_views(visiting@);
        let ghost ord0 = id_views(order@);
        if contains_id(visiting, id) {
            proof {
                lemma_cycle_found(g, vis0, id.0@);
            }
            let mut msg = String::from_str("检测到服务依赖环: ");
            msg.append(id.0.as_str());
            return Err(ComponentError::ConfigError(msg));
        }
        if contains_id(order, id) {
            proof {
                assert(ord0.is_prefix_of(ord0));
            }
            return Ok(());
        }
        visiting.push(id.duplicate());
        proof {
            assert(id_views(visiting@) == vis0.push(id.0@));
            lemma_enter(g, vis0, ord0, id.0@);
            lemma_walk_room(g, vis0.push(id.0@));
        }
        match self.find(id) {
            Some(idx) => {
                let deps = &self.services[idx].dependencies;
                proof {
                    assert(g[idx as int].1 == id_views(deps@));
                    lemma_deps_at(g, idx as int);
                }
                let mut j: usize = 0;
                while j < deps.len()
                    invariant
                        self.wf(),
                        g == self.graph(),
                        0 <= j <= deps@.len(),
                        deps_of(g, id.0@) == id_views(deps@),
                        id_views(visiting@) == vis0.push(id.0@),
                        walk_ready(g, vis0.push(id.0@), id_views(order@)),
                        ord0.is_prefix_of(id_views(order@)),
                        vis0.len() + 1 <= node_seq(g).to_set().len(),
                        vis0.len() == old(visiting)@.len(),
                        visiting@.len() == vis0.len() + 1,
                        forall|t: int| 0 <= t < j ==> id_views(order@).contains(#[trigger] id_views(deps@)[t]),
                    decreases deps.len() - j,
                {
                    let ghost before = id_views(order@);
                    proof {
                        assert(deps_of(g, id.0@).contains(id_views(deps@)[j as int]));
                        lemma_edge_target_is_node(g, id.0@, id_views(deps@)[j as int]);
                        assert(id_views(visiting@).last() == id.0@);
                    }
                    match self.visit(&deps[j], visiting, order) {
                        Err(e) => {
                            return Err(e);
                        },
                        Ok(()) => {},
                    }
                    proof {
                        let after = id_views(order@);
                        assert forall|t: int| 0 <= t < j + 1 implies after.contains(#[trigger] id_views(deps@)[t]) by {
                            if t < j {
                                let w = choose|w: int| 0 <= w < before.len() && before[w] == id_views(deps@)[t];
                                assert(after[w] == before[w]);
                            }
                        };
                        assert(ord0.is_prefix_of(after)) by {
                            assert(after.subrange(0, ord0.len() as int) =~= before.subrange(0, ord0.len() as int));
                        };
                    }
                    j = j + 1;
                }
            },
            None => {
                proof {
                    assert(deps_of(g, id.0@) =~= Seq::<Seq<char>>::empty());
                }
            },
        }
        let ghost ord1 = id_views(order@);
        let ghost pre = visiting@;
        visiting.pop();
        proof {
            assert(visiting@ == pre.drop_last());
            assert forall|i: int| 0 <= i < vis0.len() implies id_views(visiting@)[i] == vis0[i] by {
                assert(id_views(pre)[i] == vis0.push(id.0@)[i]);
            };
            assert(id_views(visiting@) =~= vis0);
        }
        order.push(id.duplicate());
        proof {
            assert(id_views(order@) == ord1.push(id.0@));
            assert forall|d: Seq<char>| #[trigger] edge(g, id.0@, d) implies ord1.contains(d) by {
                let t = choose|t: int| 0 <= t < deps_of(g, id.0@).len() && deps_of(g, id.0@)[t] == d;
            };
            lemma_place(g, vis0, ord0, ord1, id.0@);
        }
        Ok(())
    }
}

/// Kind of a service message.
#[derive(Debug, Clone, Copy, PartialEq, Eq, Structural)]
pub enum ServiceMessageType {
    Request,
    Response,
    Event,
    Command,
    System,
}

/// Urgency of a service message, lowest first.
#[derive(Debug, Clone, Copy, PartialEq, Eq, Structural, PartialOrd, Ord)]
pub enum MessagePriority {
    Low,
    Normal,
    High,
    Critical,
}

impl MessagePriority {
    /// The rank of this priority: 0 for `Low` up to 3 for `Critical`.
    pub fn rank(&self) -> (r: u8)
        ensures
            r == priority_rank(*self),
    {
        match self {
            MessagePriority::Low => 0,
            MessagePriority::Normal => 1,
            MessagePriority::High => 2,
            MessagePriority::Critical => 3,
        }
    }
}

/// The rank of a priority.
pub open spec fn priority_rank(p: MessagePriority) -> u8 {
    match p {
        MessagePriority::Low => 0,
        MessagePriority::Normal => 1,
        MessagePriority::High => 2,
        MessagePriority::Critical => 3,
    }
}

/// Static description of a service.
#[derive(Debug)]
pub struct ServiceConfig {
    pub id: ServiceId,
    pub name: String,
    pub description: String,
    pub version: String,
    pub dependencies: Vec<ServiceId>,
    /// Lower numbers start first.
    pub priority: u32,
    pub auto_start: bool,
    pub message_queue_size: usize,
    pub properties: Vec<(String, JsonValue)>,
}

impl ServiceConfig {
    /// A service with a fresh identifier, no dependencies, priority 100, started
    /// automatically, with a queue of a thousand messages.
    pub fn default_config() -> (r: Self)
        ensures
            is_uuid_v4_text(r.id.0@),
            r.name@ == "Unnamed Service"@,
            r.description@ == "No description"@,
            r.version@ == "1.0.0"@,
            r.dependencies@.len() == 0,
            r.priority == 100,
            r.auto_start,
            r.message_queue_size == 1000,
            r.properties@.len() == 0,
    {
        ServiceConfig {
            id: ServiceId::generate(),
            name: String::from_str("Unnamed Service"),
            description: String::from_str("No description"),
            version: String::from_str("1.0.0"),
            dependencies: Vec::new(),
            priority: 100,
            auto_start: true,
            message_queue_size: 1000,
            properties: Vec::new(),
        }
    }
}

/// Settings of a service manager.
#[derive(Debug, Clone, Copy, PartialEq, Eq, Structural)]
pub struct GUIServiceManagerConfig {
    pub max_concurrent_starts: usize,
    /// Time between health checks, in milliseconds.
    pub health_check_interval: u64,
    /// Time a message may wait, in milliseconds.
    pub message_timeout: u64,
    pub enable_stats: bool,
}

impl Default for GUIServiceManagerConfig {
    /// Five starts at once, health checked every thirty seconds, messages time out
    /// after ten, statistics on.
    fn default() -> (r: Self)
        ensures
            r == (GUIServiceManagerConfig {
                max_concurrent_starts: 5,
                health_check_interval: 30_000,
                message_timeout: 10_000,
                enable_stats: true,
            }),
    {
        GUIServiceManagerConfig {
            max_concurrent_starts: 5,
            health_check_interval: 30_000,
            message_timeout: 10_000,
            enable_stats: true,
        }
    }
}

} // verus!
