use vstd::prelude::*;
use vstd::multiset::Multiset;
use std::collections::VecDeque;
use crate::component::{ComponentId, ComponentError};
use crate::json::JsonValue;
use crate::text::join2;
use crate::clock::{now_micros, now_millis};

verus! {

/// Where rendering output goes.
#[derive(Debug, PartialEq, Eq, Hash)]
pub enum RenderTarget {
    MainWindow,
    ChildWindow(String),
    OffscreenBuffer(String),
    Texture(String),
}

/// A render target as a value: the variant and its name.
pub open spec fn target_key(t: RenderTarget) -> (int, Seq<char>) {
    match t {
        RenderTarget::MainWindow => (0, Seq::empty()),
        RenderTarget::ChildWindow(n) => (1, n@),
        RenderTarget::OffscreenBuffer(n) => (2, n@),
        RenderTarget::Texture(n) => (3, n@),
    }
}

/// The name under which a target's queue is reported.
pub open spec fn target_label(t: RenderTarget) -> Seq<char> {
    match t {
        RenderTarget::MainWindow => "主窗口"@,
        RenderTarget::ChildWindow(n) => "子窗口: "@ + n@,
        RenderTarget::OffscreenBuffer(n) => "离屏缓冲: "@ + n@,
        RenderTarget::Texture(n) => "纹理: "@ + n@,
    }
}

impl RenderTarget {
    /// A copy of this target.
    pub fn duplicate(&self) -> (r: Self)
        ensures
            target_key(r) == target_key(*self),
    {
        match self {
            RenderTarget::MainWindow => RenderTarget::MainWindow,
            RenderTarget::ChildWindow(n) => RenderTarget::ChildWindow(n.clone()),
            RenderTarget::OffscreenBuffer(n) => RenderTarget::OffscreenBuffer(n.clone()),
            RenderTarget::Texture(n) => RenderTarget::Texture(n.clone()),
        }
    }

    /// Whether two targets are the same.
    pub fn same_as(&self, other: &RenderTarget) -> (r: bool)
        ensures
            r == (target_key(*self) == target_key(*other)),
    {
        match (self, other) {
            (RenderTarget::MainWindow, RenderTarget::MainWindow) => true,
            (RenderTarget::ChildWindow(a), RenderTarget::ChildWindow(b)) => *a == *b,
            (RenderTarget::OffscreenBuffer(a), RenderTarget::OffscreenBuffer(b)) => *a == *b,
            (RenderTarget::Texture(a), RenderTarget::Texture(b)) => *a == *b,
            _ => false,
        }
    }

    /// The name under which this target's queue is reported.
    pub fn label(&self) -> (r: String)
        ensures
            r@ == target_label(*self),
    {
        match self {
            RenderTarget::MainWindow => String::from_str("主窗口"),
            RenderTarget::ChildWindow(n) => join2("子窗口: ", n.as_str()),
            RenderTarget::OffscreenBuffer(n) => join2("离屏缓冲: ", n.as_str()),
            RenderTarget::Texture(n) => join2("纹理: ", n.as_str()),
        }
    }
}

/// A drawing command, with what the rendering logic reads of it; geometry and colours
/// stay with the drawing side.
#[derive(Debug)]
pub enum RenderCommand {
    Clear { target: RenderTarget },
    RenderComponent { component_id: ComponentId, target: RenderTarget, z_index: i32 },
    RenderText { text: String, target: RenderTarget },
    RenderRect { target: RenderTarget },
    RenderLine { point_count: usize, target: RenderTarget },
    RenderImage { target: RenderTarget },
    SetClipRect { target: RenderTarget },
    ApplyTransform { target: RenderTarget },
    BeginGroup { group_id: String, target: RenderTarget },
    EndGroup { group_id: String, target: RenderTarget },
    Custom { command_type: String, data: JsonValue, target: RenderTarget },
}

/// The target of a command.
pub open spec fn target_of(c: RenderCommand) -> RenderTarget {
    match c {
        RenderCommand::Clear { target } => target,
        RenderCommand::RenderComponent { target, .. } => target,
        RenderCommand::RenderText { target, .. } => target,
        RenderCommand::RenderRect { target } => target,
        RenderCommand::RenderLine { target, .. } => target,
        RenderCommand::RenderImage { target } => target,
        RenderCommand::SetClipRect { target } => target,
        RenderCommand::ApplyTransform { target } => target,
        RenderCommand::BeginGroup { target, .. } => target,
        RenderCommand::EndGroup { target, .. } => target,
        RenderCommand::Custom { target, .. } => target,
    }
}

/// The drawing order of a command: a component's z-index, 0 for everything else.
pub open spec fn z_of(c: RenderCommand) -> i32 {
    match c {
        RenderCommand::RenderComponent { z_index, .. } => z_index,
        _ => 0,
    }
}

impl RenderCommand {
    /// The target of this command.
    pub fn target(&self) -> (r: &RenderTarget)
        ensures
            *r == target_of(*self),
    {
        match self {
            RenderCommand::Clear { target } => target,
            RenderCommand::RenderComponent { target, .. } => target,
            RenderCommand::RenderText { target, .. } => target,
            RenderCommand::RenderRect { target } => target,
            RenderCommand::RenderLine { target, .. } => target,
            RenderCommand::RenderImage { target } => target,
            RenderCommand::SetClipRect { target } => target,
            RenderCommand::ApplyTransform { target } => target,
            RenderCommand::BeginGroup { target, .. } => target,
            RenderCommand::EndGroup { target, .. } => target,
            RenderCommand::Custom { target, .. } => target,
        }
    }

    /// The drawing order of this command.
    pub fn z_index(&self) -> (r: i32)
        ensures
            r == z_of(*self),
    {
        match self {
            RenderCommand::RenderComponent { z_index, .. } => *z_index,
            _ => 0,
        }
    }
}

/// Where `c` goes among `s` when inserted after every command that does not draw above it.
pub open spec fn insert_pos(s: Seq<RenderCommand>, c: RenderCommand) -> int
    decreases s.len(),
{
    if s.len() == 0 {
        0
    } else if z_of(s.last()) <= z_of(c) {
        s.len() as int
    } else {
        insert_pos(s.drop_last(), c)
    }
}

/// `s` ordered by drawing order, commands of equal order keeping their relative order.
pub open spec fn sort_by_z(s: Seq<RenderCommand>) -> Seq<RenderCommand>
    decreases s.len(),
{
    if s.len() == 0 {
        s
    } else {
        let sorted = sort_by_z(s.drop_last());
        sorted.insert(insert_pos(sorted, s.last()), s.last())
    }
}

/// Drawing order never decreases along `s`.
pub open spec fn z_sorted(s: Seq<RenderCommand>) -> bool {
    forall|i: int, j: int| 0 <= i <= j < s.len() ==> z_of(#[trigger] s[i]) <= z_of(#[trigger] s[j])
}

proof fn lemma_insert_pos(s: Seq<RenderCommand>, c: RenderCommand)
    requires
        z_sorted(s),
    ensures
        0 <= insert_pos(s, c) <= s.len(),
        forall|i: int| 0 <= i < insert_pos(s, c) ==> z_of(#[trigger] s[i]) <= z_of(c),
        forall|i: int| insert_pos(s, c) <= i < s.len() ==> z_of(#[trigger] s[i]) > z_of(c),
    decreases s.len(),
{
    if s.len() > 0 {
        let init = s.drop_last();
        assert(z_sorted(init)) by {
            assert forall|i: int, j: int| 0 <= i <= j < init.len() implies z_of(#[trigger] init[i]) <= z_of(#[trigger] init[j]) by {
                assert(init[i] == s[i] && init[j] == s[j]);
            };
        };
        if z_of(s.last()) > z_of(c) {
            lemma_insert_pos(init, c);
            assert forall|i: int| 0 <= i < insert_pos(s, c) implies z_of(#[trigger] s[i]) <= z_of(c) by {
                assert(init[i] == s[i]);
            };
            assert forall|i: int| insert_pos(s, c) <= i < s.len() implies z_of(#[trigger] s[i]) > z_of(c) by {
                if i < s.len() - 1 {
                    assert(init[i] == s[i]);
                }
            };
        } else {
            assert forall|i: int| 0 <= i < insert_pos(s, c) implies z_of(#[trigger] s[i]) <= z_of(c) by {
                assert(z_of(s[i]) <= z_of(s[s.len() - 1]));
            };
        }
    }
}

/// Inserting an item anywhere adds it to the multiset of items.
pub proof fn lemma_insert_multiset<A>(s: Seq<A>, p: int, c: A)
    requires
        0 <= p <= s.len(),
    ensures
        s.insert(p, c).to_multiset() == s.to_multiset().insert(c),
{
    broadcast use vstd::seq_lib::group_to_multiset_ensures;
    let a = s.take(p);
    let b = s.skip(p);
    assert(s.insert(p, c) =~= a + (seq![c] + b));
    assert(s =~= a + b);
    vstd::seq_lib::lemma_multiset_commutative(a, seq![c] + b);
    vstd::seq_lib::lemma_multiset_commutative(seq![c], b);
    vstd::seq_lib::lemma_multiset_commutative(a, b);
    assert(seq![c].to_multiset() =~= Multiset::empty().insert(c)) by {
        assert(seq![c] =~= Seq::<A>::empty().push(c));
    };
    assert(s.insert(p, c).to_multiset() =~= s.to_multiset().insert(c));
}

/// Sorting by drawing order yields a sorted arrangement of the same commands.
pub proof fn lemma_sort_by_z(s: Seq<RenderCommand>)
    ensures
        z_sorted(sort_by_z(s)),
        sort_by_z(s).to_multiset() == s.to_multiset(),
        sort_by_z(s).len() == s.len(),
    decreases s.len(),
{
    broadcast use vstd::seq_lib::group_to_multiset_ensures;
    if s.len() > 0 {
        let init = s.drop_last();
        let c = s.last();
        lemma_sort_by_z(init);
        let sorted = sort_by_z(init);
        lemma_insert_pos(sorted, c);
        let p = insert_pos(sorted, c);
        let r = sorted.insert(p, c);
        assert forall|i: int, j: int| 0 <= i <= j < r.len() implies z_of(#[trigger] r[i]) <= z_of(#[trigger] r[j]) by {
            if i < p && j < p {
                assert(r[i] == sorted[i] && r[j] == sorted[j]);
            } else if i < p && j == p {
                assert(r[i] == sorted[i]);
            } else if i < p && j > p {
                assert(r[i] == sorted[i] && r[j] == sorted[j - 1]);
            } else if i == p && j > p {
                assert(r[j] == sorted[j - 1]);
            } else if i > p {
                assert(r[i] == sorted[i - 1] && r[j] == sorted[j - 1]);
            }
        };
        lemma_insert_multiset(sorted, p, c);
        assert(s =~= init.push(c));
    }
}

/// A bounded first-in, first-out queue of render commands, handed out in batches.
pub struct RenderQueue {
    commands: VecDeque<RenderCommand>,
    max_capacity: usize,
    batch_size: usize,
    enable_z_sorting: bool,
}

impl RenderQueue {
    /// The queued commands, oldest first.
    pub closed spec fn items(&self) -> Seq<RenderCommand> {
        self.commands@
    }

    /// Most commands the queue holds.
    pub closed spec fn capacity(&self) -> nat {
        self.max_capacity as nat
    }

    /// Most commands one batch takes.
    pub closed spec fn batch(&self) -> nat {
        self.batch_size as nat
    }

    /// Whether a batch is put in drawing order.
    pub closed spec fn z_sorting(&self) -> bool {
        self.enable_z_sorting
    }

    /// An empty queue holding up to `max_capacity` commands, handing out `batch_size` at
    /// a time, in drawing order.
    pub fn new(max_capacity: usize, batch_size: usize) -> (r: Self)
        ensures
            r.items().len() == 0,
            r.capacity() == max_capacity,
            r.batch() == batch_size,
            r.z_sorting(),
    {
        RenderQueue { commands: VecDeque::new(), max_capacity, batch_size, enable_z_sorting: true }
    }

    /// Appends `command`; refused when the queue is full.
    pub fn push(&mut self, command: RenderCommand) -> (r: Result<(), ComponentError>)
        ensures
            r is Err <==> old(self).items().len() >= old(self).capacity(),
            r matches Err(e) ==> e matches ComponentError::ResourceError(m) && m@ == "渲染队列已满"@,
            r is Ok ==> final(self).items() == old(self).items().push(command),
            r is Err ==> final(self).items() == old(self).items(),
            final(self).capacity() == old(self).capacity(),
            final(self).batch() == old(self).batch(),
            final(self).z_sorting() == old(self).z_sorting(),
    {
        if self.commands.len() >= self.max_capacity {
            return Err(ComponentError::ResourceError(String::from_str("渲染队列已满")));
        }
        self.commands.push_back(command);
        Ok(())
    }

    /// Appends all of `commands` in order; refused, with nothing added, when they do
    /// not all fit.
    pub fn push_batch(&mut self, commands: Vec<RenderCommand>) -> (r: Result<(), ComponentError>)
        ensures
            r is Err <==> old(self).items().len() + commands@.len() > old(self).capacity(),
            r matches Err(e) ==> e matches ComponentError::ResourceError(m) && m@ == "渲染队列容量不足"@,
            r is Ok ==> final(self).items() == old(self).items() + commands@,
            r is Err ==> final(self).items() == old(self).items(),
            final(self).capacity() == old(self).capacity(),
            final(self).batch() == old(self).batch(),
            final(self).z_sorting() == old(self).z_sorting(),
    {
        if commands.len() > self.max_capacity || self.commands.len() > self.max_capacity - commands.len() {
            return Err(ComponentError::ResourceError(String::from_str("渲染队列容量不足")));
        }
        let ghost before = self.commands@;
        proof {
            assert(commands@.len() == commands.len());
        }
        let mut rest = commands;
        let mut k: usize = 0;
        while rest.len() > 0
            invariant
                rest@ == commands@.skip(k as int),
                0 <= k <= commands@.len() <= usize::MAX,
                self.commands@ == before + commands@.take(k as int),
                self.max_capacity == old(self).max_capacity,
                self.batch_size == old(self).batch_size,
                self.enable_z_sorting == old(self).enable_z_sorting,
                before == old(self).commands@,
            decreases rest@.len(),
        {
            proof {
                assert(rest@.len() == commands@.len() - k);
            }
            let c = rest.remove(0);
            proof {
                assert(c == commands@[k as int]);
                assert(commands@.take(k + 1) =~= commands@.take(k as int).push(c));
            }
            self.commands.push_back(c);
            k = k + 1;
            proof {
                assert(rest@ =~= commands@.skip(k as int));
                assert(self.commands@ =~= before + commands@.take(k as int));
            }
        }
        proof {
            assert(commands@.take(k as int) =~= commands@);
        }
        Ok(())
    }

    /// Takes the oldest commands, up to one batch; in drawing order when sorting is
    /// on, commands of equal order keeping their queue order.
    pub fn pop_batch(&mut self) -> (r: Vec<RenderCommand>)
        ensures
            ({
                let n = if old(self).batch() < old(self).items().len() { old(self).batch() as int } else { old(self).items().len() as int };
                &&& final(self).items() == old(self).items().skip(n)
                &&& r@ == (if old(self).z_sorting() { sort_by_z(old(self).items().take(n)) } else { old(self).items().take(n) })
            }),
            final(self).capacity() == old(self).capacity(),
            final(self).batch() == old(self).batch(),
            final(self).z_sorting() == old(self).z_sorting(),
    {
        let batch_size = if self.batch_size < self.commands.len() { self.batch_size } else { self.commands.len() };
        let ghost all = self.commands@;
        let mut front: Vec<RenderCommand> = Vec::new();
        let mut i: usize = 0;
        while i < batch_size
            invariant
                0 <= i <= batch_size <= all.len(),
                front@ == all.take(i as int),
                self.commands@ == all.skip(i as int),
                self.max_capacity == old(self).max_capacity,
                self.batch_size == old(self).batch_size,
                self.enable_z_sorting == old(self).enable_z_sorting,
                all == old(self).commands@,
            decreases batch_size - i,
        {
            match self.commands.pop_front() {
                Some(c) => {
                    proof {
                        assert(c == all[i as int]);
                    }
                    front.push(c);
                },
                None => {},
            }
            i = i + 1;
            proof {
                assert(front@ =~= all.take(i as int));
                assert(self.commands@ =~= all.skip(i as int));
            }
        }
        if self.enable_z_sorting {
            sort_commands(front)
        } else {
            front
        }
    }

    /// Drops every queued command.
    pub fn clear(&mut self)
        ensures
            final(self).items().len() == 0,
            final(self).capacity() == old(self).capacity(),
            final(self).batch() == old(self).batch(),
            final(self).z_sorting() == old(self).z_sorting(),
    {
        self.commands.clear();
    }

    /// Number of queued commands.
    pub fn len(&self) -> (r: usize)
        ensures
            r == self.items().len(),
    {
        self.commands.len()
    }

    /// Whether no command is queued.
    pub fn is_empty(&self) -> (r: bool)
        ensures
            r == (self.items().len() == 0),
    {
        self.commands.len() == 0
    }

    /// Turns drawing-order sorting of batches on or off.
    pub fn set_z_sorting(&mut self, enabled: bool)
        ensures
            final(self).z_sorting() == enabled,
            final(self).items() == old(self).items(),
            final(self).capacity() == old(self).capacity(),
            final(self).batch() == old(self).batch(),
    {
        self.enable_z_sorting = enabled;
    }

    /// Makes room for `additional` more commands without changing what is queued.
    pub fn reserve(&mut self, additional: usize)
        ensures
            final(self).items() == old(self).items(),
            final(self).capacity() == old(self).capacity(),
            final(self).batch() == old(self).batch(),
            final(self).z_sorting() == old(self).z_sorting(),
    {
        self.commands.reserve(additional);
    }

    /// The most commands the queue holds.
    pub fn max_capacity(&self) -> (r: usize)
        ensures
            r == self.capacity(),
    {
        self.max_capacity
    }
}

/// `commands` in drawing order, commands of equal order keeping their relative order.
pub fn sort_commands(commands: Vec<RenderCommand>) -> (r: Vec<RenderCommand>)
    ensures
        r@ == sort_by_z(commands@),
{
    let ghost all = commands@;
    let mut rest = commands;
    let mut out: Vec<RenderCommand> = Vec::new();
    let n = rest.len();
    let mut i: usize = 0;
    proof {
        assert(all.skip(0) =~= all);
        assert(all.take(0) =~= Seq::<RenderCommand>::empty());
    }
    while rest.len() > 0
        invariant
            rest@.len() + i == n,
            n == all.len(),
            rest@ == all.skip(i as int),
            out@ == sort_by_z(all.take(i as int)),
        decreases rest.len(),
    {
        let c = rest.remove(0);
        proof {
            assert(c == all[i as int]);
            assert(all.take(i + 1).drop_last() =~= all.take(i as int));
            assert(rest@ =~= all.skip(i + 1));
        }
        let z = c.z_index();
        let mut p: usize = out.len();
        proof {
            assert(out@.take(p as int) =~= out@);
        }
        while p > 0 && out[p - 1].z_index() > z
            invariant
                0 <= p <= out@.len(),
                insert_pos(out@, c) == insert_pos(out@.take(p as int), c),
                z == z_of(c),
            decreases p,
        {
            proof {
                assert(out@.take(p as int).drop_last() =~= out@.take(p - 1));
            }
            p = p - 1;
        }
        proof {
            if p > 0 {
                assert(out@.take(p as int).last() == out@[p - 1]);
            } else {
                assert(out@.take(0) =~= Seq::<RenderCommand>::empty());
            }
        }
        out.insert(p, c);
        i = i + 1;
    }
    proof {
        assert(all.take(n as int) =~= all);
    }
    out
}

/// Settings of a render pipeline.
#[derive(Debug, Clone, Copy, PartialEq, Eq, Structural)]
pub struct RenderPipelineConfig {
    pub enable_batching: bool,
    pub enable_frustum_culling: bool,
    pub enable_backface_culling: bool,
    pub enable_depth_testing: bool,
    pub enable_msaa: bool,
    pub msaa_samples: u32,
    pub enable_vsync: bool,
    pub target_fps: u32,
    pub render_threads: u32,
}

impl Default for RenderPipelineConfig {
    /// Batching, frustum culling and depth testing on; four MSAA samples (MSAA off);
    /// 60 frames per second on one thread, without vsync.
    fn default() -> (r: Self)
        ensures
            r == (RenderPipelineConfig {
                enable_batching: true,
                enable_frustum_culling: true,
                enable_backface_culling: false,
                enable_depth_testing: true,
                enable_msaa: false,
                msaa_samples: 4,
                enable_vsync: false,
                target_fps: 60,
                render_threads: 1,
            }),
    {
        RenderPipelineConfig {
            enable_batching: true,
            enable_frustum_culling: true,
            enable_backface_culling: false,
            enable_depth_testing: true,
            enable_msaa: false,
            msaa_samples: 4,
            enable_vsync: false,
            target_fps: 60,
            render_threads: 1,
        }
    }
}

/// Counters of a render pipeline.
#[derive(Debug, Clone, Copy, PartialEq, Eq, Structural)]
pub struct RenderStats {
    pub commands_processed: u64,
    pub components_rendered: u64,
    pub batches_processed: u64,
    /// Time spent executing commands, in microseconds.
    pub render_time_us: u64,
    pub vram_usage_bytes: u64,
    /// When a batch last finished, in milliseconds since the Unix epoch.
    pub last_update: u64,
}

/// The drawing state a pipeline keeps between commands: the current z-index and the
/// stack of open groups, innermost last.
pub struct RenderState {
    pub current_z_index: i32,
    pub group_stack: Vec<String>,
}

/// What executing `c` does to the z-index, the open groups and the count of rendered components.
pub open spec fn step(st: (i32, Seq<Seq<char>>, int), c: RenderCommand) -> (i32, Seq<Seq<char>>, int) {
    match c {
        RenderCommand::RenderComponent { z_index, .. } => (z_index, st.1, st.2 + 1),
        RenderCommand::BeginGroup { group_id, .. } => (st.0, st.1.push(group_id@), st.2),
        RenderCommand::EndGroup { .. } => if st.1.len() > 0 { (st.0, st.1.drop_last(), st.2) } else { st },
        _ => st,
    }
}

/// The effect of executing `cs` in order.
pub open spec fn steps(st: (i32, Seq<Seq<char>>, int), cs: Seq<RenderCommand>) -> (i32, Seq<Seq<char>>, int)
    decreases cs.len(),
{
    if cs.len() == 0 {
        st
    } else {
        step(steps(st, cs.drop_last()), cs.last())
    }
}

/// Opening a group and closing it again leaves the open groups as they were.
pub proof fn lemma_group_nesting(st: (i32, Seq<Seq<char>>, int), open: RenderCommand, close: RenderCommand)
    requires
        open is BeginGroup,
        close is EndGroup,
    ensures
        step(step(st, open), close).1 == st.1,
        step(step(st, open), close).0 == st.0,
        step(step(st, open), close).2 == st.2,
{
    assert(st.1.push(open->BeginGroup_group_id@).drop_last() =~= st.1);
}

pub proof fn lemma_steps_append(st: (i32, Seq<Seq<char>>, int), a: Seq<RenderCommand>, b: Seq<RenderCommand>)
    ensures
        steps(st, a + b) == steps(steps(st, a), b),
    decreases b.len(),
{
    if b.len() == 0 {
        assert(a + b =~= a);
    } else {
        lemma_steps_append(st, a, b.drop_last());
        assert((a + b).drop_last() =~= a + b.drop_last());
    }
}

/// Number of component commands among `cs`.
pub open spec fn components_in(cs: Seq<RenderCommand>) -> int
    decreases cs.len(),
{
    if cs.len() == 0 {
        0
    } else {
        components_in(cs.drop_last()) + if cs.last() is RenderComponent { 1int } else { 0int }
    }
}

pub proof fn lemma_steps_count(st: (i32, Seq<Seq<char>>, int), cs: Seq<RenderCommand>)
    ensures
        steps(st, cs).2 == st.2 + components_in(cs),
        0 <= components_in(cs) <= cs.len(),
    decreases cs.len(),
{
    if cs.len() > 0 {
        lemma_steps_count(st, cs.drop_last());
    }
}

/// Executes render commands, tracking the drawing state and counters.
pub struct RenderPipeline {
    state: RenderState,
    current_target: RenderTarget,
    stats: RenderStats,
    config: RenderPipelineConfig,
}

impl RenderPipeline {
    /// The current z-index, the open groups and the count of rendered components.
    pub closed spec fn drawing(&self) -> (i32, Seq<Seq<char>>, int) {
        (self.state.current_z_index, self.state.group_stack@.map_values(|g: String| g@), self.stats.components_rendered as int)
    }

    /// The counters.
    pub closed spec fn counters(&self) -> RenderStats {
        self.stats
    }

    /// The settings.
    pub closed spec fn settings(&self) -> RenderPipelineConfig {
        self.config
    }

    /// A pipeline with no open group, z-index 0, zero counters, drawing to the main window.
    pub fn new(config: RenderPipelineConfig) -> (r: Self)
        ensures
            r.drawing() == (0i32, Seq::<Seq<char>>::empty(), 0int),
            r.counters().commands_processed == 0,
            r.counters().components_rendered == 0,
            r.counters().batches_processed == 0,
            r.counters().render_time_us == 0,
            r.counters().vram_usage_bytes == 0,
            r.settings() == config,
    {
        let now = now_millis();
        let r = RenderPipeline {
            state: RenderState { current_z_index: 0, group_stack: Vec::new() },
            current_target: RenderTarget::MainWindow,
            stats: RenderStats {
                commands_processed: 0,
                components_rendered: 0,
                batches_processed: 0,
                render_time_us: 0,
                vram_usage_bytes: 0,
                last_update: now,
            },
            config,
        };
        proof {
            assert(r.drawing().1 =~= Seq::<Seq<char>>::empty());
        }
        r
    }

    /// Executes one command: a component sets the z-index and is counted, a group
    /// opens or closes (closing with none open does nothing), everything else leaves
    /// the drawing state as it is; the command is counted and its time added.
    pub fn execute_command(&mut self, command: &RenderCommand) -> (r: Result<(), ComponentError>)
        requires
            old(self).counters().commands_processed < u64::MAX,
            old(self).counters().components_rendered < u64::MAX,
        ensures
            r is Ok,
            final(self).drawing() == step(old(self).drawing(), *command),
            final(self).counters().commands_processed == old(self).counters().commands_processed + 1,
            final(self).counters().components_rendered == old(self).counters().components_rendered
                + (if *command is RenderComponent { 1int } else { 0int }),
            final(self).counters().batches_processed == old(self).counters().batches_processed,
            final(self).counters().render_time_us >= old(self).counters().render_time_us,
            final(self).counters().vram_usage_bytes == old(self).counters().vram_usage_bytes,
            final(self).counters().last_update == old(self).counters().last_update,
            final(self).settings() == old(self).settings(),
    {
        let start = now_micros();
        let ghost groups0 = self.state.group_stack@;
        match command {
            RenderCommand::RenderComponent { z_index, .. } => {
                self.state.current_z_index = *z_index;
                self.stats.components_rendered = self.stats.components_rendered + 1;
            },
            RenderCommand::BeginGroup { group_id, .. } => {
                self.state.group_stack.push(group_id.clone());
                proof {
                    assert(self.state.group_stack@.map_values(|g: String| g@) =~= groups0.map_values(|g: String| g@).push(group_id@));
                }
            },
            RenderCommand::EndGroup { .. } => {
                if self.state.group_stack.len() > 0 {
                    let _ = self.state.group_stack.pop();
                    proof {
                        assert(self.state.group_stack@.map_values(|g: String| g@) =~= groups0.map_values(|g: String| g@).drop_last());
                    }
                }
            },
            _ => {},
        }
        self.stats.commands_processed = self.stats.commands_processed + 1;
        let end = now_micros();
        let elapsed = end.saturating_sub(start);
        self.stats.render_time_us = self.stats.render_time_us.saturating_add(elapsed);
        Ok(())
    }

    /// Executes `commands` in order, then counts the batch and notes the time.
    pub fn execute_batch(&mut self, commands: &Vec<RenderCommand>) -> (r: Result<(), ComponentError>)
        requires
            old(self).counters().commands_processed + commands@.len() <= u64::MAX,
            old(self).counters().components_rendered + commands@.len() <= u64::MAX,
            old(self).counters().batches_processed < u64::MAX,
        ensures
            r is Ok,
            final(self).drawing() == steps(old(self).drawing(), commands@),
            final(self).counters().commands_processed == old(self).counters().commands_processed + commands@.len(),
            final(self).counters().components_rendered == old(self).counters().components_rendered + components_in(commands@),
            final(self).counters().batches_processed == old(self).counters().batches_processed + 1,
            final(self).counters().render_time_us >= old(self).counters().render_time_us,
            final(self).counters().vram_usage_bytes == old(self).counters().vram_usage_bytes,
            final(self).settings() == old(self).settings(),
    {
        let mut i: usize = 0;
        proof {
            assert(commands@.take(0) =~= Seq::<RenderCommand>::empty());
        }
        while i < commands.len()
            invariant
                0 <= i <= commands@.len(),
                self.drawing() == steps(old(self).drawing(), commands@.take(i as int)),
                self.counters().commands_processed == old(self).counters().commands_processed + i,
                self.counters().batches_processed == old(self).counters().batches_processed,
                self.counters().render_time_us >= old(self).counters().render_time_us,
                self.counters().vram_usage_bytes == old(self).counters().vram_usage_bytes,
                self.settings() == old(self).settings(),
                old(self).counters().commands_processed + commands@.len() <= u64::MAX,
                old(self).counters().components_rendered + commands@.len() <= u64::MAX,
                self.counters().components_rendered == self.drawing().2,
                old(self).counters().components_rendered == old(self).drawing().2,
            decreases commands.len() - i,
        {
            proof {
                lemma_steps_count(old(self).drawing(), commands@.take(i as int));
                assert(commands@.take(i + 1).drop_last() =~= commands@.take(i as int));
            }
            let _ = self.execute_command(&commands[i]);
            i = i + 1;
        }
        proof {
            assert(commands@.take(commands@.len() as int) =~= commands@);
            lemma_steps_count(old(self).drawing(), commands@);
        }
        self.stats.batches_processed = self.stats.batches_processed + 1;
        self.stats.last_update = now_millis();
        Ok(())
    }

    /// The counters.
    pub fn get_stats(&self) -> (r: RenderStats)
        ensures
            r == self.counters(),
    {
        self.stats
    }

    /// Sets every counter back to zero.
    pub fn reset_stats(&mut self)
        ensures
            final(self).counters().commands_processed == 0,
            final(self).counters().components_rendered == 0,
            final(self).counters().batches_processed == 0,
            final(self).counters().render_time_us == 0,
            final(self).counters().vram_usage_bytes == 0,
            final(self).drawing().0 == old(self).drawing().0,
            final(self).drawing().1 == old(self).drawing().1,
            final(self).settings() == old(self).settings(),
    {
        let now = now_millis();
        self.stats = RenderStats {
            commands_processed: 0,
            components_rendered: 0,
            batches_processed: 0,
            render_time_us: 0,
            vram_usage_bytes: 0,
            last_update: now,
        };
    }
}

/// Settings of a render manager.
#[derive(Debug, Clone, Copy, PartialEq, Eq, Structural)]
pub struct RenderManagerConfig {
    pub queue_max_capacity: usize,
    pub batch_size: usize,
    pub render_threads: u32,
    pub enable_profiling: bool,
    pub pipeline_config: RenderPipelineConfig,
}

impl Default for RenderManagerConfig {
    /// Queues of ten thousand commands in batches of a hundred, one thread, profiling on.
    fn default() -> (r: Self)
        ensures
            r.queue_max_capacity == 10000,
            r.batch_size == 100,
            r.render_threads == 1,
            r.enable_profiling,
            r.pipeline_config == (RenderPipelineConfig {
                enable_batching: true,
                enable_frustum_culling: true,
                enable_backface_culling: false,
                enable_depth_testing: true,
                enable_msaa: false,
                msaa_samples: 4,
                enable_vsync: false,
                target_fps: 60,
                render_threads: 1,
            }),
    {
        RenderManagerConfig {
            queue_max_capacity: 10000,
            batch_size: 100,
            render_threads: 1,
            enable_profiling: true,
            pipeline_config: RenderPipelineConfig::default(),
        }
    }
}

/// How full one queue is.
#[derive(Debug, Clone, Copy, PartialEq, Eq, Structural)]
pub struct QueueInfo {
    pub length: usize,
    pub capacity: usize,
}

/// Queues by target key, with their commands.
pub type QueueList = Seq<((int, Seq<char>), Seq<RenderCommand>)>;

/// Position of the queue for target key `k`.
pub open spec fn queue_pos(l: QueueList, k: (int, Seq<char>)) -> Option<int>
    decreases l.len(),
{
    if l.len() == 0 {
        None
    } else if l.last().0 == k {
        Some(l.len() - 1)
    } else {
        queue_pos(l.drop_last(), k)
    }
}

/// `l` after adding `items` to the queue for `k`, creating the queue when there is
/// none; the items go in only when they all fit under `cap`. Also whether they did.
pub open spec fn add_to_queue(l: QueueList, k: (int, Seq<char>), items: Seq<RenderCommand>, cap: nat) -> (QueueList, bool) {
    let l1 = match queue_pos(l, k) {
        Some(_) => l,
        None => l.push((k, Seq::empty())),
    };
    let i = match queue_pos(l, k) {
        Some(i) => i,
        None => l.len() as int,
    };
    if l1[i].1.len() + items.len() > cap {
        (l1, false)
    } else {
        (l1.update(i, (k, l1[i].1 + items)), true)
    }
}

/// Commands grouped by target, targets in order of first appearance, each group in
/// the order the commands came.
pub open spec fn group_by_target(cs: Seq<RenderCommand>) -> QueueList
    decreases cs.len(),
{
    if cs.len() == 0 {
        Seq::empty()
    } else {
        let g = group_by_target(cs.drop_last());
        let c = cs.last();
        let k = target_key(target_of(c));
        match queue_pos(g, k) {
            Some(i) => g.update(i, (k, g[i].1.push(c))),
            None => g.push((k, seq![c])),
        }
    }
}

/// `l` after adding each group of `gs` in turn, stopping at the first that does not fit;
/// also whether all fitted.
pub open spec fn add_groups(l: QueueList, gs: QueueList, cap: nat) -> (QueueList, bool)
    decreases gs.len(),
{
    if gs.len() == 0 {
        (l, true)
    } else {
        let (l1, ok) = add_to_queue(l, gs[0].0, gs[0].1, cap);
        if !ok {
            (l1, false)
        } else {
            add_groups(l1, gs.drop_first(), cap)
        }
    }
}

pub proof fn lemma_queue_pos(l: QueueList, k: (int, Seq<char>))
    ensures
        match queue_pos(l, k) {
            Some(i) => 0 <= i < l.len() && l[i].0 == k && forall|j: int| i < j < l.len() ==> #[trigger] l[j].0 != k,
            None => forall|j: int| 0 <= j < l.len() ==> #[trigger] l[j].0 != k,
        },
    decreases l.len(),
{
    if l.len() > 0 && l.last().0 != k {
        lemma_queue_pos(l.drop_last(), k);
        assert forall|j: int| 0 <= j < l.len() - 1 implies l.drop_last()[j] == #[trigger] l[j] by {};
    }
}

/// The commands of a queue holding `items` in the order batches of `b` hand them out.
pub open spec fn drain(items: Seq<RenderCommand>, b: nat) -> Seq<RenderCommand>
    decreases items.len(),
{
    if items.len() == 0 || b == 0 {
        Seq::empty()
    } else {
        let n = if b < items.len() { b as int } else { items.len() as int };
        sort_by_z(items.take(n)) + drain(items.skip(n), b)
    }
}

/// Number of batches of `b` that `items` make.
pub open spec fn batch_count(items: Seq<RenderCommand>, b: nat) -> nat
    decreases items.len(),
{
    if items.len() == 0 || b == 0 {
        0
    } else {
        let n = if b < items.len() { b as int } else { items.len() as int };
        1 + batch_count(items.skip(n), b)
    }
}

/// The commands of the queues in `l`, queue after queue, in batches of `b`.
pub open spec fn drain_all(l: QueueList, b: nat) -> Seq<RenderCommand>
    decreases l.len(),
{
    if l.len() == 0 {
        Seq::empty()
    } else {
        drain_all(l.drop_last(), b) + drain(l.last().1, b)
    }
}

/// Number of batches the queues of `l` make.
pub open spec fn batches_all(l: QueueList, b: nat) -> nat
    decreases l.len(),
{
    if l.len() == 0 {
        0
    } else {
        batches_all(l.drop_last(), b) + batch_count(l.last().1, b)
    }
}

/// Number of commands queued in `l`.
pub open spec fn queued(l: QueueList) -> nat
    decreases l.len(),
{
    if l.len() == 0 {
        0
    } else {
        queued(l.drop_last()) + l.last().1.len()
    }
}

pub proof fn lemma_drain_len(items: Seq<RenderCommand>, b: nat)
    requires
        b > 0,
    ensures
        drain(items, b).len() == items.len(),
        batch_count(items, b) <= items.len(),
    decreases items.len(),
{
    if items.len() > 0 {
        let n = if b < items.len() { b as int } else { items.len() as int };
        lemma_drain_len(items.skip(n), b);
        lemma_sort_by_z(items.take(n));
    }
}

pub proof fn lemma_drain_all_len(l: QueueList, b: nat)
    requires
        b > 0,
    ensures
        drain_all(l, b).len() == queued(l),
        batches_all(l, b) <= queued(l),
    decreases l.len(),
{
    if l.len() > 0 {
        lemma_drain_all_len(l.drop_last(), b);
        lemma_drain_len(l.last().1, b);
    }
}

proof fn lemma_prefix_sums(l: QueueList, i: int, b: nat)
    requires
        0 <= i < l.len(),
        b > 0,
    ensures
        queued(l.take(i)) + l[i].1.len() <= queued(l),
        batches_all(l.take(i), b) + batch_count(l[i].1, b) <= queued(l),
        drain_all(l.take(i), b).len() == queued(l.take(i)),
    decreases l.len(),
{
    lemma_drain_all_len(l.take(i), b);
    lemma_drain_len(l[i].1, b);
    lemma_queued_prefix(l, i + 1);
    assert(l.take(i + 1).drop_last() =~= l.take(i));
    assert(l.take(i + 1).last() == l[i]);
    lemma_drain_all_len(l.take(i + 1), b);
}

proof fn lemma_queued_prefix(l: QueueList, k: int)
    requires
        0 <= k <= l.len(),
    ensures
        queued(l.take(k)) <= queued(l),
    decreases l.len() - k,
{
    if k < l.len() {
        lemma_queued_prefix(l, k + 1);
        assert(l.take(k + 1).drop_last() =~= l.take(k));
    } else {
        assert(l.take(k) =~= l);
    }
}

/// Target key and items of the entry at `j` of `v`.
pub open spec fn old_queues_at(v: Seq<(RenderTarget, RenderQueue)>, j: int) -> ((int, Seq<char>), Seq<RenderCommand>) {
    (target_key(v[j].0), v[j].1.items())
}

/// Render queues per target in front of one pipeline.
pub struct RenderManager {
    render_queues: Vec<(RenderTarget, RenderQueue)>,
    pipeline: RenderPipeline,
    config: RenderManagerConfig,
    is_running: bool,
}

impl RenderManager {
    /// The queues, by target key, in the order they were created.
    pub closed spec fn queues(&self) -> QueueList {
        self.render_queues@.map_values(|e: (RenderTarget, RenderQueue)| (target_key(e.0), e.1.items()))
    }

    /// The pipeline.
    pub closed spec fn pipe(&self) -> RenderPipeline {
        self.pipeline
    }

    /// The settings.
    pub closed spec fn settings(&self) -> RenderManagerConfig {
        self.config
    }

    /// Whether the manager was started and not stopped since.
    pub closed spec fn running(&self) -> bool {
        self.is_running
    }

    pub closed spec fn wf(&self) -> bool {
        &&& forall|i: int, j: int| 0 <= i < j < self.render_queues@.len()
            ==> #[trigger] target_key(self.render_queues@[i].0) != #[trigger] target_key(self.render_queues@[j].0)
        &&& forall|i: int| 0 <= i < self.render_queues@.len() ==> {
            let q = #[trigger] self.render_queues@[i].1;
            &&& q.capacity() == self.config.queue_max_capacity
            &&& q.batch() == self.config.batch_size
            &&& q.z_sorting()
        }
    }

    /// A stopped manager with no queues.
    pub fn new(config: RenderManagerConfig) -> (r: Self)
        ensures
            r.wf(),
            r.queues().len() == 0,
            r.settings() == config,
            !r.running(),
            r.pipe().settings() == config.pipeline_config,
            r.pipe().drawing() == (0i32, Seq::<Seq<char>>::empty(), 0int),
    {
        let pipeline = RenderPipeline::new(config.pipeline_config);
        let r = RenderManager { render_queues: Vec::new(), pipeline, config, is_running: false };
        proof {
            assert(r.queues() =~= Seq::<((int, Seq<char>), Seq<RenderCommand>)>::empty());
        }
        r
    }

    /// Starts the manager; refused when it is already running.
    pub fn start(&mut self) -> (r: Result<(), ComponentError>)
        requires
            old(self).wf(),
        ensures
            final(self).wf(),
            r is Err <==> old(self).running(),
            r matches Err(e) ==> e matches ComponentError::StateError(m) && m@ == "渲染管理器已在运行"@,
            final(self).running(),
            final(self).queues() == old(self).queues(),
            final(self).pipe() == old(self).pipe(),
            final(self).settings() == old(self).settings(),
    {
        if self.is_running {
            return Err(ComponentError::StateError(String::from_str("渲染管理器已在运行")));
        }
        self.is_running = true;
        Ok(())
    }

    /// Stops the manager and empties every queue.
    pub fn stop(&mut self) -> (r: Result<(), ComponentError>)
        requires
            old(self).wf(),
        ensures
            final(self).wf(),
            r is Ok,
            !final(self).running(),
            final(self).queues().len() == old(self).queues().len(),
            forall|i: int| 0 <= i < final(self).queues().len() ==>
                #[trigger] final(self).queues()[i].0 == old(self).queues()[i].0 && final(self).queues()[i].1.len() == 0,
            final(self).pipe() == old(self).pipe(),
            final(self).settings() == old(self).settings(),
    {
        self.is_running = false;
        self.clear_all_queues();
        Ok(())
    }

    /// Empties every queue.
    pub fn clear_all_queues(&mut self)
        requires
            old(self).wf(),
        ensures
            final(self).wf(),
            final(self).queues().len() == old(self).queues().len(),
            forall|i: int| 0 <= i < final(self).queues().len() ==>
                #[trigger] final(self).queues()[i].0 == old(self).queues()[i].0 && final(self).queues()[i].1.len() == 0,
            final(self).pipe() == old(self).pipe(),
            final(self).settings() == old(self).settings(),
            final(self).running() == old(self).running(),
    {
        let n = self.render_queues.len();
        let mut i: usize = 0;
        while i < n
            invariant
                self.wf(),
                n == self.render_queues@.len(),
                0 <= i <= n,
                n == old(self).render_queues@.len(),
                forall|j: int| 0 <= j < n ==> #[trigger] target_key(self.render_queues@[j].0) == target_key(old(self).render_queues@[j].0),
                forall|j: int| 0 <= j < i ==> (#[trigger] self.render_queues@[j]).1.items().len() == 0,
                self.pipeline == old(self).pipeline,
                self.config == old(self).config,
                self.is_running == old(self).is_running,
            decreases n - i,
        {
            let mut entry: (RenderTarget, RenderQueue) = (RenderTarget::MainWindow, RenderQueue::new(0, 0));
            self.render_queues.set_and_swap(i, &mut entry);
            entry.1.clear();
            self.render_queues.set(i, entry);
            i = i + 1;
        }
    }

    /// Position of the queue for `target`.
    fn find_queue(&self, target: &RenderTarget) -> (r: Option<usize>)
        requires
            self.wf(),
        ensures
            r == match queue_pos(self.queues(), target_key(*target)) {
                Some(i) => Some(i as usize),
                None => None::<usize>,
            },
            r matches Some(i) ==> i < self.queues().len(),
    {
        proof {
            lemma_queue_pos(self.queues(), target_key(*target));
        }
        let mut i: usize = 0;
        while i < self.render_queues.len()
            invariant
                self.wf(),
                0 <= i <= self.render_queues@.len(),
                forall|j: int| 0 <= j < i ==> #[trigger] self.queues()[j].0 != target_key(*target),
            decreases self.render_queues.len() - i,
        {
            if self.render_queues[i].0.same_as(target) {
                proof {
                    assert(self.queues()[i as int].0 == target_key(*target));
                    lemma_queue_pos(self.queues(), target_key(*target));
                    match queue_pos(self.queues(), target_key(*target)) {
                        Some(p) => {
                            if p != i {
                                if p < i {
                                    assert(target_key(self.render_queues@[p].0) != target_key(self.render_queues@[i as int].0));
                                } else {
                                    assert(target_key(self.render_queues@[i as int].0) != target_key(self.render_queues@[p].0));
                                }
                            }
                        },
                        None => {},
                    }
                }
                return Some(i);
            }
            i = i + 1;
        }
        None
    }

    /// Position of the queue for `target`, created empty at the end when there is none.
    fn queue_for(&mut self, target: &RenderTarget) -> (r: usize)
        requires
            old(self).wf(),
        ensures
            final(self).wf(),
            final(self).queues() == (match queue_pos(old(self).queues(), target_key(*target)) {
                Some(_) => old(self).queues(),
                None => old(self).queues().push((target_key(*target), Seq::empty())),
            }),
            r == (match queue_pos(old(self).queues(), target_key(*target)) {
                Some(i) => i,
                None => old(self).queues().len() as int,
            }),
            r < final(self).queues().len(),
            final(self).queues()[r as int].0 == target_key(*target),
            final(self).pipe() == old(self).pipe(),
            final(self).settings() == old(self).settings(),
            final(self).running() == old(self).running(),
    {
        match self.find_queue(target) {
            Some(i) => {
                proof {
                    lemma_queue_pos(self.queues(), target_key(*target));
                    assert(self.queues().len() == self.render_queues.len());
                }
                i
            },
            None => {
                proof {
                    lemma_queue_pos(self.queues(), target_key(*target));
                }
                let q = RenderQueue::new(self.config.queue_max_capacity, self.config.batch_size);
                proof {
                    assert(q.items() =~= Seq::<RenderCommand>::empty());
                }
                let ghost before = self.queues();
                let ghost v0 = self.render_queues@;
                let t = target.duplicate();
                self.render_queues.push((t, q));
                proof {
                    assert(self.render_queues@ == v0.push((t, q)));
                    assert(self.queues() =~= before.push((target_key(*target), Seq::empty())));
                    assert forall|i: int, j: int| 0 <= i < j < self.render_queues@.len()
                        implies #[trigger] target_key(self.render_queues@[i].0) != #[trigger] target_key(self.render_queues@[j].0) by {
                        if j == v0.len() {
                            assert(before[i].0 == target_key(v0[i].0));
                        }
                    };
                }
                self.render_queues.len() - 1
            },
        }
    }

    /// Queues `command` for its target, creating the target's queue when there is none;
    /// refused when that queue is full.
    pub fn submit_command(&mut self, command: RenderCommand) -> (r: Result<(), ComponentError>)
        requires
            old(self).wf(),
        ensures
            final(self).wf(),
            ({
                let (l, ok) = add_to_queue(old(self).queues(), target_key(target_of(command)), seq![command], old(self).settings().queue_max_capacity as nat);
                &&& final(self).queues() == l
                &&& (r is Ok <==> ok)
            }),
            r matches Err(e) ==> e matches ComponentError::ResourceError(m) && m@ == "渲染队列已满"@,
            final(self).pipe() == old(self).pipe(),
            final(self).settings() == old(self).settings(),
            final(self).running() == old(self).running(),
    {
        let target = command.target().duplicate();
        let i = self.queue_for(&target);
        let ghost l1 = self.queues();
        let ghost v1 = self.render_queues@;
        let mut entry: (RenderTarget, RenderQueue) = (RenderTarget::MainWindow, RenderQueue::new(0, 0));
        self.render_queues.set_and_swap(i, &mut entry);
        let ghost e0 = entry;
        let ghost cmd = command;
        let r = entry.1.push(command);
        self.render_queues.set(i, entry);
        proof {
            assert(e0 == v1[i as int]);
            assert(e0.1.capacity() == self.config.queue_max_capacity);
            assert(l1[i as int].1 == e0.1.items());
            assert(self.render_queues@ =~= v1.update(i as int, entry));
            assert(seq![cmd] =~= Seq::<RenderCommand>::empty().push(cmd));
            assert(l1[i as int].1 + seq![cmd] =~= l1[i as int].1.push(cmd));
            if r is Ok {
                assert(self.queues() =~= l1.update(i as int, (l1[i as int].0, l1[i as int].1 + seq![cmd])));
            } else {
                assert(self.queues() =~= l1);
            }
            assert forall|a: int, b: int| 0 <= a < b < self.render_queues@.len()
                implies #[trigger] target_key(self.render_queues@[a].0) != #[trigger] target_key(self.render_queues@[b].0) by {
                assert(target_key(self.render_queues@[a].0) == target_key(v1[a].0));
                assert(target_key(self.render_queues@[b].0) == target_key(v1[b].0));
            };
        }
        r
    }

    /// Hands every queued command to the pipeline, queue after queue, one batch at a
    /// time; every queue ends empty.
    pub fn process_queues(&mut self) -> (r: Result<(), ComponentError>)
        requires
            old(self).wf(),
            old(self).settings().batch_size > 0,
            old(self).pipe().counters().commands_processed + queued(old(self).queues()) <= u64::MAX,
            old(self).pipe().counters().components_rendered + queued(old(self).queues()) <= u64::MAX,
            old(self).pipe().counters().batches_processed + queued(old(self).queues()) <= u64::MAX,
        ensures
            final(self).wf(),
            r is Ok,
            final(self).queues().len() == old(self).queues().len(),
            forall|i: int| 0 <= i < final(self).queues().len() ==>
                #[trigger] final(self).queues()[i].0 == old(self).queues()[i].0 && final(self).queues()[i].1.len() == 0,
            final(self).pipe().drawing() == steps(old(self).pipe().drawing(), drain_all(old(self).queues(), old(self).settings().batch_size as nat)),
            final(self).pipe().counters().commands_processed == old(self).pipe().counters().commands_processed + queued(old(self).queues()),
            final(self).pipe().counters().batches_processed == old(self).pipe().counters().batches_processed
                + batches_all(old(self).queues(), old(self).settings().batch_size as nat),
            final(self).pipe().settings() == old(self).pipe().settings(),
            final(self).settings() == old(self).settings(),
            final(self).running() == old(self).running(),
    {
        let ghost l0 = self.queues();
        let ghost b = self.config.batch_size as nat;
        let ghost d0 = self.pipeline.drawing();
        let ghost c0 = self.pipeline.counters();
        proof {
            lemma_drain_all_len(l0, b);
            assert(l0.take(0) =~= Seq::<((int, Seq<char>), Seq<RenderCommand>)>::empty());
        }
        let n = self.render_queues.len();
        let mut i: usize = 0;
        while i < n
            invariant
                self.wf(),
                n == self.render_queues@.len(),
                n == l0.len(),
                0 <= i <= n,
                b == self.config.batch_size as nat,
                b > 0,
                self.config == old(self).config,
                self.is_running == old(self).is_running,
                forall|j: int| 0 <= j < n ==> #[trigger] self.queues()[j].0 == l0[j].0,
                forall|j: int| 0 <= j < i ==> (#[trigger] self.queues()[j]).1.len() == 0,
                forall|j: int| i <= j < n ==> #[trigger] self.queues()[j] == l0[j],
                self.pipeline.drawing() == steps(d0, drain_all(l0.take(i as int), b)),
                self.pipeline.counters().commands_processed == c0.commands_processed + queued(l0.take(i as int)),
                self.pipeline.counters().batches_processed == c0.batches_processed + batches_all(l0.take(i as int), b),
                self.pipeline.counters().components_rendered == self.pipeline.drawing().2,
                c0.components_rendered == d0.2,
                c0.commands_processed + queued(l0) <= u64::MAX,
                c0.components_rendered + queued(l0) <= u64::MAX,
                c0.batches_processed + queued(l0) <= u64::MAX,
                self.pipeline.settings() == old(self).pipeline.settings(),
            decreases n - i,
        {
            let ghost v1 = self.render_queues@;
            let ghost q1 = self.queues();
            proof {
                assert(self.queues()[i as int] == l0[i as int]);
                assert(self.queues()[i as int].1 == v1[i as int].1.items());
            }
            let mut entry: (RenderTarget, RenderQueue) = (RenderTarget::MainWindow, RenderQueue::new(0, 0));
            self.render_queues.set_and_swap(i, &mut entry);
            let ghost v_mid = self.render_queues@;
            let ghost items0 = entry.1.items();
            proof {
                assert(entry == v1[i as int]);
                assert(items0 == l0[i as int].1);
                assert(entry.1.batch() == b);
                assert(entry.1.z_sorting());
                lemma_prefix_sums(l0, i as int, b);
                lemma_drain_len(items0, b);
                assert(drain(items0, b) =~= Seq::<RenderCommand>::empty() + drain(items0, b));
            }
            let ghost mut done: Seq<RenderCommand> = Seq::empty();
            let ghost mut done_batches: nat = 0;
            let ghost base = drain_all(l0.take(i as int), b);
            while !entry.1.is_empty()
                invariant
                    self.render_queues@ == v_mid,
                    v_mid.len() == n,
                    i < n,
                    entry.0 == v1[i as int].0,
                    self.config == old(self).config,
                    self.is_running == old(self).is_running,
                    entry.1.batch() == b,
                    entry.1.z_sorting(),
                    entry.1.capacity() == v1[i as int].1.capacity(),
                    b > 0,
                    done + drain(entry.1.items(), b) == drain(items0, b),
                    done_batches + batch_count(entry.1.items(), b) == batch_count(items0, b),
                    self.pipeline.drawing() == steps(d0, base + done),
                    self.pipeline.counters().commands_processed == c0.commands_processed + queued(l0.take(i as int)) + done.len(),
                    self.pipeline.counters().batches_processed == c0.batches_processed + batches_all(l0.take(i as int), b) + done_batches,
                    self.pipeline.counters().components_rendered == self.pipeline.drawing().2,
                    c0.components_rendered == d0.2,
                    queued(l0.take(i as int)) + items0.len() <= queued(l0),
                    batches_all(l0.take(i as int), b) + batch_count(items0, b) <= queued(l0),
                    base.len() == queued(l0.take(i as int)),
                    batch_count(items0, b) <= items0.len(),
                    drain(items0, b).len() == items0.len(),
                    c0.commands_processed + queued(l0) <= u64::MAX,
                    c0.components_rendered + queued(l0) <= u64::MAX,
                    c0.batches_processed + queued(l0) <= u64::MAX,
                    self.pipeline.settings() == old(self).pipeline.settings(),
                decreases entry.1.items().len(),
            {
                let ghost before = entry.1.items();
                let batch = entry.1.pop_batch();
                proof {
                    let m = if b < before.len() { b as int } else { before.len() as int };
                    assert(drain(before, b) == sort_by_z(before.take(m)) + drain(before.skip(m), b));
                    assert(batch@ == sort_by_z(before.take(m)));
                    lemma_drain_len(before.skip(m), b);
                    lemma_sort_by_z(before.take(m));
                    assert(done + batch@ + drain(entry.1.items(), b) =~= done + drain(before, b));
                    lemma_steps_count(d0, base + done);
                    lemma_steps_count(d0, base + done + batch@);
                    lemma_steps_append(d0, base + done, batch@);
                    assert(base + done + batch@ =~= base + (done + batch@));
                }
                let _ = self.pipeline.execute_batch(&batch);
                proof {
                    done = done + batch@;
                    done_batches = done_batches + 1;
                }
            }
            proof {
                assert(drain(entry.1.items(), b) =~= Seq::<RenderCommand>::empty());
                assert(done =~= drain(items0, b));
                assert(l0.take(i + 1).drop_last() =~= l0.take(i as int));
                assert(l0.take(i + 1).last() == l0[i as int]);
            }
            self.render_queues.set(i, entry);
            proof {
                assert(self.render_queues@ =~= v1.update(i as int, entry));
                assert forall|a: int, c: int| 0 <= a < c < self.render_queues@.len()
                    implies #[trigger] target_key(self.render_queues@[a].0) != #[trigger] target_key(self.render_queues@[c].0) by {
                    assert(target_key(self.render_queues@[a].0) == target_key(v1[a].0));
                    assert(target_key(self.render_queues@[c].0) == target_key(v1[c].0));
                };
                assert(self.queues()[i as int].0 == l0[i as int].0);
                assert(entry.1.items().len() == 0) by {
                    lemma_drain_len(entry.1.items(), b);
                };
                assert forall|j: int| 0 <= j < n implies #[trigger] self.queues()[j].0 == l0[j].0 by {
                    if j != i {
                        assert(self.render_queues@[j] == v1[j]);
                        assert(old_queues_at(v1, j) == self.queues()[j]);
                        assert(q1[j] == old_queues_at(v1, j));
                        assert(q1[j].0 == l0[j].0);
                    }
                };
                assert forall|j: int| 0 <= j < i + 1 implies (#[trigger] self.queues()[j]).1.len() == 0 by {
                    if j != i {
                        assert(self.render_queues@[j] == v1[j]);
                        assert(old_queues_at(v1, j) == self.queues()[j]);
                        assert(q1[j] == old_queues_at(v1, j));
                        assert(q1[j].1.len() == 0);
                    }
                };
                assert forall|j: int| i + 1 <= j < n implies #[trigger] self.queues()[j] == l0[j] by {
                    assert(self.render_queues@[j] == v1[j]);
                    assert(old_queues_at(v1, j) == self.queues()[j]);
                    assert(q1[j] == old_queues_at(v1, j));
                    assert(q1[j] == l0[j]);
                };
            }
            i = i + 1;
        }
        proof {
            assert(l0.take(n as int) =~= l0);
        }
        Ok(())
    }

    /// The counters of the pipeline.
    pub fn get_stats(&self) -> (r: RenderStats)
        ensures
            r == self.pipe().counters(),
    {
        self.pipeline.get_stats()
    }

    /// Sets the pipeline's counters back to zero.
    pub fn reset_stats(&mut self)
        requires
            old(self).wf(),
        ensures
            final(self).wf(),
            final(self).pipe().counters().commands_processed == 0,
            final(self).pipe().counters().components_rendered == 0,
            final(self).pipe().counters().batches_processed == 0,
            final(self).pipe().counters().render_time_us == 0,
            final(self).queues() == old(self).queues(),
            final(self).settings() == old(self).settings(),
            final(self).running() == old(self).running(),
    {
        self.pipeline.reset_stats();
    }

    /// Label, length and capacity of each queue, in the order the queues were created.
    pub fn get_queue_info(&self) -> (r: Vec<(String, QueueInfo)>)
        requires
            self.wf(),
        ensures
            r@.len() == self.queues().len(),
            forall|i: int| 0 <= i < r@.len() ==> {
                &&& (#[trigger] r@[i]).1.length == self.queues()[i].1.len()
                &&& r@[i].1.capacity == self.settings().queue_max_capacity
                &&& exists|t: RenderTarget| target_key(t) == self.queues()[i].0 && r@[i].0@ == target_label(t)
            },
    {
        let mut out: Vec<(String, QueueInfo)> = Vec::new();
        let mut i: usize = 0;
        while i < self.render_queues.len()
            invariant
                self.wf(),
                0 <= i <= self.render_queues@.len(),
                out@.len() == i,
                forall|j: int| 0 <= j < i ==> {
                    &&& (#[trigger] out@[j]).1.length == self.queues()[j].1.len()
                    &&& out@[j].1.capacity == self.settings().queue_max_capacity
                    &&& exists|t: RenderTarget| target_key(t) == self.queues()[j].0 && out@[j].0@ == target_label(t)
                },
            decreases self.render_queues.len() - i,
        {
            let entry = &self.render_queues[i];
            let label = entry.0.label();
            proof {
                assert(target_key(entry.0) == self.queues()[i as int].0);
            }
            out.push((label, QueueInfo { length: entry.1.len(), capacity: entry.1.max_capacity() }));
            proof {
                assert(out@[i as int].0@ == target_label(entry.0));
            }
            i = i + 1;
        }
        out
    }

    /// Makes room in the queue for `target`, if there is one, without changing what is queued.
    pub fn reserve_queue_capacity(&mut self, target: &RenderTarget, additional: usize)
        requires
            old(self).wf(),
        ensures
            final(self).wf(),
            final(self).queues() == old(self).queues(),
            final(self).pipe() == old(self).pipe(),
            final(self).settings() == old(self).settings(),
            final(self).running() == old(self).running(),
    {
        match self.find_queue(target) {
            Some(i) => {
                let ghost v1 = self.render_queues@;
                let mut entry: (RenderTarget, RenderQueue) = (RenderTarget::MainWindow, RenderQueue::new(0, 0));
                self.render_queues.set_and_swap(i, &mut entry);
                entry.1.reserve(additional);
                self.render_queues.set(i, entry);
                proof {
                    assert(self.render_queues@ =~= v1.update(i as int, entry));
                    assert(self.queues() =~= old(self).queues());
                    assert forall|a: int, c: int| 0 <= a < c < self.render_queues@.len()
                        implies #[trigger] target_key(self.render_queues@[a].0) != #[trigger] target_key(self.render_queues@[c].0) by {
                        assert(target_key(self.render_queues@[a].0) == target_key(v1[a].0));
                        assert(target_key(self.render_queues@[c].0) == target_key(v1[c].0));
                    };
                }
            },
            None => {},
        }
    }

    /// Adds the items of `group` to the queue for its target.
    fn add_group(&mut self, target: &RenderTarget, group: Vec<RenderCommand>) -> (r: Result<(), ComponentError>)
        requires
            old(self).wf(),
        ensures
            final(self).wf(),
            ({
                let (l, ok) = add_to_queue(old(self).queues(), target_key(*target), group@, old(self).settings().queue_max_capacity as nat);
                &&& final(self).queues() == l
                &&& (r is Ok <==> ok)
            }),
            r matches Err(e) ==> e matches ComponentError::ResourceError(m) && m@ == "渲染队列容量不足"@,
            final(self).pipe() == old(self).pipe(),
            final(self).settings() == old(self).settings(),
            final(self).running() == old(self).running(),
    {
        let i = self.queue_for(target);
        let ghost l1 = self.queues();
        let ghost v1 = self.render_queues@;
        let ghost items = group@;
        let mut entry: (RenderTarget, RenderQueue) = (RenderTarget::MainWindow, RenderQueue::new(0, 0));
        self.render_queues.set_and_swap(i, &mut entry);
        let ghost e0 = entry;
        let r = entry.1.push_batch(group);
        self.render_queues.set(i, entry);
        proof {
            assert(e0 == v1[i as int]);
            assert(e0.1.capacity() == self.config.queue_max_capacity);
            assert(l1[i as int].1 == e0.1.items());
            assert(self.render_queues@ =~= v1.update(i as int, entry));
            assert forall|a: int, b: int| 0 <= a < b < self.render_queues@.len()
                implies #[trigger] target_key(self.render_queues@[a].0) != #[trigger] target_key(self.render_queues@[b].0) by {
                assert(target_key(self.render_queues@[a].0) == target_key(v1[a].0));
                assert(target_key(self.render_queues@[b].0) == target_key(v1[b].0));
            };
            if r is Ok {
                assert(self.queues() =~= l1.update(i as int, (l1[i as int].0, l1[i as int].1 + items)));
            } else {
                assert(self.queues() =~= l1);
            }
        }
        r
    }

    /// Queues `commands`, grouped by target in order of first appearance, each group
    /// all or nothing; stops at the first group that does not fit, keeping the groups
    /// queued before it.
    pub fn submit_commands(&mut self, commands: Vec<RenderCommand>) -> (r: Result<(), ComponentError>)
        requires
            old(self).wf(),
        ensures
            final(self).wf(),
            ({
                let (l, ok) = add_groups(old(self).queues(), group_by_target(commands@), old(self).settings().queue_max_capacity as nat);
                &&& final(self).queues() == l
                &&& (r is Ok <==> ok)
            }),
            r matches Err(e) ==> e matches ComponentError::ResourceError(m) && m@ == "渲染队列容量不足"@,
            final(self).pipe() == old(self).pipe(),
            final(self).settings() == old(self).settings(),
            final(self).running() == old(self).running(),
    {
        let ghost cs = commands@;
        let mut groups = group_commands(commands);
        let ghost gs = group_by_target(cs);
        let ghost cap = self.config.queue_max_capacity as nat;
        let mut k: usize = 0;
        let n = groups.len();
        proof {
            assert(gs.skip(0) =~= gs);
        }
        while groups.len() > 0
            invariant
                self.wf(),
                groups@.len() + k == n,
                n == gs.len(),
                gs == group_by_target(commands@),
                forall|j: int| 0 <= j < groups@.len() ==> (target_key(#[trigger] groups@[j].0), groups@[j].1@) == gs.skip(k as int)[j],
                add_groups(old(self).queues(), gs, cap) == add_groups(self.queues(), gs.skip(k as int), cap),
                cap == self.config.queue_max_capacity as nat,
                self.pipeline == old(self).pipeline,
                self.config == old(self).config,
                self.is_running == old(self).is_running,
            decreases groups.len(),
        {
            let (target, group) = groups.remove(0);
            proof {
                assert(gs.skip(k as int)[0] == (target_key(target), group@));
                assert(gs.skip(k as int).drop_first() =~= gs.skip(k + 1));
                assert forall|j: int| 0 <= j < groups@.len() implies (target_key(#[trigger] groups@[j].0), groups@[j].1@) == gs.skip(k + 1)[j] by {
                    assert(gs.skip(k + 1)[j] == gs.skip(k as int)[j + 1]);
                };
            }
            let ghost before = self.queues();
            let ghost rest = gs.skip(k as int);
            let r = self.add_group(&target, group);
            proof {
                let (l1, ok) = add_to_queue(before, rest[0].0, rest[0].1, cap);
                assert(add_groups(before, rest, cap) == (if !ok { (l1, false) } else { add_groups(l1, rest.drop_first(), cap) }));
            }
            if r.is_err() {
                return r;
            }
            k = k + 1;
        }
        proof {
            assert(gs.skip(k as int).len() == 0);
        }
        Ok(())
    }
}

/// `commands` grouped by target as `group_by_target` describes.
pub fn group_commands(commands: Vec<RenderCommand>) -> (r: Vec<(RenderTarget, Vec<RenderCommand>)>)
    ensures
        r@.len() == group_by_target(commands@).len(),
        forall|j: int| 0 <= j < r@.len() ==> (target_key(#[trigger] r@[j].0), r@[j].1@) == group_by_target(commands@)[j],
{
    let ghost all = commands@;
    let mut rest = commands;
    let mut out: Vec<(RenderTarget, Vec<RenderCommand>)> = Vec::new();
    let n = rest.len();
    let mut i: usize = 0;
    proof {
        assert(all.skip(0) =~= all);
        assert(all.take(0) =~= Seq::<RenderCommand>::empty());
    }
    while rest.len() > 0
        invariant
            rest@.len() + i == n,
            n == all.len(),
            rest@ == all.skip(i as int),
            out@.len() == group_by_target(all.take(i as int)).len(),
            forall|j: int| 0 <= j < out@.len() ==> (target_key(#[trigger] out@[j].0), out@[j].1@) == group_by_target(all.take(i as int))[j],
        decreases rest.len(),
    {
        let c = rest.remove(0);
        let ghost g = group_by_target(all.take(i as int));
        proof {
            assert(c == all[i as int]);
            assert(all.take(i + 1).drop_last() =~= all.take(i as int));
            assert(rest@ =~= all.skip(i + 1));
            lemma_queue_pos(g, target_key(target_of(c)));
        }
        let target = c.target().duplicate();
        let mut p: usize = out.len();
        let mut found: Option<usize> = None;
        while p > 0 && found.is_none()
            invariant
                0 <= p <= out@.len(),
                out@.len() == g.len(),
                forall|j: int| 0 <= j < out@.len() ==> (target_key(#[trigger] out@[j].0), out@[j].1@) == g[j],
                found matches Some(j) ==> j == p && j < g.len() && g[j as int].0 == target_key(target),
                forall|j: int| p <= j < g.len() && (found matches Some(f) ==> j != f) ==> #[trigger] g[j].0 != target_key(target),
            decreases p,
        {
            if out[p - 1].0.same_as(&target) {
                found = Some(p - 1);
            }
            p = p - 1;
        }
        let ghost old_out = out@;
        match found {
            Some(j) => {
                proof {
                    assert(g[j as int].0 == target_key(target));
                    assert(queue_pos(g, target_key(target_of(c))) == Some(j as int)) by {
                        lemma_queue_pos(g, target_key(target_of(c)));
                        match queue_pos(g, target_key(target_of(c))) {
                            Some(q) => {
                                if q < j {
                                    assert(g[j as int].0 != target_key(target_of(c)));
                                } else if q > j {
                                    assert(g[q].0 != target_key(target_of(c)));
                                }
                            },
                            None => {
                                assert(g[j as int].0 != target_key(target_of(c)));
                            },
                        }
                    };
                }
                let mut entry: (RenderTarget, Vec<RenderCommand>) = (RenderTarget::MainWindow, Vec::new());
                out.set_and_swap(j, &mut entry);
                let ghost before_items = entry.1@;
                entry.1.push(c);
                out.set(j, entry);
                proof {
                    assert forall|q: int| 0 <= q < out@.len() implies (target_key(#[trigger] out@[q].0), out@[q].1@) == group_by_target(all.take(i + 1))[q] by {
                        if q == j {
                            assert(out@[q].1@ == before_items.push(c));
                        } else {
                            assert(out@[q] == old_out[q]);
                        }
                    };
                }
            },
            None => {
                proof {
                    assert(queue_pos(g, target_key(target_of(c))) is None) by {
                        lemma_queue_pos(g, target_key(target_of(c)));
                        match queue_pos(g, target_key(target_of(c))) {
                            Some(q) => {
                                assert(g[q].0 != target_key(target));
                            },
                            None => {},
                        }
                    };
                }
                let mut v: Vec<RenderCommand> = Vec::new();
                v.push(c);
                out.push((target, v));
                proof {
                    assert forall|q: int| 0 <= q < out@.len() implies (target_key(#[trigger] out@[q].0), out@[q].1@) == group_by_target(all.take(i + 1))[q] by {
                        if q < old_out.len() {
                            assert(out@[q] == old_out[q]);
                        } else {
                            assert(out@[q].1@ =~= seq![c]);
                        }
                    };
                }
            },
        }
        i = i + 1;
    }
    proof {
        assert(all.take(n as int) =~= all);
    }
    out
}

} // verus!
