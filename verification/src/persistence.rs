use vstd::prelude::*;
use crate::component::{ComponentId, ComponentError};
use crate::state::{ComponentStateSnapshot, snap_view};
use crate::assoc::{keys_unique, assoc_map, assoc_find, lemma_assoc_get, lemma_assoc_update, lemma_assoc_push};
use crate::clock::now_millis;
use crate::json::Json;
use crate::text::{decimal, decimal_string, join2, join3};

verus! {

/// A snapshot as plain values.
pub type SnapView = (Seq<char>, Json, u64, u64, Seq<(Seq<char>, Seq<char>)>);

pub open spec fn snap_views(s: Seq<ComponentStateSnapshot>) -> Seq<SnapView> {
    s.map_values(|x: ComponentStateSnapshot| snap_view(x))
}

/// Where a snapshot of version `v` goes among `s`, after every snapshot of a version
/// not above it.
pub open spec fn version_pos(s: Seq<SnapView>, v: u64) -> int
    decreases s.len(),
{
    if s.len() == 0 {
        0
    } else if s.last().3 <= v {
        s.len() as int
    } else {
        version_pos(s.drop_last(), v)
    }
}

/// `s` with `x` added and kept in version order, then cut to the newest `max`.
pub open spec fn saved(s: Seq<SnapView>, x: SnapView, max: nat) -> Seq<SnapView> {
    let t = s.insert(version_pos(s, x.3), x);
    if t.len() > max { t.skip(t.len() - max) } else { t }
}

/// The first snapshot of `s` with version `v`.
pub open spec fn with_version(s: Seq<SnapView>, v: u64) -> Option<SnapView>
    decreases s.len(),
{
    if s.len() == 0 {
        None
    } else if s[0].3 == v {
        Some(s[0])
    } else {
        with_version(s.drop_first(), v)
    }
}

/// Versions never decrease along `s`.
pub open spec fn in_version_order(s: Seq<SnapView>) -> bool {
    forall|i: int, j: int| 0 <= i <= j < s.len() ==> s[i].3 <= s[j].3
}

/// Saving keeps a component's snapshots in version order and never holds more than
/// the limit.
pub proof fn lemma_saved_in_order(s: Seq<SnapView>, x: SnapView, max: nat)
    requires
        in_version_order(s),
    ensures
        in_version_order(saved(s, x, max)),
        saved(s, x, max).len() <= max || saved(s, x, max).len() == s.len() + 1 && s.len() + 1 <= max,
        saved(s, x, max).len() <= max,
{
    lemma_version_pos(s, x.3);
    let p = version_pos(s, x.3);
    let t = s.insert(p, x);
    assert forall|i: int, j: int| 0 <= i <= j < t.len() implies t[i].3 <= t[j].3 by {
        if i < p && j < p {
            assert(t[i] == s[i] && t[j] == s[j]);
        } else if i < p && j == p {
            assert(t[i] == s[i]);
        } else if i < p && j > p {
            assert(t[i] == s[i] && t[j] == s[j - 1]);
        } else if i == p && j > p {
            assert(t[j] == s[j - 1]);
        } else if i > p {
            assert(t[i] == s[i - 1] && t[j] == s[j - 1]);
        }
    };
    if t.len() > max {
        let u = t.skip(t.len() - max);
        assert forall|i: int, j: int| 0 <= i <= j < u.len() implies u[i].3 <= u[j].3 by {
            assert(u[i] == t[i + t.len() - max] && u[j] == t[j + t.len() - max]);
        };
    }
}

/// Saving a snapshot whose version is at least every stored one, with room for one
/// snapshot at least, makes it the latest: loading with no version gives it back, and
/// so does loading its version when no stored snapshot had that version.
pub proof fn lemma_load_after_save(s: Seq<SnapView>, x: SnapView, max: nat)
    requires
        max >= 1,
        forall|i: int| 0 <= i < s.len() ==> #[trigger] s[i].3 <= x.3,
    ensures
        saved(s, x, max).len() > 0,
        saved(s, x, max).last() == x,
        (forall|i: int| 0 <= i < s.len() ==> #[trigger] s[i].3 != x.3) ==> with_version(saved(s, x, max), x.3) == Some(x),
{
    assert(version_pos(s, x.3) == s.len());
    let t = s.insert(s.len() as int, x);
    assert(t =~= s.push(x));
    let u = saved(s, x, max);
    assert(u.last() == x);
    if forall|i: int| 0 <= i < s.len() ==> #[trigger] s[i].3 != x.3 {
        assert forall|i: int| 0 <= i < u.len() - 1 implies #[trigger] u[i].3 != x.3 by {
            if t.len() > max {
                assert(u[i] == t[i + t.len() - max]);
            } else {
                assert(u[i] == t[i]);
            }
        };
        lemma_with_version_last(u, x.3);
    }
}

/// `s` stably sorted by version: each snapshot in turn goes after every earlier one
/// whose version is not above its own.
pub open spec fn sort_by_version(s: Seq<SnapView>) -> Seq<SnapView>
    decreases s.len(),
{
    if s.len() == 0 {
        s
    } else {
        let t = sort_by_version(s.drop_last());
        t.insert(version_pos(t, s.last().3), s.last())
    }
}

/// The newest `max` of `s`: its last `max` items, all of it when it is shorter.
pub open spec fn newest(s: Seq<SnapView>, max: nat) -> Seq<SnapView> {
    if s.len() > max { s.skip(s.len() - max) } else { s }
}

/// Saving `x` among snapshots `s` kept in version order leaves the newest `max` of
/// `s` followed by `x`, stably sorted by version.
pub proof fn lemma_save_is_sorted_append(s: Seq<SnapView>, x: SnapView, max: nat)
    requires
        in_version_order(s),
    ensures
        saved(s, x, max) == newest(sort_by_version(s.push(x)), max),
{
    lemma_sorted_fixed(s);
    assert(s.push(x).drop_last() =~= s);
}

/// Sorting a list already in version order leaves it as it is.
proof fn lemma_sorted_fixed(s: Seq<SnapView>)
    requires
        in_version_order(s),
    ensures
        sort_by_version(s) == s,
    decreases s.len(),
{
    if s.len() > 0 {
        let init = s.drop_last();
        assert(in_version_order(init)) by {
            assert forall|i: int, j: int| 0 <= i <= j < init.len() implies init[i].3 <= init[j].3 by {
                assert(init[i] == s[i] && init[j] == s[j]);
            };
        };
        lemma_sorted_fixed(init);
        if init.len() > 0 {
            assert(init.last().3 <= s.last().3) by {
                assert(init.last() == s[s.len() - 2]);
            };
        }
        assert(version_pos(init, s.last().3) == init.len());
        assert(init.insert(init.len() as int, s.last()) =~= s);
    }
}

proof fn lemma_with_version_last(u: Seq<SnapView>, v: u64)
    requires
        u.len() > 0,
        u.last().3 == v,
        forall|i: int| 0 <= i < u.len() - 1 ==> #[trigger] u[i].3 != v,
    ensures
        with_version(u, v) == Some(u.last()),
    decreases u.len(),
{
    if u.len() > 1 {
        assert(u[0].3 != v);
        let rest = u.drop_first();
        assert forall|i: int| 0 <= i < rest.len() - 1 implies #[trigger] rest[i].3 != v by {
            assert(rest[i] == u[i + 1]);
        };
        lemma_with_version_last(rest, v);
    }
}

proof fn lemma_version_pos(s: Seq<SnapView>, v: u64)
    requires
        in_version_order(s),
    ensures
        0 <= version_pos(s, v) <= s.len(),
        forall|i: int| 0 <= i < version_pos(s, v) ==> #[trigger] s[i].3 <= v,
        forall|i: int| version_pos(s, v) <= i < s.len() ==> #[trigger] s[i].3 > v,
    decreases s.len(),
{
    if s.len() > 0 {
        let init = s.drop_last();
        assert(in_version_order(init)) by {
            assert forall|i: int, j: int| 0 <= i <= j < init.len() implies init[i].3 <= init[j].3 by {
                assert(init[i] == s[i] && init[j] == s[j]);
            };
        };
        if s.last().3 > v {
            lemma_version_pos(init, v);
            assert forall|i: int| 0 <= i < version_pos(s, v) implies #[trigger] s[i].3 <= v by {
                assert(init[i] == s[i]);
            };
            assert forall|i: int| version_pos(s, v) <= i < s.len() implies #[trigger] s[i].3 > v by {
                if i < s.len() - 1 {
                    assert(init[i] == s[i]);
                }
            };
        } else {
            assert forall|i: int| 0 <= i < version_pos(s, v) implies #[trigger] s[i].3 <= v by {
                assert(s[i].3 <= s[s.len() - 1].3);
            };
        }
    }
}

/// A cleanup at time `now` took `before` to `after`: every snapshot taken at or before
/// `now - max_age` (the epoch when that is earlier) went, and `r` counts them.
pub open spec fn cleaned_up(before: MemoryStatePersistence, after: MemoryStatePersistence, max_age: u64, now: u64,
    r: Result<u64, ComponentError>) -> bool {
    let cutoff = if max_age <= now { (now - max_age) as u64 } else { 0u64 };
    &&& after.stored().dom() == before.stored().dom()
    &&& forall|k: Seq<char>| #[trigger] after.stored().dom().contains(k) ==>
        after.stored()[k] == before.stored()[k].filter(|x: SnapView| x.2 > cutoff)
    &&& r matches Ok(n) && n == before.total() - after.total()
}

/// Every list of `m` is in version order.
pub open spec fn lists_in_order(m: Map<Seq<char>, Seq<SnapView>>) -> bool {
    forall|k: Seq<char>| #[trigger] m.dom().contains(k) ==> in_version_order(m[k])
}

proof fn lemma_insert_in_order(m: Map<Seq<char>, Seq<SnapView>>, k: Seq<char>, l: Seq<SnapView>)
    requires
        lists_in_order(m),
        in_version_order(l),
    ensures
        lists_in_order(m.insert(k, l)),
{
}

/// Keeping some snapshots of a list in version order leaves them in version order.
proof fn lemma_filter_in_order(s: Seq<SnapView>, p: spec_fn(SnapView) -> bool)
    requires
        in_version_order(s),
    ensures
        in_version_order(s.filter(p)),
    decreases s.len(),
{
    reveal(Seq::filter);
    if s.len() > 0 {
        let init = s.drop_last();
        assert(in_version_order(init)) by {
            assert forall|i: int, j: int| 0 <= i <= j < init.len() implies init[i].3 <= init[j].3 by {
                assert(init[i] == s[i] && init[j] == s[j]);
            };
        };
        lemma_filter_in_order(init, p);
        let f = init.filter(p);
        if p(s.last()) {
            let g = s.filter(p);
            assert(g == f.push(s.last()));
            assert forall|i: int, j: int| 0 <= i <= j < g.len() implies g[i].3 <= g[j].3 by {
                if j == f.len() && i < f.len() {
                    assert(f.contains(f[i]));
                    init.lemma_filter_contains_rev(p, f[i]);
                    let m = choose|m: int| 0 <= m < init.len() && init[m] == f[i];
                    assert(s[m] == init[m]);
                    assert(s[m].3 <= s[s.len() - 1].3);
                } else if j < f.len() {
                    assert(g[i] == f[i] && g[j] == f[j]);
                }
            };
        }
    }
}

/// Snapshots kept in memory, per component, in version order, at most a set number each.
pub struct MemoryStatePersistence {
    snapshots: Vec<(ComponentId, Vec<ComponentStateSnapshot>)>,
    max_snapshots_per_component: usize,
}

impl MemoryStatePersistence {
    /// The snapshots of each component that has some entry.
    pub closed spec fn stored(&self) -> Map<Seq<char>, Seq<SnapView>> {
        assoc_map(self.snapshots@).map_values(|v: Vec<ComponentStateSnapshot>| snap_views(v@))
    }

    /// Most snapshots kept per component.
    pub closed spec fn limit(&self) -> nat {
        self.max_snapshots_per_component as nat
    }

    pub closed spec fn wf(&self) -> bool {
        &&& keys_unique(self.snapshots@)
        &&& lists_in_order(self.stored())
    }

    /// The snapshots of `k`, none when it has no entry.
    pub open spec fn of(&self, k: Seq<char>) -> Seq<SnapView> {
        if self.stored().dom().contains(k) { self.stored()[k] } else { Seq::empty() }
    }

    /// An empty store keeping up to `max_snapshots_per_component` snapshots per component.
    pub fn new(max_snapshots_per_component: usize) -> (r: Self)
        ensures
            r.wf(),
            r.stored() == Map::<Seq<char>, Seq<SnapView>>::empty(),
            r.limit() == max_snapshots_per_component,
    {
        let r = MemoryStatePersistence { snapshots: Vec::new(), max_snapshots_per_component };
        proof {
            assert(r.stored() =~= Map::<Seq<char>, Seq<SnapView>>::empty());
        }
        r
    }

    /// Position of the entry of `id`, created empty when there is none.
    fn entry_for(&mut self, id: &ComponentId) -> (r: usize)
        requires
            old(self).wf(),
        ensures
            final(self).wf(),
            r < final(self).snapshots@.len(),
            final(self).snapshots@[r as int].0.0@ == id.0@,
            final(self).stored() == old(self).stored().insert(id.0@, old(self).of(id.0@)),
            final(self).limit() == old(self).limit(),
    {
        let ghost s0 = self.snapshots@;
        match assoc_find(&self.snapshots, id) {
            Some(i) => {
                proof {
                    lemma_assoc_get(s0, i as int);
                    assert(self.stored() =~= self.stored().insert(id.0@, self.of(id.0@)));
                }
                i
            },
            None => {
                self.snapshots.push((id.duplicate(), Vec::new()));
                proof {
                    lemma_assoc_push(s0, self.snapshots@.last());
                    assert(self.snapshots@ == s0.push(self.snapshots@.last()));
                    assert(snap_views(self.snapshots@.last().1@) =~= Seq::<SnapView>::empty());
                    assert(self.stored() =~= assoc_map(s0).map_values(|v: Vec<ComponentStateSnapshot>| snap_views(v@)).insert(id.0@, Seq::empty()));
                    lemma_insert_in_order(old(self).stored(), id.0@, Seq::empty());
                }
                self.snapshots.len() - 1
            },
        }
    }

    /// Keeps a copy of `snapshot` among those of its component, in version order after
    /// any of the same version, dropping the oldest beyond the limit.
    pub fn save_snapshot(&mut self, snapshot: &ComponentStateSnapshot) -> (r: Result<(), ComponentError>)
        requires
            old(self).wf(),
        ensures
            final(self).wf(),
            r is Ok,
            final(self).stored() == old(self).stored().insert(snapshot.component_id.0@,
                saved(old(self).of(snapshot.component_id.0@), snap_view(*snapshot), old(self).limit())),
            final(self).limit() == old(self).limit(),
    {
        let i = self.entry_for(&snapshot.component_id);
        let ghost s1 = self.snapshots@;
        let ghost stored1 = self.stored();
        let ghost k = snapshot.component_id.0@;
        let mut entry: (ComponentId, Vec<ComponentStateSnapshot>) = (ComponentId::new(String::new()), Vec::new());
        self.snapshots.set_and_swap(i, &mut entry);
        let ghost list0 = snap_views(entry.1@);
        proof {
            lemma_assoc_get(s1, i as int);
            assert(stored1[k] == list0);
            assert(list0 == old(self).of(k));
        }
        let copy = snapshot.duplicate();
        let v = copy.version;
        let mut p: usize = entry.1.len();
        proof {
            assert(list0.take(p as int) =~= list0);
        }
        while p > 0 && entry.1[p - 1].version > v
            invariant
                0 <= p <= entry.1@.len(),
                list0 == snap_views(entry.1@),
                version_pos(list0, v) == version_pos(list0.take(p as int), v),
            decreases p,
        {
            proof {
                assert(list0.take(p as int).drop_last() =~= list0.take(p - 1));
                assert(list0.take(p as int).last() == list0[p - 1]);
            }
            p = p - 1;
        }
        proof {
            if p > 0 {
                assert(list0.take(p as int).last() == list0[p - 1]);
            } else {
                assert(list0.take(0) =~= Seq::<SnapView>::empty());
            }
        }
        entry.1.insert(p, copy);
        let ghost t = snap_views(entry.1@);
        proof {
            assert(t =~= list0.insert(p as int, snap_view(*snapshot)));
        }
        if entry.1.len() > self.max_snapshots_per_component {
            let excess = entry.1.len() - self.max_snapshots_per_component;
            let kept = entry.1.split_off(excess);
            entry.1 = kept;
            proof {
                assert(snap_views(entry.1@) =~= t.skip(excess as int));
            }
        }
        self.snapshots.set(i, entry);
        proof {
            assert(self.snapshots@ =~= s1.update(i as int, self.snapshots@[i as int]));
            lemma_assoc_update(s1, i as int, self.snapshots@[i as int]);
            assert(self.stored() =~= assoc_map(s1).map_values(|v: Vec<ComponentStateSnapshot>| snap_views(v@))
                .insert(k, saved(list0, snap_view(*snapshot), self.max_snapshots_per_component as nat)));
            assert(self.stored() =~= old(self).stored().insert(k, saved(list0, snap_view(*snapshot), self.max_snapshots_per_component as nat)));
            if old(self).stored().dom().contains(k) {
                assert(in_version_order(list0));
            } else {
                assert(list0 == Seq::<SnapView>::empty());
            }
            lemma_saved_in_order(list0, snap_view(*snapshot), self.max_snapshots_per_component as nat);
            lemma_insert_in_order(old(self).stored(), k, saved(list0, snap_view(*snapshot), self.max_snapshots_per_component as nat));
        }
        Ok(())
    }


    /// The snapshot of `id` with version `version`, or its latest one when no version
    /// is given; none when there is no such snapshot.
    pub fn load_snapshot(&self, component_id: &ComponentId, version: Option<u64>) -> (r: Result<Option<ComponentStateSnapshot>, ComponentError>)
        requires
            self.wf(),
        ensures
            r matches Ok(found) && match version {
                Some(v) => match with_version(self.of(component_id.0@), v) {
                    Some(x) => found matches Some(f) && snap_view(f) == x,
                    None => found is None,
                },
                None => if self.of(component_id.0@).len() > 0 {
                    found matches Some(f) && snap_view(f) == self.of(component_id.0@).last()
                } else {
                    found is None
                },
            },
    {
        let i = match assoc_find(&self.snapshots, component_id) {
            Some(i) => i,
            None => {
                return Ok(None);
            },
        };
        proof {
            lemma_assoc_get(self.snapshots@, i as int);
        }
        let list = &self.snapshots[i].1;
        let ghost lv = snap_views(list@);
        proof {
            assert(lv == self.of(component_id.0@));
        }
        match version {
            Some(v) => {
                let mut j: usize = 0;
                proof {
                    assert(lv.skip(0) =~= lv);
                }
                while j < list.len()
                    invariant
                        0 <= j <= list@.len(),
                        lv == snap_views(list@),
                        lv == self.of(component_id.0@),
                        version == Some(v),
                        with_version(lv, v) == with_version(lv.skip(j as int), v),
                    decreases list.len() - j,
                {
                    proof {
                        assert(lv.skip(j as int)[0] == lv[j as int]);
                        assert(lv.skip(j as int).drop_first() =~= lv.skip(j + 1));
                    }
                    if list[j].version == v {
                        return Ok(Some(list[j].duplicate()));
                    }
                    j = j + 1;
                }
                Ok(None)
            },
            None => {
                if list.len() > 0 {
                    Ok(Some(list[list.len() - 1].duplicate()))
                } else {
                    Ok(None)
                }
            },
        }
    }

    /// Copies of every snapshot of `id`, in version order.
    pub fn list_snapshots(&self, component_id: &ComponentId) -> (r: Result<Vec<ComponentStateSnapshot>, ComponentError>)
        requires
            self.wf(),
        ensures
            r matches Ok(v) && snap_views(v@) == self.of(component_id.0@),
    {
        let i = match assoc_find(&self.snapshots, component_id) {
            Some(i) => i,
            None => {
                let out: Vec<ComponentStateSnapshot> = Vec::new();
                proof {
                    assert(snap_views(out@) =~= Seq::<SnapView>::empty());
                }
                return Ok(out);
            },
        };
        proof {
            lemma_assoc_get(self.snapshots@, i as int);
        }
        let list = &self.snapshots[i].1;
        let mut out: Vec<ComponentStateSnapshot> = Vec::new();
        let mut j: usize = 0;
        while j < list.len()
            invariant
                0 <= j <= list@.len(),
                out@.len() == j,
                forall|q: int| 0 <= q < j ==> #[trigger] snap_view(out@[q]) == snap_view(list@[q]),
            decreases list.len() - j,
        {
            out.push(list[j].duplicate());
            j = j + 1;
        }
        proof {
            assert(snap_views(out@) =~= snap_views(list@));
        }
        Ok(out)
    }

    /// Drops every snapshot of `id` with version `version`.
    pub fn delete_snapshot(&mut self, component_id: &ComponentId, version: u64) -> (r: Result<(), ComponentError>)
        requires
            old(self).wf(),
        ensures
            final(self).wf(),
            r is Ok,
            !old(self).stored().dom().contains(component_id.0@) ==> final(self).stored() == old(self).stored(),
            old(self).stored().dom().contains(component_id.0@) ==> final(self).stored() == old(self).stored().insert(component_id.0@,
                old(self).of(component_id.0@).filter(|x: SnapView| x.3 != version)),
            final(self).limit() == old(self).limit(),
    {
        let i = match assoc_find(&self.snapshots, component_id) {
            Some(i) => i,
            None => {
                return Ok(());
            },
        };
        let ghost s1 = self.snapshots@;
        proof {
            lemma_assoc_get(s1, i as int);
        }
        let mut entry: (ComponentId, Vec<ComponentStateSnapshot>) = (ComponentId::new(String::new()), Vec::new());
        self.snapshots.set_and_swap(i, &mut entry);
        let ghost list0 = snap_views(entry.1@);
        let kept = retain_versions_other_than(entry.1, version);
        self.snapshots.set(i, (entry.0, kept));
        proof {
            assert(self.snapshots@ =~= s1.update(i as int, self.snapshots@[i as int]));
            lemma_assoc_update(s1, i as int, self.snapshots@[i as int]);
            assert(self.stored() =~= old(self).stored().insert(component_id.0@, list0.filter(|x: SnapView| x.3 != version)));
            assert(entry.1 == s1[i as int].1);
            assert(list0 == old(self).stored()[component_id.0@]);
            lemma_filter_in_order(list0, |x: SnapView| x.3 != version);
            lemma_insert_in_order(old(self).stored(), component_id.0@, list0.filter(|x: SnapView| x.3 != version));
        }
        Ok(())
    }

    /// Number of snapshots kept over all components.
    pub closed spec fn total(&self) -> nat {
        total_count(self.snapshots@)
    }

    /// Drops the snapshots older than `max_age` milliseconds by the system clock;
    /// see `cleanup_expired_snapshots_at`.
    pub fn cleanup_expired_snapshots(&mut self, max_age: u64) -> (r: Result<u64, ComponentError>)
        requires
            old(self).wf(),
            old(self).total() <= u64::MAX,
        ensures
            final(self).wf(),
            r matches Ok(n) && n <= old(self).total(),
            exists|now: u64| #[trigger] cleaned_up(*old(self), *final(self), max_age, now, r),
            final(self).limit() == old(self).limit(),
    {
        let now = now_millis();
        self.cleanup_expired_snapshots_at(max_age, now)
    }

    /// Drops, at time `now`, every snapshot taken at or before `now - max_age` (the
    /// epoch when that is earlier), and says how many were dropped.
    pub fn cleanup_expired_snapshots_at(&mut self, max_age: u64, now: u64) -> (r: Result<u64, ComponentError>)
        requires
            old(self).wf(),
            old(self).total() <= u64::MAX,
        ensures
            final(self).wf(),
            cleaned_up(*old(self), *final(self), max_age, now, r),
            final(self).limit() == old(self).limit(),
    {
        let cutoff = now.saturating_sub(max_age);
        let ghost s0 = self.snapshots@;
        let n = self.snapshots.len();
        let mut cleaned: u64 = 0;
        let mut i: usize = 0;
        while i < n
            invariant
                n == self.snapshots@.len(),
                n == s0.len(),
                0 <= i <= n,
                forall|j: int| 0 <= j < n ==> #[trigger] self.snapshots@[j].0 == s0[j].0,
                forall|j: int| i <= j < n ==> #[trigger] self.snapshots@[j] == s0[j],
                forall|j: int| 0 <= j < i ==> snap_views(#[trigger] self.snapshots@[j].1@) == snap_views(s0[j].1@).filter(|x: SnapView| x.2 > cutoff),
                keys_unique(s0),
                cleaned as int == total_count(s0.take(i as int)) - total_count(self.snapshots@.take(i as int)),
                total_count(s0) <= u64::MAX,
                self.max_snapshots_per_component == old(self).max_snapshots_per_component,
                cutoff == (if max_age <= now { (now - max_age) as u64 } else { 0u64 }),
            decreases n - i,
        {
            let mut entry: (ComponentId, Vec<ComponentStateSnapshot>) = (ComponentId::new(String::new()), Vec::new());
            let ghost before = self.snapshots@;
            self.snapshots.set_and_swap(i, &mut entry);
            let original_len = entry.1.len();
            let kept = retain_newer_than(entry.1, cutoff);
            let kept_len = kept.len();
            proof {
                lemma_total_prefix(s0, i as int);
                lemma_total_prefix(before, i as int);
                assert(before[i as int] == s0[i as int]);
            }
            cleaned = cleaned + (original_len - kept_len) as u64;
            self.snapshots.set(i, (entry.0, kept));
            proof {
                assert(self.snapshots@ =~= before.update(i as int, self.snapshots@[i as int]));
                assert(self.snapshots@.take(i + 1) =~= before.take(i as int).push(self.snapshots@[i as int]));
                assert(before.take(i as int) == self.snapshots@.take(i as int)) by {
                    assert(before.take(i as int) =~= self.snapshots@.take(i as int));
                };
                assert(s0.take(i + 1) =~= s0.take(i as int).push(s0[i as int]));
                assert(self.snapshots@.take(i + 1).drop_last() =~= self.snapshots@.take(i as int));
                assert(s0.take(i + 1).drop_last() =~= s0.take(i as int));
            }
            i = i + 1;
        }
        proof {
            assert(s0.take(n as int) =~= s0);
            assert(self.snapshots@.take(n as int) =~= self.snapshots@);
            assert(keys_unique(self.snapshots@)) by {
                assert forall|a: int, b: int| 0 <= a < b < self.snapshots@.len() implies #[trigger] self.snapshots@[a].0.0@ != #[trigger] self.snapshots@[b].0.0@ by {
                    assert(self.snapshots@[a].0 == s0[a].0 && self.snapshots@[b].0 == s0[b].0);
                };
            };
            assert forall|k: Seq<char>| true implies (#[trigger] self.stored().dom().contains(k) <==> old(self).stored().dom().contains(k)) by {
                crate::assoc::lemma_assoc_dom(self.snapshots@, k);
                crate::assoc::lemma_assoc_dom(s0, k);
                if exists|j: int| 0 <= j < s0.len() && #[trigger] s0[j].0.0@ == k {
                    let j = choose|j: int| 0 <= j < s0.len() && #[trigger] s0[j].0.0@ == k;
                    assert(self.snapshots@[j].0.0@ == k);
                }
                if exists|j: int| 0 <= j < self.snapshots@.len() && #[trigger] self.snapshots@[j].0.0@ == k {
                    let j = choose|j: int| 0 <= j < self.snapshots@.len() && #[trigger] self.snapshots@[j].0.0@ == k;
                    assert(s0[j].0.0@ == k);
                }
            };
            assert(self.stored().dom() =~= old(self).stored().dom());
            assert forall|k: Seq<char>| #[trigger] self.stored().dom().contains(k) implies
                self.stored()[k] == old(self).stored()[k].filter(|x: SnapView| x.2 > cutoff) by {
                crate::assoc::lemma_assoc_dom(self.snapshots@, k);
                let j = choose|j: int| 0 <= j < self.snapshots@.len() && #[trigger] self.snapshots@[j].0.0@ == k;
                lemma_assoc_get(self.snapshots@, j);
                lemma_assoc_get(s0, j);
                assert(s0[j].0.0@ == k);
            };
            assert forall|k: Seq<char>| #[trigger] self.stored().dom().contains(k) implies in_version_order(self.stored()[k]) by {
                assert(old(self).stored().dom().contains(k));
                lemma_filter_in_order(old(self).stored()[k], |x: SnapView| x.2 > cutoff);
            };
        }
        Ok(cleaned)
    }
}

/// Every list a store keeps is in version order.
pub proof fn lemma_store_lists_in_order(p: MemoryStatePersistence, k: Seq<char>)
    requires
        p.wf(),
    ensures
        in_version_order(p.of(k)),
{
    if !p.stored().dom().contains(k) {
        assert(p.of(k) == Seq::<SnapView>::empty());
    }
}

/// Saving `snapshot` into store `before`, as `save_snapshot` does, gives a store whose
/// list for the snapshot's component is the newest `limit` of its old list followed by
/// the snapshot, stably sorted by version: in version order and never longer than the
/// limit. The other components' lists stay as they were.
pub proof fn lemma_save_snapshot_sorts(before: MemoryStatePersistence, after: MemoryStatePersistence, snapshot: ComponentStateSnapshot)
    requires
        before.wf(),
        after.stored() == before.stored().insert(snapshot.component_id.0@,
            saved(before.of(snapshot.component_id.0@), snap_view(snapshot), before.limit())),
    ensures
        after.of(snapshot.component_id.0@) == newest(sort_by_version(before.of(snapshot.component_id.0@).push(snap_view(snapshot))), before.limit()),
        in_version_order(after.of(snapshot.component_id.0@)),
        after.of(snapshot.component_id.0@).len() <= before.limit(),
        forall|j: Seq<char>| j != snapshot.component_id.0@ ==> #[trigger] after.of(j) == before.of(j),
{
    let k = snapshot.component_id.0@;
    let l = before.of(k);
    if before.stored().dom().contains(k) {
        assert(in_version_order(l));
    } else {
        assert(l == Seq::<SnapView>::empty());
    }
    lemma_save_is_sorted_append(l, snap_view(snapshot), before.limit());
    lemma_saved_in_order(l, snap_view(snapshot), before.limit());
}

/// Number of snapshots in all the lists of `s`.
pub open spec fn total_count(s: Seq<(ComponentId, Vec<ComponentStateSnapshot>)>) -> nat
    decreases s.len(),
{
    if s.len() == 0 {
        0
    } else {
        total_count(s.drop_last()) + s.last().1@.len()
    }
}

proof fn lemma_total_prefix(s: Seq<(ComponentId, Vec<ComponentStateSnapshot>)>, i: int)
    requires
        0 <= i < s.len(),
    ensures
        total_count(s.take(i)) + s[i].1@.len() <= total_count(s),
    decreases s.len(),
{
    if i < s.len() - 1 {
        lemma_total_prefix(s.drop_last(), i);
        assert(s.drop_last().take(i) =~= s.take(i));
    } else {
        assert(s.drop_last() =~= s.take(i));
    }
}

/// The snapshots of `list` whose version is not `version`, in order.
fn retain_versions_other_than(list: Vec<ComponentStateSnapshot>, version: u64) -> (r: Vec<ComponentStateSnapshot>)
    ensures
        snap_views(r@) == snap_views(list@).filter(|x: SnapView| x.3 != version),
{
    let ghost all = snap_views(list@);
    let ghost pred = |x: SnapView| x.3 != version;
    let mut rest = list;
    let mut out: Vec<ComponentStateSnapshot> = Vec::new();
    let n = rest.len();
    let mut i: usize = 0;
    proof {
        reveal(Seq::filter);
        assert(all.take(0) =~= Seq::<SnapView>::empty());
        assert(snap_views(rest@) =~= all.skip(0));
        assert(snap_views(out@) =~= Seq::<SnapView>::empty());
    }
    while rest.len() > 0
        invariant
            rest@.len() + i == n,
            n == all.len(),
            snap_views(rest@) == all.skip(i as int),
            snap_views(out@) == all.take(i as int).filter(pred),
            pred == (|x: SnapView| x.3 != version),
        decreases rest.len(),
    {
        let ghost rv = rest@;
        let x = rest.remove(0);
        proof {
            reveal(Seq::filter);
            assert(snap_views(rv)[0] == snap_view(x));
            assert(rest@ =~= rv.drop_first());
            assert(snap_views(rv.drop_first()) =~= snap_views(rv).drop_first());
            assert(all.skip(i as int).drop_first() =~= all.skip(i + 1));
            assert(all.take(i + 1).drop_last() =~= all.take(i as int));
            assert(all.take(i + 1).last() == snap_view(x));
        }
        let ghost before = out@;
        if x.version != version {
            out.push(x);
            proof {
                assert(snap_views(out@) =~= snap_views(before).push(snap_view(x)));
            }
        }
        i = i + 1;
    }
    proof {
        assert(all.take(n as int) =~= all);
    }
    out
}

/// The snapshots of `list` taken after `cutoff`, in order.
fn retain_newer_than(list: Vec<ComponentStateSnapshot>, cutoff: u64) -> (r: Vec<ComponentStateSnapshot>)
    ensures
        snap_views(r@) == snap_views(list@).filter(|x: SnapView| x.2 > cutoff),
        r@.len() <= list@.len(),
{
    let ghost all = snap_views(list@);
    let ghost pred = |x: SnapView| x.2 > cutoff;
    let mut rest = list;
    let mut out: Vec<ComponentStateSnapshot> = Vec::new();
    let n = rest.len();
    let mut i: usize = 0;
    proof {
        reveal(Seq::filter);
        assert(all.take(0) =~= Seq::<SnapView>::empty());
        assert(snap_views(rest@) =~= all.skip(0));
        assert(snap_views(out@) =~= Seq::<SnapView>::empty());
    }
    while rest.len() > 0
        invariant
            rest@.len() + i == n,
            n == all.len(),
            out@.len() <= i,
            snap_views(rest@) == all.skip(i as int),
            snap_views(out@) == all.take(i as int).filter(pred),
            pred == (|x: SnapView| x.2 > cutoff),
        decreases rest.len(),
    {
        let ghost rv = rest@;
        let x = rest.remove(0);
        proof {
            reveal(Seq::filter);
            assert(snap_views(rv)[0] == snap_view(x));
            assert(rest@ =~= rv.drop_first());
            assert(snap_views(rv.drop_first()) =~= snap_views(rv).drop_first());
            assert(all.skip(i as int).drop_first() =~= all.skip(i + 1));
            assert(all.take(i + 1).drop_last() =~= all.take(i as int));
            assert(all.take(i + 1).last() == snap_view(x));
        }
        let ghost before = out@;
        if x.timestamp > cutoff {
            out.push(x);
            proof {
                assert(snap_views(out@) =~= snap_views(before).push(snap_view(x)));
            }
        }
        i = i + 1;
    }
    proof {
        assert(all.take(n as int) =~= all);
    }
    out
}

/// Outcome of `serde_json::from_str::<Vec<u64>>` on `text`: the numbers, or the text of the error.
pub uninterp spec fn json_u64_list(text: Seq<char>) -> Result<Seq<u64>, Seq<char>>;

/// Reads a JSON array of unsigned integers with `serde_json::from_str::<Vec<u64>>`,
/// giving the error's `to_string()` text on failure. Which texts parse, and to what,
/// is serde_json's grammar; the result is named `json_u64_list`.
#[verifier::external_body]
fn parse_u64_list(text: &str) -> (r: Result<Vec<u64>, String>)
    ensures
        match r {
            Ok(v) => json_u64_list(text@) == Ok::<Seq<u64>, Seq<char>>(v@),
            Err(m) => json_u64_list(text@) == Err::<Seq<u64>, Seq<char>>(m@),
        },
{
    match serde_json::from_str::<Vec<u64>>(text) {
        Ok(v) => Ok(v),
        Err(e) => Err(e.to_string()),
    }
}

/// The decimals of `v` separated by a comma, a line break and two spaces.
pub open spec fn indented_items(v: Seq<u64>) -> Seq<char>
    decreases v.len(),
{
    if v.len() == 0 {
        Seq::empty()
    } else if v.len() == 1 {
        decimal(v[0] as nat)
    } else {
        indented_items(v.drop_last()) + ",\n  "@ + decimal(v.last() as nat)
    }
}

/// A list of unsigned integers as pretty-printed JSON: `[]` when it is empty, else each
/// number on a line of its own, indented by two spaces, between `[` and `]` on lines of
/// their own.
pub open spec fn pretty_u64_list(v: Seq<u64>) -> Seq<char> {
    if v.len() == 0 {
        "[]"@
    } else {
        "[\n  "@ + indented_items(v) + "\n]"@
    }
}

/// Writes a list of unsigned integers with `serde_json::to_string_pretty`, which
/// formats each number in decimal with its pretty formatter (two-space indent) and
/// cannot fail on such a list: the text is `pretty_u64_list`.
#[verifier::external_body]
fn u64_list_to_json(v: &Vec<u64>) -> (r: Result<String, String>)
    ensures
        r is Ok,
        r->Ok_0@ == pretty_u64_list(v@),
{
    match serde_json::to_string_pretty(v) {
        Ok(t) => Ok(t),
        Err(e) => Err(e.to_string()),
    }
}

/// `name` placed in directory `dir` as `Path::join` does with `/` as separator: an
/// absolute name stands alone, an empty directory adds nothing, and a separator is
/// added unless the directory already ends with one.
pub open spec fn path_join(dir: Seq<char>, name: Seq<char>) -> Seq<char> {
    if name.len() > 0 && name[0] == '/' {
        name
    } else if dir.len() == 0 {
        name
    } else if dir.last() == '/' {
        dir + name
    } else {
        dir + seq!['/'] + name
    }
}

/// `dir` joined with `name` as `path_join` describes.
pub fn join_path(dir: &str, name: &str) -> (r: String)
    ensures
        r@ == path_join(dir@, name@),
{
    let n = crate::json::chars_of(name);
    let d = crate::json::chars_of(dir);
    if n.len() > 0 && n[0] == '/' {
        String::from_str(name)
    } else if d.len() == 0 {
        String::from_str(name)
    } else if d[d.len() - 1] == '/' {
        join2(dir, name)
    } else {
        proof {
            reveal_strlit("/");
            assert("/"@ =~= seq!['/']);
        }
        join3(dir, "/", name)
    }
}

/// `s` in ascending order.
pub open spec fn ascending(s: Seq<u64>) -> bool {
    forall|i: int, j: int| 0 <= i <= j < s.len() ==> s[i] <= s[j]
}

/// `v` sorted in ascending order.
pub fn sort_ascending(v: Vec<u64>) -> (r: Vec<u64>)
    ensures
        ascending(r@),
        r@.to_multiset() == v@.to_multiset(),
{
    broadcast use vstd::seq_lib::group_to_multiset_ensures;
    let ghost all = v@;
    let mut rest = v;
    let mut out: Vec<u64> = Vec::new();
    let n = rest.len();
    let mut i: usize = 0;
    proof {
        assert(all.take(0) =~= Seq::<u64>::empty());
        assert(rest@ =~= all.skip(0));
    }
    while rest.len() > 0
        invariant
            rest@.len() + i == n,
            n == all.len(),
            rest@ == all.skip(i as int),
            ascending(out@),
            out@.to_multiset() == all.take(i as int).to_multiset(),
        decreases rest.len(),
    {
        let ghost rv = rest@;
        let x = rest.remove(0);
        proof {
            assert(x == all[i as int]);
            assert(rest@ =~= all.skip(i + 1));
            assert(all.take(i + 1) =~= all.take(i as int).push(x));
        }
        let mut p: usize = out.len();
        while p > 0 && out[p - 1] > x
            invariant
                0 <= p <= out@.len(),
                forall|j: int| p <= j < out@.len() ==> out@[j] > x,
            decreases p,
        {
            p = p - 1;
        }
        let ghost before = out@;
        out.insert(p, x);
        proof {
            assert forall|a: int, b: int| 0 <= a <= b < out@.len() implies out@[a] <= out@[b] by {
                if a < p && b > p {
                    assert(out@[a] == before[a] && out@[b] == before[b - 1]);
                } else if a < p && b == p {
                    assert(out@[a] == before[a]);
                    if p > 0 {
                        assert(before[a] <= before[p - 1]);
                    }
                } else if a == p && b > p {
                    assert(out@[b] == before[b - 1]);
                } else if a > p {
                    assert(out@[a] == before[a - 1] && out@[b] == before[b - 1]);
                } else if a < p && b < p {
                    assert(out@[a] == before[a] && out@[b] == before[b]);
                }
            };
            crate::rendering::lemma_insert_multiset(before, p as int, x);
            assert(out@ == before.insert(p as int, x));
            vstd::seq_lib::to_multiset_build(all.take(i as int), x);
        }
        i = i + 1;
    }
    proof {
        assert(all.take(n as int) =~= all);
    }
    out
}

/// The index after saving version `v`: added and sorted when absent, then cut to the
/// newest `max`; also the versions cut.
pub open spec fn index_after_save(index: Seq<u64>, v: u64, max: nat) -> (Seq<u64>, Seq<u64>) {
    let sorted = if index.contains(v) { index } else { sorted_index(index.push(v)) };
    if sorted.len() > max {
        (sorted.skip(sorted.len() - max), sorted.take(sorted.len() - max))
    } else {
        (sorted, Seq::empty())
    }
}

/// The ascending arrangement of `s`.
pub open spec fn sorted_index(s: Seq<u64>) -> Seq<u64> {
    choose|t: Seq<u64>| ascending(t) && t.to_multiset() == s.to_multiset()
}

/// What saving a snapshot does to the index: its new text and the versions dropped from it.
#[derive(Debug)]
pub struct IndexUpdate {
    pub index_text: String,
    pub removed: Vec<u64>,
}

/// Snapshots kept as files in a directory, with an index file per component.
pub struct FileStatePersistence {
    storage_dir: String,
    max_snapshots_per_component: usize,
}

impl FileStatePersistence {
    /// The directory the files go in.
    pub closed spec fn dir(&self) -> Seq<char> {
        self.storage_dir@
    }

    /// Most snapshots kept per component.
    pub closed spec fn limit(&self) -> nat {
        self.max_snapshots_per_component as nat
    }

    /// A store in directory `storage_dir` keeping up to `max_snapshots_per_component`
    /// snapshots per component; the directory itself is made by the caller.
    pub fn new(storage_dir: String, max_snapshots_per_component: usize) -> (r: Self)
        ensures
            r.dir() == storage_dir@,
            r.limit() == max_snapshots_per_component,
    {
        FileStatePersistence { storage_dir, max_snapshots_per_component }
    }

    /// The file of version `version` of `component_id`: `<id>_<version>.json` in the directory.
    pub fn get_snapshot_path(&self, component_id: &ComponentId, version: u64) -> (r: String)
        ensures
            r@ == path_join(self.dir(), component_id.0@ + "_"@ + decimal(version as nat) + ".json"@),
    {
        let v = decimal_string(version);
        let head = join3(component_id.0.as_str(), "_", v.as_str());
        let name = join2(head.as_str(), ".json");
        join_path(self.storage_dir.as_str(), name.as_str())
    }

    /// The index file of `component_id`: `<id>_index.json` in the directory.
    pub fn get_index_path(&self, component_id: &ComponentId) -> (r: String)
        ensures
            r@ == path_join(self.dir(), component_id.0@ + "_index.json"@),
    {
        let name = join2(component_id.0.as_str(), "_index.json");
        join_path(self.storage_dir.as_str(), name.as_str())
    }

    /// The versions listed in an index file's text.
    pub fn read_index(&self, text: &str) -> (r: Result<Vec<u64>, ComponentError>)
        ensures
            match json_u64_list(text@) {
                Ok(v) => r matches Ok(x) && x@ == v,
                Err(m) => r matches Err(e) && e matches ComponentError::ResourceError(t) && t@ == "解析索引文件失败: "@ + m,
            },
    {
        match parse_u64_list(text) {
            Ok(v) => Ok(v),
            Err(m) => Err(ComponentError::ResourceError(join2("解析索引文件失败: ", m.as_str()))),
        }
    }

    /// The text of an index file listing `index`: pretty-printed JSON.
    pub fn write_index(&self, index: &Vec<u64>) -> (r: Result<String, ComponentError>)
        ensures
            r matches Ok(t) && t@ == pretty_u64_list(index@),
    {
        match u64_list_to_json(index) {
            Ok(t) => Ok(t),
            Err(m) => Err(ComponentError::ResourceError(join2("序列化索引失败: ", m.as_str()))),
        }
    }

    /// The index after saving version `version` to the versions `index`: the version is
    /// added if it is missing and the list sorted, and the oldest versions beyond the
    /// limit are cut; also the versions cut, oldest first.
    pub fn index_after_saving(&self, index: Vec<u64>, version: u64) -> (r: (Vec<u64>, Vec<u64>))
        ensures
            (r.0@, r.1@) == index_after_save(index@, version, self.limit()),
    {
        let mut index = index;
        if !contains_u64(&index, version) {
            index.push(version);
            let ghost pushed = index@;
            index = sort_ascending(index);
            proof {
                lemma_sorted_unique(index@, pushed);
            }
        }
        let ghost sorted = index@;
        let mut removed: Vec<u64> = Vec::new();
        if index.len() > self.max_snapshots_per_component {
            let excess = index.len() - self.max_snapshots_per_component;
            let kept = index.split_off(excess);
            removed = index;
            index = kept;
        }
        proof {
            if sorted.len() <= self.max_snapshots_per_component {
                assert(removed@ =~= Seq::<u64>::empty());
            }
        }
        (index, removed)
    }

    /// What saving version `version` does to the index held in `index_text` (none when
    /// the component has no index file yet): the version is added if it is missing and
    /// the list sorted, the oldest versions beyond the limit are dropped, and the new
    /// text comes back with the dropped versions, whose files are to be removed.
    pub fn update_index(&self, index_text: Option<&str>, version: u64) -> (r: Result<IndexUpdate, ComponentError>)
        ensures
            ({
                let read = match index_text {
                    Some(t) => json_u64_list(t@),
                    None => Ok::<Seq<u64>, Seq<char>>(Seq::empty()),
                };
                match read {
                    Err(m) => r matches Err(e) && e matches ComponentError::ResourceError(t) && t@ == "解析索引文件失败: "@ + m,
                    Ok(index) => {
                        let (kept, dropped) = index_after_save(index, version, self.limit());
                        r matches Ok(u) && u.index_text@ == pretty_u64_list(kept) && u.removed@ == dropped
                    },
                }
            }),
    {
        let index = match index_text {
            Some(t) => match self.read_index(t) {
                Ok(v) => v,
                Err(e) => {
                    return Err(e);
                },
            },
            None => Vec::new(),
        };
        let (kept, removed) = self.index_after_saving(index, version);
        match self.write_index(&kept) {
            Ok(t) => Ok(IndexUpdate { index_text: t, removed }),
            Err(e) => Err(e),
        }
    }

    /// The version to load from the versions `index`: `version` when it is listed, the
    /// last listed when none is asked for; none otherwise.
    pub fn version_to_load(&self, index: &Vec<u64>, version: Option<u64>) -> (r: Option<u64>)
        ensures
            r == (match version {
                Some(v) => if index@.contains(v) { Some(v) } else { None },
                None => if index@.len() > 0 { Some(index@.last()) } else { None },
            }),
    {
        match version {
            Some(v) => {
                if contains_u64(index, v) { Some(v) } else { None }
            },
            None => {
                if index.len() > 0 { Some(index[index.len() - 1]) } else { None }
            },
        }
    }

    /// The version to load from the index held in `index_text`: `version` when it is
    /// listed, the last listed when none is asked for; none otherwise.
    pub fn select_version(&self, index_text: &str, version: Option<u64>) -> (r: Result<Option<u64>, ComponentError>)
        ensures
            match json_u64_list(index_text@) {
                Err(m) => r matches Err(e) && e matches ComponentError::ResourceError(t) && t@ == "解析索引文件失败: "@ + m,
                Ok(index) => r == Ok::<Option<u64>, ComponentError>(match version {
                    Some(v) => if index.contains(v) { Some(v) } else { None },
                    None => if index.len() > 0 { Some(index.last()) } else { None },
                }),
            },
    {
        let index = match self.read_index(index_text) {
            Ok(v) => v,
            Err(e) => {
                return Err(e);
            },
        };
        Ok(self.version_to_load(&index, version))
    }

    /// The versions `index` once version `version` is deleted.
    pub fn index_after_deleting(&self, index: &Vec<u64>, version: u64) -> (r: Vec<u64>)
        ensures
            r@ == index@.filter(|x: u64| x != version),
    {
        without_u64(index, version)
    }

    /// The new text of the index held in `index_text` once version `version` is deleted.
    pub fn remove_from_index(&self, index_text: &str, version: u64) -> (r: Result<String, ComponentError>)
        ensures
            match json_u64_list(index_text@) {
                Err(m) => r matches Err(e) && e matches ComponentError::ResourceError(t) && t@ == "解析索引文件失败: "@ + m,
                Ok(index) => r matches Ok(x) && x@ == pretty_u64_list(index.filter(|x: u64| x != version)),
            },
    {
        let index = match self.read_index(index_text) {
            Ok(v) => v,
            Err(e) => {
                return Err(e);
            },
        };
        let kept = self.index_after_deleting(&index, version);
        self.write_index(&kept)
    }

    /// The versions among `snapshots` taken before `cutoff`, in order: those a cleanup deletes.
    pub fn expired_versions(&self, snapshots: &Vec<ComponentStateSnapshot>, cutoff: u64) -> (r: Vec<u64>)
        ensures
            r@ == snap_views(snapshots@).filter(|x: SnapView| x.2 < cutoff).map_values(|x: SnapView| x.3),
    {
        let ghost all = snap_views(snapshots@);
        let ghost pred = |x: SnapView| x.2 < cutoff;
        let ghost f = |x: SnapView| x.3;
        let mut out: Vec<u64> = Vec::new();
        let mut i: usize = 0;
        proof {
            reveal(Seq::filter);
            assert(all.take(0) =~= Seq::<SnapView>::empty());
            assert(out@ =~= all.take(0).filter(pred).map_values(f));
        }
        while i < snapshots.len()
            invariant
                0 <= i <= snapshots@.len(),
                all == snap_views(snapshots@),
                pred == (|x: SnapView| x.2 < cutoff),
                f == (|x: SnapView| x.3),
                out@ == all.take(i as int).filter(pred).map_values(f),
            decreases snapshots.len() - i,
        {
            proof {
                reveal(Seq::filter);
                assert(all.take(i + 1).drop_last() =~= all.take(i as int));
                assert(all.take(i + 1).last() == snap_view(snapshots@[i as int]));
            }
            let ghost before = out@;
            if snapshots[i].timestamp < cutoff {
                out.push(snapshots[i].version);
                proof {
                    assert(out@ =~= all.take(i + 1).filter(pred).map_values(f));
                }
            } else {
                proof {
                    assert(out@ =~= all.take(i + 1).filter(pred).map_values(f));
                }
            }
            i = i + 1;
        }
        proof {
            assert(all.take(snapshots@.len() as int) =~= all);
        }
        out
    }
}

/// Whether `x` occurs in `v`.
fn contains_u64(v: &Vec<u64>, x: u64) -> (r: bool)
    ensures
        r == v@.contains(x),
{
    let mut i: usize = 0;
    while i < v.len()
        invariant
            0 <= i <= v@.len(),
            forall|j: int| 0 <= j < i ==> v@[j] != x,
        decreases v.len() - i,
    {
        if v[i] == x {
            proof {
                assert(v@[i as int] == x);
            }
            return true;
        }
        i = i + 1;
    }
    false
}

/// `v` without the occurrences of `x`.
fn without_u64(v: &Vec<u64>, x: u64) -> (r: Vec<u64>)
    ensures
        r@ == v@.filter(|y: u64| y != x),
{
    let ghost pred = |y: u64| y != x;
    let mut out: Vec<u64> = Vec::new();
    let mut i: usize = 0;
    proof {
        reveal(Seq::filter);
        assert(v@.take(0) =~= Seq::<u64>::empty());
    }
    while i < v.len()
        invariant
            0 <= i <= v@.len(),
            pred == (|y: u64| y != x),
            out@ == v@.take(i as int).filter(pred),
        decreases v.len() - i,
    {
        proof {
            reveal(Seq::filter);
            assert(v@.take(i + 1).drop_last() =~= v@.take(i as int));
        }
        if v[i] != x {
            out.push(v[i]);
        }
        i = i + 1;
    }
    proof {
        assert(v@.take(v@.len() as int) =~= v@);
    }
    out
}

/// There is one ascending arrangement of a list of numbers.
proof fn lemma_sorted_unique(a: Seq<u64>, s: Seq<u64>)
    requires
        ascending(a),
        a.to_multiset() == s.to_multiset(),
    ensures
        a == sorted_index(s),
{
    let b = sorted_index(s);
    assert(ascending(b) && b.to_multiset() == s.to_multiset());
    lemma_ascending_eq(a, b);
}

proof fn lemma_ascending_eq(a: Seq<u64>, b: Seq<u64>)
    requires
        ascending(a),
        ascending(b),
        a.to_multiset() == b.to_multiset(),
    ensures
        a == b,
    decreases a.len(),
{
    broadcast use vstd::seq_lib::group_to_multiset_ensures;
    assert(a.len() == b.len()) by {
        assert(a.to_multiset().len() == a.len());
        assert(b.to_multiset().len() == b.len());
    };
    if a.len() > 0 {
        let x = a.last();
        let y = b.last();
        assert(a.to_multiset().contains(x));
        assert(b.to_multiset().contains(x));
        let j = choose|j: int| 0 <= j < b.len() && b[j] == x;
        assert(b[j] <= y);
        assert(a.to_multiset().contains(y));
        let i = choose|i: int| 0 <= i < a.len() && a[i] == y;
        assert(a[i] <= x);
        assert(x == y);
        assert(a =~= a.drop_last().push(x));
        assert(b =~= b.drop_last().push(y));
        assert(a.drop_last().to_multiset() =~= a.to_multiset().remove(x));
        assert(b.drop_last().to_multiset() =~= b.to_multiset().remove(y));
        lemma_ascending_eq(a.drop_last(), b.drop_last());
    } else {
        assert(a =~= b);
    }
}

} // verus!
