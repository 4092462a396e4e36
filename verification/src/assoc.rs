use vstd::prelude::*;
use crate::component::ComponentId;

verus! {

/// Entries keyed by a component identifier's text, each key at most once.
pub open spec fn keys_unique<V>(s: Seq<(ComponentId, V)>) -> bool {
    forall|i: int, j: int| 0 <= i < j < s.len() ==> #[trigger] s[i].0.0@ != #[trigger] s[j].0.0@
}

/// The map that the entries of `s` describe; a later entry wins over an earlier one.
pub open spec fn assoc_map<V>(s: Seq<(ComponentId, V)>) -> Map<Seq<char>, V>
    decreases s.len(),
{
    if s.len() == 0 {
        Map::empty()
    } else {
        assoc_map(s.drop_last()).insert(s.last().0.0@, s.last().1)
    }
}

pub proof fn lemma_assoc_dom<V>(s: Seq<(ComponentId, V)>, k: Seq<char>)
    ensures
        assoc_map(s).dom().contains(k) <==> exists|i: int| 0 <= i < s.len() && #[trigger] s[i].0.0@ == k,
    decreases s.len(),
{
    if s.len() > 0 {
        lemma_assoc_dom(s.drop_last(), k);
        if assoc_map(s).dom().contains(k) && s.last().0.0@ != k {
            let i = choose|i: int| 0 <= i < s.drop_last().len() && #[trigger] s.drop_last()[i].0.0@ == k;
            assert(s[i].0.0@ == k);
        }
        if exists|i: int| 0 <= i < s.len() && #[trigger] s[i].0.0@ == k {
            let i = choose|i: int| 0 <= i < s.len() && #[trigger] s[i].0.0@ == k;
            if i < s.len() - 1 {
                assert(s.drop_last()[i].0.0@ == k);
            }
        }
    }
}

pub proof fn lemma_assoc_get<V>(s: Seq<(ComponentId, V)>, i: int)
    requires
        keys_unique(s),
        0 <= i < s.len(),
    ensures
        assoc_map(s).dom().contains(s[i].0.0@),
        assoc_map(s)[s[i].0.0@] == s[i].1,
    decreases s.len(),
{
    if i < s.len() - 1 {
        assert(keys_unique(s.drop_last()));
        lemma_assoc_get(s.drop_last(), i);
        assert(s.drop_last()[i] == s[i]);
    }
}

pub proof fn lemma_assoc_absent<V>(s: Seq<(ComponentId, V)>, k: Seq<char>)
    requires
        forall|i: int| 0 <= i < s.len() ==> #[trigger] s[i].0.0@ != k,
    ensures
        !assoc_map(s).dom().contains(k),
{
    lemma_assoc_dom(s, k);
}

pub proof fn lemma_assoc_update<V>(s: Seq<(ComponentId, V)>, i: int, e: (ComponentId, V))
    requires
        keys_unique(s),
        0 <= i < s.len(),
        e.0.0@ == s[i].0.0@,
    ensures
        keys_unique(s.update(i, e)),
        assoc_map(s.update(i, e)) == assoc_map(s).insert(e.0.0@, e.1),
{
    let t = s.update(i, e);
    assert(keys_unique(t)) by {
        assert forall|a: int, b: int| 0 <= a < b < t.len() implies #[trigger] t[a].0.0@ != #[trigger] t[b].0.0@ by {
            assert(t[a].0.0@ == s[a].0.0@ && t[b].0.0@ == s[b].0.0@);
        };
    };
    assert forall|k: Seq<char>| #[trigger] assoc_map(t).dom().contains(k) <==> assoc_map(s).insert(e.0.0@, e.1).dom().contains(k) by {
        lemma_assoc_dom(t, k);
        lemma_assoc_dom(s, k);
        if exists|j: int| 0 <= j < s.len() && #[trigger] s[j].0.0@ == k {
            let j = choose|j: int| 0 <= j < s.len() && #[trigger] s[j].0.0@ == k;
            assert(t[j].0.0@ == k);
        }
        if exists|j: int| 0 <= j < t.len() && #[trigger] t[j].0.0@ == k {
            let j = choose|j: int| 0 <= j < t.len() && #[trigger] t[j].0.0@ == k;
            assert(s[j].0.0@ == k);
        }
    };
    assert forall|k: Seq<char>| #[trigger] assoc_map(t).dom().contains(k) implies assoc_map(t)[k] == assoc_map(s).insert(e.0.0@, e.1)[k] by {
        lemma_assoc_dom(t, k);
        let j = choose|j: int| 0 <= j < t.len() && #[trigger] t[j].0.0@ == k;
        lemma_assoc_get(t, j);
        assert(s[j].0.0@ == k);
        if j != i {
            lemma_assoc_get(s, j);
        }
    };
    assert(assoc_map(t) =~= assoc_map(s).insert(e.0.0@, e.1));
}

pub proof fn lemma_assoc_push<V>(s: Seq<(ComponentId, V)>, e: (ComponentId, V))
    requires
        keys_unique(s),
        !assoc_map(s).dom().contains(e.0.0@),
    ensures
        keys_unique(s.push(e)),
        assoc_map(s.push(e)) == assoc_map(s).insert(e.0.0@, e.1),
{
    assert(s.push(e).drop_last() =~= s);
    assert forall|i: int| 0 <= i < s.len() implies #[trigger] s[i].0.0@ != e.0.0@ by {
        lemma_assoc_get(s, i);
    };
    let t = s.push(e);
    assert forall|i: int, j: int| 0 <= i < j < t.len() implies #[trigger] t[i].0.0@ != #[trigger] t[j].0.0@ by {
        if j == s.len() {
            assert(t[i] == s[i]);
        } else {
            assert(t[i] == s[i] && t[j] == s[j]);
        }
    };
}

pub proof fn lemma_assoc_remove<V>(s: Seq<(ComponentId, V)>, i: int)
    requires
        keys_unique(s),
        0 <= i < s.len(),
    ensures
        keys_unique(s.remove(i)),
        assoc_map(s.remove(i)) == assoc_map(s).remove(s[i].0.0@),
{
    let t = s.remove(i);
    let k0 = s[i].0.0@;
    assert forall|a: int, b: int| 0 <= a < b < t.len() implies #[trigger] t[a].0.0@ != #[trigger] t[b].0.0@ by {
        let a2 = if a < i { a } else { a + 1 };
        let b2 = if b < i { b } else { b + 1 };
        assert(t[a] == s[a2] && t[b] == s[b2]);
    };
    assert forall|k: Seq<char>| #[trigger] assoc_map(t).dom().contains(k) <==> assoc_map(s).remove(k0).dom().contains(k) by {
        lemma_assoc_dom(t, k);
        lemma_assoc_dom(s, k);
        if exists|j: int| 0 <= j < t.len() && #[trigger] t[j].0.0@ == k {
            let j = choose|j: int| 0 <= j < t.len() && #[trigger] t[j].0.0@ == k;
            let j2 = if j < i { j } else { j + 1 };
            assert(s[j2].0.0@ == k);
        }
        if exists|j: int| 0 <= j < s.len() && #[trigger] s[j].0.0@ == k {
            let j = choose|j: int| 0 <= j < s.len() && #[trigger] s[j].0.0@ == k;
            if k != k0 {
                let j3 = if j < i { j } else { j - 1 };
                assert(t[j3].0.0@ == k);
            }
        }
    };
    assert forall|k: Seq<char>| #[trigger] assoc_map(t).dom().contains(k) implies assoc_map(t)[k] == assoc_map(s)[k] by {
        lemma_assoc_dom(t, k);
        let j = choose|j: int| 0 <= j < t.len() && #[trigger] t[j].0.0@ == k;
        lemma_assoc_get(t, j);
        let j2 = if j < i { j } else { j + 1 };
        assert(t[j] == s[j2]);
        lemma_assoc_get(s, j2);
    };
    assert(assoc_map(t) =~= assoc_map(s).remove(k0));
}

/// Two entry lists with the same keys and values, position by position, describe the same map.
pub proof fn lemma_same_keys<V>(a: Seq<(ComponentId, V)>, b: Seq<(ComponentId, V)>)
    requires
        a.len() == b.len(),
        forall|j: int| 0 <= j < a.len() ==> #[trigger] a[j].0.0@ == b[j].0.0@ && a[j].1 == b[j].1,
    ensures
        assoc_map(a) == assoc_map(b),
        keys_unique(b) ==> keys_unique(a),
    decreases a.len(),
{
    if a.len() > 0 {
        lemma_same_keys(a.drop_last(), b.drop_last());
        assert(a.last().0.0@ == b.last().0.0@);
    }
    if keys_unique(b) {
        assert forall|i: int, j: int| 0 <= i < j < a.len() implies #[trigger] a[i].0.0@ != #[trigger] a[j].0.0@ by {
            assert(b[i].0.0@ != b[j].0.0@);
        };
    }
}

/// With distinct keys, the map has as many entries as the list.
pub proof fn lemma_assoc_len<V>(s: Seq<(ComponentId, V)>)
    requires
        keys_unique(s),
    ensures
        assoc_map(s).dom().finite(),
        assoc_map(s).len() == s.len(),
    decreases s.len(),
{
    if s.len() > 0 {
        let init = s.drop_last();
        assert(keys_unique(init)) by {
            assert forall|i: int, j: int| 0 <= i < j < init.len() implies #[trigger] init[i].0.0@ != #[trigger] init[j].0.0@ by {
                assert(init[i] == s[i] && init[j] == s[j]);
            };
        };
        lemma_assoc_len(init);
        assert forall|i: int| 0 <= i < init.len() implies #[trigger] init[i].0.0@ != s.last().0.0@ by {
            assert(init[i] == s[i]);
        };
        lemma_assoc_absent(init, s.last().0.0@);
    }
}

/// Position of the entry whose key is `k`.
pub fn assoc_find<V>(s: &Vec<(ComponentId, V)>, k: &ComponentId) -> (r: Option<usize>)
    requires
        keys_unique(s@),
    ensures
        match r {
            Some(i) => i < s@.len() && s@[i as int].0.0@ == k.0@,
            None => !assoc_map(s@).dom().contains(k.0@),
        },
{
    let mut i: usize = 0;
    while i < s.len()
        invariant
            0 <= i <= s@.len(),
            forall|j: int| 0 <= j < i ==> #[trigger] s@[j].0.0@ != k.0@,
        decreases s.len() - i,
    {
        if s[i].0.0 == k.0 {
            return Some(i);
        }
        i = i + 1;
    }
    proof {
        lemma_assoc_absent(s@, k.0@);
    }
    None
}

} // verus!
