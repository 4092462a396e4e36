use vstd::prelude::*;
use std::collections::BTreeMap;
use crate::clock::now_millis;
use crate::json::{JsonValue, Json, model, models, obj_get, obj_find, lemma_entry_models, lemma_models};


verus! {

broadcast use vstd::std_specs::btree::group_btree_axioms, vstd::laws_cmp::group_laws_cmp;

/// One level of the aggregated book, at a whole-unit price. A side without volume
/// holds `None`; its volume otherwise, which is always positive.
#[derive(Debug, Clone, Copy)]
pub struct AggregatedPriceLevel<V> {
    pub price: i64,
    pub bid_volume: Option<V>,
    pub ask_volume: Option<V>,
    /// When the level last changed, in milliseconds since the Unix epoch.
    pub last_update: u64,
    pub bid_count: u32,
    pub ask_count: u32,
}

/// A level at `price` with nothing on either side.
pub open spec fn empty_level<V>(price: i64) -> AggregatedPriceLevel<V> {
    AggregatedPriceLevel { price, bid_volume: None, ask_volume: None, last_update: 0, bid_count: 0, ask_count: 0 }
}

/// `l` with its bid side set to `volume` at time `ts`.
pub open spec fn with_bid<V>(l: AggregatedPriceLevel<V>, volume: Option<V>, ts: u64) -> AggregatedPriceLevel<V> {
    AggregatedPriceLevel { bid_volume: volume, bid_count: if volume is Some { 1u32 } else { 0u32 }, last_update: ts, ..l }
}

/// `l` with its ask side set to `volume` at time `ts`.
pub open spec fn with_ask<V>(l: AggregatedPriceLevel<V>, volume: Option<V>, ts: u64) -> AggregatedPriceLevel<V> {
    AggregatedPriceLevel { ask_volume: volume, ask_count: if volume is Some { 1u32 } else { 0u32 }, last_update: ts, ..l }
}

/// Neither side of `l` has volume.
pub open spec fn level_empty<V>(l: AggregatedPriceLevel<V>) -> bool {
    l.bid_volume is None && l.ask_volume is None
}

impl<V: Copy> AggregatedPriceLevel<V> {
    /// An empty level at `price`.
    pub fn new(price: i64) -> (r: Self)
        ensures
            r == empty_level::<V>(price),
    {
        AggregatedPriceLevel { price, bid_volume: None, ask_volume: None, last_update: 0, bid_count: 0, ask_count: 0 }
    }

    /// Sets the bid side: one order with `volume`, or none when there is no volume.
    pub fn update_bid(&mut self, volume: Option<V>, timestamp: u64)
        ensures
            *final(self) == with_bid(*old(self), volume, timestamp),
    {
        self.bid_count = if volume.is_some() { 1 } else { 0 };
        self.bid_volume = volume;
        self.last_update = timestamp;
    }

    /// Sets the ask side: one order with `volume`, or none when there is no volume.
    pub fn update_ask(&mut self, volume: Option<V>, timestamp: u64)
        ensures
            *final(self) == with_ask(*old(self), volume, timestamp),
    {
        self.ask_count = if volume.is_some() { 1 } else { 0 };
        self.ask_volume = volume;
        self.last_update = timestamp;
    }

    /// Whether neither side has volume.
    pub fn is_empty(&self) -> (r: bool)
        ensures
            r == level_empty(*self),
    {
        self.bid_volume.is_none() && self.ask_volume.is_none()
    }
}

/// The levels after one side of the level at `price` is set: the level is made
/// when missing and dropped when it ends up empty.
pub open spec fn set_side<V>(m: Map<i64, AggregatedPriceLevel<V>>, price: i64, volume: Option<V>, ts: u64, bid: bool) -> Map<i64, AggregatedPriceLevel<V>> {
    let base = if m.contains_key(price) { m[price] } else { empty_level(price) };
    let changed = if bid { with_bid(base, volume, ts) } else { with_ask(base, volume, ts) };
    if level_empty(changed) { m.remove(price) } else { m.insert(price, changed) }
}

/// The levels after the updates `ups` of one side, in order.
pub open spec fn apply_side<V>(m: Map<i64, AggregatedPriceLevel<V>>, ups: Seq<(i64, Option<V>)>, ts: u64, bid: bool) -> Map<i64, AggregatedPriceLevel<V>>
    decreases ups.len(),
{
    if ups.len() == 0 {
        m
    } else {
        set_side(apply_side(m, ups.drop_last(), ts, bid), ups.last().0, ups.last().1, ts, bid)
    }
}

pub open spec fn has_bid<V>(m: Map<i64, AggregatedPriceLevel<V>>, k: i64) -> bool {
    m.contains_key(k) && m[k].bid_volume is Some
}

pub open spec fn has_ask<V>(m: Map<i64, AggregatedPriceLevel<V>>, k: i64) -> bool {
    m.contains_key(k) && m[k].ask_volume is Some
}

/// `r` is the highest price with bid volume, none when no level has any.
pub open spec fn is_best_bid<V>(m: Map<i64, AggregatedPriceLevel<V>>, r: Option<i64>) -> bool {
    match r {
        Some(k) => has_bid(m, k) && forall|j: i64| #[trigger] has_bid(m, j) ==> j <= k,
        None => forall|j: i64| !#[trigger] has_bid(m, j),
    }
}

/// `r` is the lowest price with ask volume, none when no level has any.
pub open spec fn is_best_ask<V>(m: Map<i64, AggregatedPriceLevel<V>>, r: Option<i64>) -> bool {
    match r {
        Some(k) => has_ask(m, k) && forall|j: i64| #[trigger] has_ask(m, j) ==> k <= j,
        None => forall|j: i64| !#[trigger] has_ask(m, j),
    }
}

/// `x / 2` rounded toward zero, as integer division does.
pub open spec fn half_toward_zero(x: int) -> int {
    if x >= 0 { x / 2 } else { -((-x) / 2) }
}

/// The level shown at `price`: the stored one, or an empty one.
pub open spec fn shown_level<V>(m: Map<i64, AggregatedPriceLevel<V>>, price: int) -> AggregatedPriceLevel<V> {
    if m.contains_key(price as i64) { m[price as i64] } else { empty_level(price as i64) }
}

/// A level seen `now` is still fresh when it changed at most `max_age` ago.
pub open spec fn fresh<V>(l: AggregatedPriceLevel<V>, max_age: u64, now: u64) -> bool {
    (if now >= l.last_update { now - l.last_update } else { 0 }) <= max_age
}

/// `after` keeps exactly the levels of `before` that are still fresh at time `now`.
pub open spec fn pruned<V>(before: Map<i64, AggregatedPriceLevel<V>>, after: Map<i64, AggregatedPriceLevel<V>>, max_age: u64, now: u64) -> bool {
    &&& forall|k: i64| #[trigger] after.contains_key(k) <==> before.contains_key(k) && fresh(before[k], max_age, now)
    &&& forall|k: i64| #[trigger] after.contains_key(k) ==> after[k] == before[k]
}

/// The price and volume texts of one depth entry: an array whose first two items
/// are strings; nothing otherwise.
pub open spec fn entry_texts(e: Json) -> Option<(Seq<char>, Seq<char>)> {
    match e {
        Json::Array(x) => if x.len() >= 2 {
            match x[0] {
                Json::Str(p) => match x[1] {
                    Json::Str(v) => Some((p, v)),
                    _ => None,
                },
                _ => None,
            }
        } else {
            None
        },
        _ => None,
    }
}

/// The texts of the entries of `a` that have them, in order.
pub open spec fn entries_texts(a: Seq<Json>) -> Seq<(Seq<char>, Seq<char>)>
    decreases a.len(),
{
    if a.len() == 0 {
        Seq::empty()
    } else {
        match entry_texts(a.last()) {
            Some(t) => entries_texts(a.drop_last()).push(t),
            None => entries_texts(a.drop_last()),
        }
    }
}

/// The entries listed under `key` of a depth message: the member `key` of the
/// message object must be an array; entries without two leading strings are skipped.
pub open spec fn depth_texts(data: Json, key: Seq<char>) -> Seq<(Seq<char>, Seq<char>)> {
    match data {
        Json::Object(m) => match obj_get(m, key) {
            Some(Json::Array(a)) => entries_texts(a),
            _ => Seq::empty(),
        },
        _ => Seq::empty(),
    }
}

/// The string under `key` of a message object, if it is one.
pub open spec fn field_text(data: Json, key: Seq<char>) -> Option<Seq<char>> {
    match data {
        Json::Object(m) => match obj_get(m, key) {
            Some(Json::Str(s)) => Some(s),
            _ => None,
        },
        _ => None,
    }
}

/// The texts of pairs of strings.
pub open spec fn text_pairs(s: Seq<(String, String)>) -> Seq<(Seq<char>, Seq<char>)> {
    s.map_values(|p: (String, String)| (p.0@, p.1@))
}

/// The member `key` of `data`, when `data` is an object that has one.
fn member<'a>(data: &'a JsonValue, key: &str) -> (r: Option<&'a JsonValue>)
    ensures
        match model(*data) {
            Json::Object(m) => match obj_get(m, key@) {
                Some(j) => r matches Some(x) && model(*x) == j,
                None => r is None,
            },
            _ => r is None,
        },
{
    match data {
        JsonValue::Object(m) => {
            let k = String::from_str(key);
            proof {
                lemma_entry_models(m@);
            }
            match obj_find(m, &k) {
                Some(i) => Some(&m[i].1),
                None => None,
            }
        },
        _ => None,
    }
}

/// The price and volume texts listed under `key` (`"b"` for bids, `"a"` for asks) of
/// a depth message, in order.
pub fn depth_entries(data: &JsonValue, key: &str) -> (r: Vec<(String, String)>)
    ensures
        text_pairs(r@) == depth_texts(model(*data), key@),
{
    let mut out: Vec<(String, String)> = Vec::new();
    match member(data, key) {
        Some(JsonValue::Array(items)) => {
            proof {
                lemma_models(items@);
            }
            let mut i: usize = 0;
            while i < items.len()
                invariant
                    0 <= i <= items@.len(),
                    models(items@).len() == items@.len(),
                    forall|j: int| 0 <= j < items@.len() ==> #[trigger] models(items@)[j] == model(items@[j]),
                    text_pairs(out@) == entries_texts(models(items@).take(i as int)),
                decreases items.len() - i,
            {
                proof {
                    assert(models(items@).take(i + 1).drop_last() =~= models(items@).take(i as int));
                    assert(models(items@).take(i + 1).last() == model(items@[i as int]));
                }
                match &items[i] {
                    JsonValue::Array(x) => {
                        proof {
                            lemma_models(x@);
                        }
                        if x.len() >= 2 {
                            match (&x[0], &x[1]) {
                                (JsonValue::Str(p), JsonValue::Str(v)) => {
                                    let ghost before = out@;
                                    out.push((p.clone(), v.clone()));
                                    proof {
                                        assert(text_pairs(out@) =~= text_pairs(before).push((p@, v@)));
                                    }
                                },
                                _ => {},
                            }
                        }
                    },
                    _ => {},
                }
                i = i + 1;
            }
            proof {
                assert(models(items@).take(items@.len() as int) =~= models(items@));
            }
        },
        _ => {
            proof {
                assert(text_pairs(out@) =~= Seq::<(Seq<char>, Seq<char>)>::empty());
            }
        },
    }
    out
}

/// The string under `key` of a message object, if it is one.
pub fn field_string(data: &JsonValue, key: &str) -> (r: Option<String>)
    ensures
        (match r {
            Some(s) => Some(s@),
            None => None::<Seq<char>>,
        }) == field_text(model(*data), key@),
{
    match member(data, key) {
        Some(JsonValue::Str(s)) => Some(s.clone()),
        _ => None,
    }
}

/// Depth of one symbol, aggregated by whole-unit price level, with its best prices.
pub struct AggregatedDepthManager<V> {
    price_levels: BTreeMap<i64, AggregatedPriceLevel<V>>,
    best_bid: Option<i64>,
    best_ask: Option<i64>,
    symbol: String,
    last_update: u64,
}

impl<V: Copy> AggregatedDepthManager<V> {
    /// The levels by price.
    pub closed spec fn levels(&self) -> Map<i64, AggregatedPriceLevel<V>> {
        self.price_levels@
    }

    /// The best bid price recorded.
    pub closed spec fn bid(&self) -> Option<i64> {
        self.best_bid
    }

    /// The best ask price recorded.
    pub closed spec fn ask(&self) -> Option<i64> {
        self.best_ask
    }

    /// The symbol.
    pub closed spec fn symbol_text(&self) -> Seq<char> {
        self.symbol@
    }

    /// When an update last changed the book.
    pub closed spec fn updated_at(&self) -> u64 {
        self.last_update
    }

    /// Every level sits at its own price and has volume on some side.
    pub open spec fn levels_ok(m: Map<i64, AggregatedPriceLevel<V>>) -> bool {
        forall|k: i64| #[trigger] m.contains_key(k) ==> m[k].price == k && !level_empty(m[k])
    }

    /// The levels are sound and the best prices match them.
    pub open spec fn wf(&self) -> bool {
        &&& Self::levels_ok(self.levels())
        &&& is_best_bid(self.levels(), self.bid())
        &&& is_best_ask(self.levels(), self.ask())
    }

    /// An empty book for `symbol`.
    pub fn new(symbol: String) -> (r: Self)
        ensures
            r.wf(),
            r.levels() == Map::<i64, AggregatedPriceLevel<V>>::empty(),
            r.bid() is None,
            r.ask() is None,
            r.symbol_text() == symbol@,
            r.updated_at() == 0,
    {
        AggregatedDepthManager { price_levels: BTreeMap::new(), best_bid: None, best_ask: None, symbol, last_update: 0 }
    }

    /// Sets one side of the level at `price`.
    fn update_level(&mut self, price: i64, volume: Option<V>, timestamp: u64, bid: bool)
        requires
            Self::levels_ok(old(self).levels()),
        ensures
            Self::levels_ok(final(self).levels()),
            final(self).levels() == set_side(old(self).levels(), price, volume, timestamp, bid),
            final(self).bid() == old(self).bid(),
            final(self).ask() == old(self).ask(),
            final(self).symbol_text() == old(self).symbol_text(),
            final(self).updated_at() == old(self).updated_at(),
    {
        let mut level = match self.price_levels.get(&price) {
            Some(l) => *l,
            None => AggregatedPriceLevel::new(price),
        };
        if bid {
            level.update_bid(volume, timestamp);
        } else {
            level.update_ask(volume, timestamp);
        }
        if level.is_empty() {
            let _ = self.price_levels.remove(&price);
        } else {
            let _ = self.price_levels.insert(price, level);
        }
        proof {
            assert(self.price_levels@ =~= set_side(old(self).levels(), price, volume, timestamp, bid));
        }
    }

    /// Applies the updates `ups` to one side, in order.
    fn update_side(&mut self, ups: &Vec<(i64, Option<V>)>, timestamp: u64, bid: bool)
        requires
            Self::levels_ok(old(self).levels()),
        ensures
            Self::levels_ok(final(self).levels()),
            final(self).levels() == apply_side(old(self).levels(), ups@, timestamp, bid),
            final(self).bid() == old(self).bid(),
            final(self).ask() == old(self).ask(),
            final(self).symbol_text() == old(self).symbol_text(),
            final(self).updated_at() == old(self).updated_at(),
    {
        let mut i: usize = 0;
        while i < ups.len()
            invariant
                0 <= i <= ups@.len(),
                Self::levels_ok(self.levels()),
                self.levels() == apply_side(old(self).levels(), ups@.take(i as int), timestamp, bid),
                self.bid() == old(self).bid(),
                self.ask() == old(self).ask(),
                self.symbol_text() == old(self).symbol_text(),
                self.updated_at() == old(self).updated_at(),
            decreases ups.len() - i,
        {
            proof {
                assert(ups@.take(i + 1).drop_last() =~= ups@.take(i as int));
            }
            let (price, volume) = ups[i];
            self.update_level(price, volume, timestamp, bid);
            i = i + 1;
        }
        proof {
            assert(ups@.take(ups@.len() as int) =~= ups@);
        }
    }

    /// Recomputes the best prices from the levels.
    fn update_best_prices(&mut self)
        requires
            Self::levels_ok(old(self).levels()),
        ensures
            final(self).wf(),
            final(self).levels() == old(self).levels(),
            final(self).symbol_text() == old(self).symbol_text(),
            final(self).updated_at() == old(self).updated_at(),
    {
        let mut best_bid: Option<i64> = None;
        let mut best_ask: Option<i64> = None;
        for (k, lv) in it: self.price_levels.iter()
            invariant
                forall|i: int| 0 <= i < it.seq().len() ==> self.price_levels@.contains_key(*it.seq()[i].0) && self.price_levels@[*it.seq()[i].0] == *it.seq()[i].1,
                forall|k: i64| #[trigger] self.price_levels@.contains_key(k) ==> it.seq().contains((&k, &self.price_levels@[k])),
                match best_bid {
                    Some(b) => has_bid(self.price_levels@, b) && forall|i: int| 0 <= i < it.index() && (*it.seq()[i].1).bid_volume is Some ==> *it.seq()[i].0 <= b,
                    None => forall|i: int| 0 <= i < it.index() ==> (*it.seq()[i].1).bid_volume is None,
                },
                match best_ask {
                    Some(a) => has_ask(self.price_levels@, a) && forall|i: int| 0 <= i < it.index() && (*it.seq()[i].1).ask_volume is Some ==> a <= *it.seq()[i].0,
                    None => forall|i: int| 0 <= i < it.index() ==> (*it.seq()[i].1).ask_volume is None,
                },
                it.index() == it.seq().len() ==> is_best_bid(self.price_levels@, best_bid) && is_best_ask(self.price_levels@, best_ask),
        {
            if lv.bid_volume.is_some() {
                match best_bid {
                    Some(b) => {
                        if *k > b {
                            best_bid = Some(*k);
                        }
                    },
                    None => {
                        best_bid = Some(*k);
                    },
                }
            }
            if lv.ask_volume.is_some() {
                match best_ask {
                    Some(a) => {
                        if *k < a {
                            best_ask = Some(*k);
                        }
                    },
                    None => {
                        best_ask = Some(*k);
                    },
                }
            }
        }
        self.best_bid = best_bid;
        self.best_ask = best_ask;
    }

    /// Applies a depth update whose entries were read: the bid updates in order, then
    /// the ask updates, each setting one side of one level; when there was any, the
    /// update time is noted and the best prices recomputed. Says whether there was any.
    pub fn apply_depth_update(&mut self, bids: &Vec<(i64, Option<V>)>, asks: &Vec<(i64, Option<V>)>, timestamp: u64) -> (r: bool)
        requires
            old(self).wf(),
        ensures
            final(self).wf(),
            r == (bids@.len() > 0 || asks@.len() > 0),
            final(self).levels() == apply_side(apply_side(old(self).levels(), bids@, timestamp, true), asks@, timestamp, false),
            final(self).updated_at() == (if r { timestamp } else { old(self).updated_at() }),
            final(self).symbol_text() == old(self).symbol_text(),
    {
        self.update_side(bids, timestamp, true);
        self.update_side(asks, timestamp, false);
        let updated = bids.len() > 0 || asks.len() > 0;
        if updated {
            self.last_update = timestamp;
            self.update_best_prices();
        } else {
            proof {
                assert(self.levels() =~= old(self).levels());
            }
        }
        updated
    }

    /// Applies a best-price update whose fields were read: the bid level, then the
    /// ask level, when each was given; as `apply_depth_update` otherwise.
    pub fn apply_book_ticker(&mut self, bid: Option<(i64, Option<V>)>, ask: Option<(i64, Option<V>)>, timestamp: u64) -> (r: bool)
        requires
            old(self).wf(),
        ensures
            final(self).wf(),
            r == (bid is Some || ask is Some),
            final(self).levels() == apply_side(
                apply_side(old(self).levels(), match bid { Some(b) => seq![b], None => Seq::empty() }, timestamp, true),
                match ask { Some(a) => seq![a], None => Seq::empty() }, timestamp, false),
            final(self).updated_at() == (if r { timestamp } else { old(self).updated_at() }),
            final(self).symbol_text() == old(self).symbol_text(),
    {
        let mut bids: Vec<(i64, Option<V>)> = Vec::new();
        match bid {
            Some(b) => bids.push(b),
            None => {},
        }
        let mut asks: Vec<(i64, Option<V>)> = Vec::new();
        match ask {
            Some(a) => asks.push(a),
            None => {},
        }
        proof {
            assert(bids@ =~= match bid { Some(b) => seq![b], None => Seq::<(i64, Option<V>)>::empty() });
            assert(asks@ =~= match ask { Some(a) => seq![a], None => Seq::<(i64, Option<V>)>::empty() });
        }
        self.apply_depth_update(&bids, &asks, timestamp)
    }

    /// The levels around the middle of the best prices (50000 and 50001 when missing),
    /// `max_levels / 2` on each side, highest first, empty levels where none is stored.
    pub fn get_visible_depth(&self, max_levels: usize) -> (r: Vec<AggregatedPriceLevel<V>>)
        requires
            ({
                let bb = match self.bid() { Some(b) => b as int, None => 50000int };
                let ba = match self.ask() { Some(a) => a as int, None => 50001int };
                let mid = half_toward_zero(bb + ba);
                &&& i64::MIN <= bb + ba <= i64::MAX
                &&& i64::MIN <= mid - (max_levels / 2) as int
                &&& mid + (max_levels / 2) as int <= i64::MAX
            }),
        ensures
            ({
                let bb = match self.bid() { Some(b) => b as int, None => 50000int };
                let ba = match self.ask() { Some(a) => a as int, None => 50001int };
                let top = half_toward_zero(bb + ba) + (max_levels / 2) as int;
                &&& r@.len() == 2 * ((max_levels / 2) as int) + 1
                &&& forall|i: int| 0 <= i < r@.len() ==> #[trigger] r@[i] == shown_level(self.levels(), top - i)
            }),
    {
        let best_bid = match self.best_bid { Some(b) => b, None => 50000 };
        let best_ask = match self.best_ask { Some(a) => a, None => 50001 };
        let sum = best_bid + best_ask;
        let mid: i64 = if sum >= 0 {
            sum / 2
        } else if sum == i64::MIN {
            i64::MIN / 2
        } else {
            -((-sum) / 2)
        };
        let half_levels = max_levels / 2;
        let half = half_levels as i64;
        let start_level = mid + half;
        let end_level = mid - half;
        let mut result: Vec<AggregatedPriceLevel<V>> = Vec::new();
        let mut level = start_level;
        loop
            invariant_except_break
                end_level <= level <= start_level,
                result@.len() == start_level - level,
            invariant
                forall|i: int| 0 <= i < result@.len() ==> #[trigger] result@[i] == shown_level(self.levels(), start_level - i),
            ensures
                result@.len() == start_level - end_level + 1,
            decreases level - end_level,
        {
            let shown = match self.price_levels.get(&level) {
                Some(l) => *l,
                None => AggregatedPriceLevel::new(level),
            };
            result.push(shown);
            if level == end_level {
                break;
            }
            level = level - 1;
        }
        result
    }

    /// The best bid level, none when no level has bid volume.
    pub fn best_bid_level(&self) -> (r: Option<i64>)
        ensures
            r == self.bid(),
    {
        self.best_bid
    }

    /// The best ask level, none when no level has ask volume.
    pub fn best_ask_level(&self) -> (r: Option<i64>)
        ensures
            r == self.ask(),
    {
        self.best_ask
    }

    /// Number of levels held.
    pub fn get_total_levels(&self) -> (r: usize)
        ensures
            r == self.levels().len(),
    {
        self.price_levels.len()
    }

    /// Drops the levels that changed more than `max_age_ms` before `now`, then
    /// recomputes the best prices.
    pub fn cleanup_expired_levels_at(&mut self, max_age_ms: u64, now: u64)
        requires
            old(self).wf(),
        ensures
            final(self).wf(),
            pruned(old(self).levels(), final(self).levels(), max_age_ms, now),
            final(self).symbol_text() == old(self).symbol_text(),
            final(self).updated_at() == old(self).updated_at(),
    {
        let mut stale: Vec<i64> = Vec::new();
        for (k, lv) in it: self.price_levels.iter()
            invariant
                forall|i: int| 0 <= i < it.seq().len() ==> self.price_levels@.contains_key(*it.seq()[i].0) && self.price_levels@[*it.seq()[i].0] == *it.seq()[i].1,
                forall|k: i64| #[trigger] self.price_levels@.contains_key(k) ==> it.seq().contains((&k, &self.price_levels@[k])),
                forall|j: int| 0 <= j < stale@.len() ==> self.price_levels@.contains_key(#[trigger] stale@[j])
                    && !fresh(self.price_levels@[stale@[j]], max_age_ms, now),
                forall|i: int| 0 <= i < it.index() && !fresh(*it.seq()[i].1, max_age_ms, now) ==> stale@.contains(*it.seq()[i].0),
                it.index() == it.seq().len() ==> forall|k: i64| #[trigger] self.price_levels@.contains_key(k)
                    && !fresh(self.price_levels@[k], max_age_ms, now) ==> stale@.contains(k),
        {
            let age = if now >= lv.last_update { now - lv.last_update } else { 0 };
            let ghost before = stale@;
            if age > max_age_ms {
                stale.push(*k);
                assert(stale@[stale@.len() - 1] == *k);
                assert forall|x: i64| #[trigger] before.contains(x) implies stale@.contains(x) by {
                    let j = choose|j: int| 0 <= j < before.len() && before[j] == x;
                    assert(stale@[j] == x);
                };
            }
        }
        let ghost m0 = self.price_levels@;
        let mut j: usize = 0;
        while j < stale.len()
            invariant
                0 <= j <= stale@.len(),
                Self::levels_ok(m0),
                Self::levels_ok(self.price_levels@),
                forall|i: int| 0 <= i < stale@.len() ==> m0.contains_key(#[trigger] stale@[i]) && !fresh(m0[stale@[i]], max_age_ms, now),
                forall|k: i64| #[trigger] m0.contains_key(k) && !fresh(m0[k], max_age_ms, now) ==> stale@.contains(k),
                forall|k: i64| #[trigger] self.price_levels@.contains_key(k) <==>
                    m0.contains_key(k) && !stale@.take(j as int).contains(k),
                forall|k: i64| #[trigger] self.price_levels@.contains_key(k) ==> self.price_levels@[k] == m0[k],
                m0 == old(self).levels(),
                self.symbol == old(self).symbol,
                self.last_update == old(self).last_update,
            decreases stale.len() - j,
        {
            let k = stale[j];
            let _ = self.price_levels.remove(&k);
            proof {
                assert forall|x: i64| #[trigger] stale@.take(j + 1).contains(x) <==> stale@.take(j as int).contains(x) || x == k by {
                    if stale@.take(j + 1).contains(x) {
                        let i = choose|i: int| 0 <= i < j + 1 && #[trigger] stale@.take(j + 1)[i] == x;
                        if i < j {
                            assert(stale@.take(j as int)[i] == x);
                        }
                    }
                    if stale@.take(j as int).contains(x) {
                        let i = choose|i: int| 0 <= i < j && #[trigger] stale@.take(j as int)[i] == x;
                        assert(stale@.take(j + 1)[i] == x);
                    }
                    if x == k {
                        assert(stale@.take(j + 1)[j as int] == x);
                    }
                };
            }
            j = j + 1;
        }
        proof {
            assert(stale@.take(stale@.len() as int) =~= stale@);
        }
        self.update_best_prices();
    }

    /// Drops the levels that changed more than `max_age_ms` ago by the system clock.
    pub fn cleanup_expired_levels(&mut self, max_age_ms: u64)
        requires
            old(self).wf(),
        ensures
            final(self).wf(),
            exists|now: u64| #[trigger] pruned(old(self).levels(), final(self).levels(), max_age_ms, now),
            final(self).symbol_text() == old(self).symbol_text(),
            final(self).updated_at() == old(self).updated_at(),
    {
        let now = now_millis();
        self.cleanup_expired_levels_at(max_age_ms, now);
    }

    /// When an update last changed the book.
    pub fn get_last_update(&self) -> (r: u64)
        ensures
            r == self.updated_at(),
    {
        self.last_update
    }

    /// The symbol.
    pub fn get_symbol(&self) -> (r: &str)
        ensures
            r@ == self.symbol_text(),
    {
        self.symbol.as_str()
    }
}

} // verus!
