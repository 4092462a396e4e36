use vstd::prelude::*;
use crate::text::{decimal, decimal_string, join3};

verus! {

broadcast use vstd::string::axiom_spec_iter;

/// A JSON document held as plain values. Numbers keep their textual form; an
/// object keeps its members in order, a key naming its first member.
#[derive(Debug)]
pub enum JsonValue {
    Null,
    Bool(bool),
    Number(String),
    Str(String),
    Array(Vec<JsonValue>),
    Object(Vec<(String, JsonValue)>),
}

/// Mathematical model of a JSON document.
pub enum Json {
    Null,
    Bool(bool),
    Number(Seq<char>),
    Str(Seq<char>),
    Array(Seq<Json>),
    Object(Seq<(Seq<char>, Json)>),
}

pub open spec fn model(v: JsonValue) -> Json
    decreases v, 0int,
{
    match v {
        JsonValue::Null => Json::Null,
        JsonValue::Bool(b) => Json::Bool(b),
        JsonValue::Number(n) => Json::Number(n@),
        JsonValue::Str(s) => Json::Str(s@),
        JsonValue::Array(a) => Json::Array(models(a@)),
        JsonValue::Object(m) => Json::Object(entry_models(m@)),
    }
}

pub open spec fn models(s: Seq<JsonValue>) -> Seq<Json>
    decreases s, 1int,
{
    if s.len() == 0 {
        Seq::empty()
    } else {
        models(s.drop_last()).push(model(s.last()))
    }
}

pub open spec fn entry_models(s: Seq<(String, JsonValue)>) -> Seq<(Seq<char>, Json)>
    decreases s, 1int,
{
    if s.len() == 0 {
        Seq::empty()
    } else {
        entry_models(s.drop_last()).push((s.last().0@, model(s.last().1)))
    }
}

pub proof fn lemma_models(s: Seq<JsonValue>)
    ensures
        models(s).len() == s.len(),
        forall|i: int| 0 <= i < s.len() ==> #[trigger] models(s)[i] == model(s[i]),
    decreases s.len(),
{
    if s.len() > 0 {
        lemma_models(s.drop_last());
        assert forall|i: int| 0 <= i < s.len() implies #[trigger] models(s)[i] == model(s[i]) by {
            if i < s.len() - 1 {
                assert(models(s.drop_last())[i] == model(s.drop_last()[i]));
            }
        };
    }
}

pub proof fn lemma_entry_models(s: Seq<(String, JsonValue)>)
    ensures
        entry_models(s).len() == s.len(),
        forall|i: int| 0 <= i < s.len() ==> #[trigger] entry_models(s)[i] == (s[i].0@, model(s[i].1)),
    decreases s.len(),
{
    if s.len() > 0 {
        lemma_entry_models(s.drop_last());
        assert forall|i: int| 0 <= i < s.len() implies #[trigger] entry_models(s)[i] == (s[i].0@, model(s[i].1)) by {
            if i < s.len() - 1 {
                assert(entry_models(s.drop_last())[i] == (s.drop_last()[i].0@, model(s.drop_last()[i].1)));
            }
        };
    }
}

/// Position of the first member of `m` with key `k`.
pub open spec fn obj_index(m: Seq<(Seq<char>, Json)>, k: Seq<char>) -> Option<int>
    decreases m.len(),
{
    if m.len() == 0 {
        None
    } else if m[0].0 == k {
        Some(0)
    } else {
        match obj_index(m.drop_first(), k) {
            Some(i) => Some(i + 1),
            None => None,
        }
    }
}

/// The value of the first member of `m` with key `k`.
pub open spec fn obj_get(m: Seq<(Seq<char>, Json)>, k: Seq<char>) -> Option<Json> {
    match obj_index(m, k) {
        Some(i) => Some(m[i].1),
        None => None,
    }
}

/// `m` with `k` set to `v`: the first member with key `k` is replaced in place,
/// or a new member is added at the end.
pub open spec fn obj_insert(m: Seq<(Seq<char>, Json)>, k: Seq<char>, v: Json) -> Seq<(Seq<char>, Json)> {
    match obj_index(m, k) {
        Some(i) => m.update(i, (k, v)),
        None => m.push((k, v)),
    }
}

pub proof fn lemma_obj_index(m: Seq<(Seq<char>, Json)>, k: Seq<char>)
    ensures
        match obj_index(m, k) {
            Some(i) => 0 <= i < m.len() && m[i].0 == k && forall|j: int| 0 <= j < i ==> #[trigger] m[j].0 != k,
            None => forall|j: int| 0 <= j < m.len() ==> #[trigger] m[j].0 != k,
        },
    decreases m.len(),
{
    if m.len() > 0 && m[0].0 != k {
        lemma_obj_index(m.drop_first(), k);
        assert forall|j: int| 0 < j < m.len() implies m.drop_first()[j - 1] == #[trigger] m[j] by {};
    }
}

/// The pieces of `s` between the dots, as `str::split('.')` yields them.
pub open spec fn split_dot(s: Seq<char>) -> Seq<Seq<char>>
    decreases s.len(),
{
    if s.len() == 0 {
        seq![Seq::empty()]
    } else {
        let rest = split_dot(s.drop_last());
        if s.last() == '.' {
            rest.push(Seq::empty())
        } else {
            rest.update(rest.len() - 1, rest.last().push(s.last()))
        }
    }
}

pub proof fn lemma_split_dot_nonempty(s: Seq<char>)
    ensures
        split_dot(s).len() >= 1,
    decreases s.len(),
{
    if s.len() > 0 {
        lemma_split_dot_nonempty(s.drop_last());
    }
}

pub open spec fn is_digit(c: char) -> bool {
    '0' <= c <= '9'
}

pub open spec fn digit_value(c: char) -> nat {
    (c as int - '0' as int) as nat
}

/// Value of a sequence of decimal digits.
pub open spec fn digits_value(s: Seq<char>) -> nat
    decreases s.len(),
{
    if s.len() == 0 {
        0
    } else {
        digits_value(s.drop_last()) * 10 + digit_value(s.last())
    }
}

/// The digits part of an index: `s` without a leading `+`.
pub open spec fn index_digits(s: Seq<char>) -> Seq<char> {
    if s.len() > 0 && s[0] == '+' { s.drop_first() } else { s }
}

/// An array index as `str::parse::<usize>` reads it: an optional `+`, then one or
/// more decimal digits, with a value that fits in `usize`.
pub open spec fn parse_index(s: Seq<char>) -> Option<nat> {
    let d = index_digits(s);
    if d.len() > 0 && (forall|i: int| 0 <= i < d.len() ==> #[trigger] is_digit(d[i])) && digits_value(d) <= usize::MAX {
        Some(digits_value(d))
    } else {
        None
    }
}

/// The value reached by following `parts` from `v`: an object by key, an array by
/// index; nothing when a step finds neither.
pub open spec fn lookup(v: Json, parts: Seq<Seq<char>>) -> Option<Json>
    decreases parts.len(),
{
    if parts.len() == 0 {
        Some(v)
    } else {
        match v {
            Json::Object(m) => match obj_get(m, parts[0]) {
                Some(c) => lookup(c, parts.drop_first()),
                None => None,
            },
            Json::Array(a) => match parse_index(parts[0]) {
                Some(i) => if i < a.len() {
                    lookup(a[i as int], parts.drop_first())
                } else {
                    None
                },
                None => None,
            },
            _ => None,
        }
    }
}

pub open spec fn out_of_range_message(i: nat) -> Seq<char> {
    "数组索引 "@ + decimal(i) + " 超出范围"@
}

/// Result of setting the value at `parts[idx..]` inside `cur`: the new document and,
/// when the path cannot be followed, the error text. Missing object members on the
/// way are created as empty objects, and they stay even when a later step fails.
pub open spec fn set_path(cur: Json, parts: Seq<Seq<char>>, idx: int, value: Json) -> (Json, Option<Seq<char>>)
    decreases parts.len() - idx,
{
    if idx < 0 || idx >= parts.len() {
        (cur, Some("索引超出范围"@))
    } else if idx == parts.len() - 1 {
        match cur {
            Json::Object(m) => (Json::Object(obj_insert(m, parts[idx], value)), None),
            Json::Array(a) => match parse_index(parts[idx]) {
                Some(i) => if i < a.len() {
                    (Json::Array(a.update(i as int, value)), None)
                } else {
                    (cur, Some(out_of_range_message(i)))
                },
                None => (cur, Some("无效的数组索引"@)),
            },
            _ => (cur, Some("无法在非对象/数组类型上设置字段"@)),
        }
    } else {
        match cur {
            Json::Object(m) => {
                let child = match obj_get(m, parts[idx]) {
                    Some(c) => c,
                    None => Json::Object(Seq::empty()),
                };
                let (c2, err) = set_path(child, parts, idx + 1, value);
                (Json::Object(obj_insert(m, parts[idx], c2)), err)
            },
            Json::Array(a) => match parse_index(parts[idx]) {
                Some(i) => if i < a.len() {
                    let (c2, err) = set_path(a[i as int], parts, idx + 1, value);
                    (Json::Array(a.update(i as int, c2)), err)
                } else {
                    (cur, Some(out_of_range_message(i)))
                },
                None => (cur, Some("无效的数组索引"@)),
            },
            _ => (cur, Some("无法在非对象/数组类型上设置字段"@)),
        }
    }
}

/// The characters of `s`.
pub fn chars_of(s: &str) -> (r: Vec<char>)
    ensures
        r@ == s@,
{
    let mut v: Vec<char> = Vec::new();
    for c in it: s.chars()
        invariant
            v@ == it.seq().take(it.index() as int),
    {
        v.push(c);
    }
    v
}

/// The text of each string in `ps`.
pub open spec fn texts(ps: Seq<String>) -> Seq<Seq<char>> {
    ps.map_values(|p: String| p@)
}

/// The pieces of `path` between its dots.
pub fn split_path(path: &str) -> (r: Vec<String>)
    ensures
        texts(r@) == split_dot(path@),
{
    let cs = chars_of(path);
    let mut parts: Vec<String> = Vec::new();
    let mut start: usize = 0;
    let mut i: usize = 0;
    proof {
        assert(cs@.take(0) =~= Seq::<char>::empty());
        assert(texts(parts@).push(cs@.subrange(0, 0)) =~= seq![Seq::<char>::empty()]);
    }
    while i < cs.len()
        invariant
            0 <= start <= i <= cs@.len(),
            cs@ == path@,
            texts(parts@).push(cs@.subrange(start as int, i as int)) == split_dot(cs@.take(i as int)),
        decreases cs.len() - i,
    {
        proof {
            assert(cs@.take(i + 1).drop_last() =~= cs@.take(i as int));
            assert(cs@.take(i + 1).last() == cs@[i as int]);
        }
        if cs[i] == '.' {
            let piece = String::from_str(path.substring_char(start, i));
            let ghost before = parts@;
            parts.push(piece);
            proof {
                assert(texts(parts@) =~= texts(before).push(cs@.subrange(start as int, i as int)));
                assert(cs@.subrange(i + 1, i + 1) =~= Seq::<char>::empty());
            }
            start = i + 1;
        } else {
            proof {
                assert(cs@.subrange(start as int, i + 1) =~= cs@.subrange(start as int, i as int).push(cs@[i as int]));
                let t = texts(parts@).push(cs@.subrange(start as int, i as int));
                assert(t.update(t.len() - 1, t.last().push(cs@[i as int])) =~= texts(parts@).push(cs@.subrange(start as int, i + 1)));
            }
        }
        i = i + 1;
    }
    proof {
        assert(cs@.take(cs@.len() as int) =~= cs@);
    }
    let last = String::from_str(path.substring_char(start, cs.len()));
    let ghost before = parts@;
    parts.push(last);
    proof {
        assert(texts(parts@) =~= texts(before).push(cs@.subrange(start as int, cs@.len() as int)));
    }
    parts
}

/// Reads an array index from a path piece, as `str::parse::<usize>` does.
pub fn parse_index_chars(s: &Vec<char>) -> (r: Option<usize>)
    ensures
        match parse_index(s@) {
            Some(n) => r == Some(n as usize),
            None => r is None,
        },
{
    let start: usize = if s.len() > 0 && s[0] == '+' { 1 } else { 0 };
    let ghost d = index_digits(s@);
    proof {
        assert(d =~= s@.subrange(start as int, s@.len() as int));
    }
    if start >= s.len() {
        return None;
    }
    let mut value: usize = 0;
    let mut i: usize = start;
    while i < s.len()
        invariant
            start <= i <= s@.len(),
            d == index_digits(s@),
            d =~= s@.subrange(start as int, s@.len() as int),
            forall|j: int| start <= j < i ==> #[trigger] is_digit(s@[j]),
            value == digits_value(s@.subrange(start as int, i as int)),
        decreases s.len() - i,
    {
        let c = s[i];
        if !('0' <= c && c <= '9') {
            proof {
                assert(d[i - start] == c);
                assert(!is_digit(d[i - start]));
                lemma_parse_non_digit(s@, i - start);
            }
            return None;
        }
        let dv: usize = (c as u32 - '0' as u32) as usize;
        proof {
            assert(s@.subrange(start as int, i + 1).drop_last() =~= s@.subrange(start as int, i as int));
        }
        if value > (usize::MAX - dv) / 10 {
            proof {
                assert(digits_value(s@.subrange(start as int, i + 1)) == value * 10 + dv);
                assert(d.take((i - start) as int + 1) =~= s@.subrange(start as int, i + 1));
                assert forall|j: int| 0 <= j < (i - start) + 1 implies #[trigger] is_digit(d[j]) by {
                    assert(d[j] == s@[start + j]);
                };
                lemma_parse_too_big(s@, (i - start) as int + 1);
            }
            return None;
        }
        value = value * 10 + dv;
        i = i + 1;
    }
    proof {
        assert(s@.subrange(start as int, s@.len() as int) =~= d);
        assert forall|j: int| 0 <= j < d.len() implies #[trigger] is_digit(d[j]) by {
            assert(d[j] == s@[start + j]);
        };
    }
    Some(value)
}

/// A longer run of digits is worth at least as much as its prefix.
proof fn lemma_digits_prefix_bound(d: Seq<char>, n: int)
    requires
        0 <= n <= d.len(),
        forall|i: int| 0 <= i < d.len() ==> #[trigger] is_digit(d[i]),
    ensures
        digits_value(d.take(n)) <= digits_value(d),
    decreases d.len() - n,
{
    if n < d.len() {
        lemma_digits_prefix_bound(d, n + 1);
        assert(d.take(n + 1).drop_last() =~= d.take(n));
        assert(is_digit(d[n]));
        assert(digits_value(d.take(n + 1)) == digits_value(d.take(n)) * 10 + digit_value(d[n]));
    } else {
        assert(d.take(n) =~= d);
    }
}

proof fn lemma_parse_non_digit(s: Seq<char>, k: int)
    requires
        0 <= k < index_digits(s).len(),
        !is_digit(index_digits(s)[k]),
    ensures
        parse_index(s) is None,
{
    let d = index_digits(s);
    assert(!(forall|j: int| 0 <= j < d.len() ==> #[trigger] is_digit(d[j])));
}

proof fn lemma_parse_too_big(s: Seq<char>, n: int)
    requires
        0 <= n <= index_digits(s).len(),
        forall|j: int| 0 <= j < n ==> #[trigger] is_digit(index_digits(s)[j]),
        digits_value(index_digits(s).take(n)) > usize::MAX,
    ensures
        parse_index(s) is None,
{
    let d = index_digits(s);
    if forall|j: int| 0 <= j < d.len() ==> #[trigger] is_digit(d[j]) {
        lemma_digits_prefix_bound(d, n);
    }
}

/// Position of the first member of `m` whose key is `key`.
pub fn obj_find(m: &Vec<(String, JsonValue)>, key: &String) -> (r: Option<usize>)
    ensures
        match obj_index(entry_models(m@), key@) {
            Some(i) => 0 <= i < m.len() && r == Some(i as usize),
            None => r is None,
        },
{
    proof {
        lemma_entry_models(m@);
        lemma_obj_index(entry_models(m@), key@);
    }
    let mut j: usize = 0;
    while j < m.len()
        invariant
            0 <= j <= m@.len(),
            entry_models(m@).len() == m@.len(),
            forall|k: int| 0 <= k < m@.len() ==> #[trigger] entry_models(m@)[k] == (m@[k].0@, model(m@[k].1)),
            forall|k: int| 0 <= k < j ==> #[trigger] m@[k].0@ != key@,
            match obj_index(entry_models(m@), key@) {
                Some(i) => 0 <= i < m@.len() && entry_models(m@)[i].0 == key@ && forall|k: int| 0 <= k < i ==> #[trigger] entry_models(m@)[k].0 != key@,
                None => forall|k: int| 0 <= k < m@.len() ==> #[trigger] entry_models(m@)[k].0 != key@,
            },
        decreases m.len() - j,
    {
        if m[j].0 == *key {
            proof {
                assert(entry_models(m@)[j as int].0 == key@);
                match obj_index(entry_models(m@), key@) {
                    Some(i) => {
                        if i < j {
                            assert(entry_models(m@)[i].0 == m@[i].0@);
                        } else if i > j {
                            assert(entry_models(m@)[j as int].0 != key@);
                        }
                    },
                    None => {},
                }
            }
            return Some(j);
        }
        j = j + 1;
    }
    proof {
        match obj_index(entry_models(m@), key@) {
            Some(i) => {
                assert(entry_models(m@)[i].0 == m@[i].0@);
            },
            None => {},
        }
    }
    None
}

/// The value at `path` inside `v`: each dot-separated piece selects an object
/// member by key or an array element by index.
pub fn get_path<'a>(v: &'a JsonValue, path: &str) -> (r: Option<&'a JsonValue>)
    ensures
        match lookup(model(*v), split_dot(path@)) {
            Some(j) => r is Some && model(*r.unwrap()) == j,
            None => r is None,
        },
{
    let parts = split_path(path);
    let ghost all = split_dot(path@);
    let mut current: &JsonValue = v;
    let mut k: usize = 0;
    proof {
        assert(all.skip(0) =~= all);
    }
    while k < parts.len()
        invariant
            0 <= k <= parts@.len(),
            texts(parts@) == all,
            all == split_dot(path@),
            lookup(model(*v), all) == lookup(model(*current), all.skip(k as int)),
        decreases parts.len() - k,
    {
        let ghost rest = all.skip(k as int);
        proof {
            assert(rest.len() > 0);
            assert(rest[0] == parts@[k as int]@);
            assert(rest.drop_first() =~= all.skip(k + 1));
        }
        match current {
            JsonValue::Object(m) => {
                match obj_find(m, &parts[k]) {
                    Some(j) => {
                        proof {
                            lemma_entry_models(m@);
                            assert(obj_get(entry_models(m@), rest[0]) == Some(model(m@[j as int].1)));
                            assert(lookup(model(*current), rest) == lookup(model(m@[j as int].1), rest.drop_first()));
                        }
                        current = &m[j].1;
                    },
                    None => {
                        return None;
                    },
                }
            },
            JsonValue::Array(a) => {
                let pc = chars_of(parts[k].as_str());
                match parse_index_chars(&pc) {
                    Some(i) => {
                        if i < a.len() {
                            proof {
                                lemma_models(a@);
                                assert(lookup(model(*current), rest) == lookup(model(a@[i as int]), rest.drop_first()));
                            }
                            current = &a[i];
                        } else {
                            proof {
                                lemma_models(a@);
                            }
                            return None;
                        }
                    },
                    None => {
                        return None;
                    },
                }
            },
            _ => {
                return None;
            },
        }
        k = k + 1;
    }
    proof {
        assert(all.skip(k as int).len() == 0);
    }
    Some(current)
}

pub proof fn lemma_entry_models_update(m: Seq<(String, JsonValue)>, j: int, e: (String, JsonValue))
    requires
        0 <= j < m.len(),
    ensures
        entry_models(m.update(j, e)) == entry_models(m).update(j, (e.0@, model(e.1))),
{
    lemma_entry_models(m);
    lemma_entry_models(m.update(j, e));
    assert(entry_models(m.update(j, e)) =~= entry_models(m).update(j, (e.0@, model(e.1))));
}

pub proof fn lemma_entry_models_push(m: Seq<(String, JsonValue)>, e: (String, JsonValue))
    ensures
        entry_models(m.push(e)) == entry_models(m).push((e.0@, model(e.1))),
{
    assert(m.push(e).drop_last() =~= m);
}

pub proof fn lemma_models_update(a: Seq<JsonValue>, i: int, v: JsonValue)
    requires
        0 <= i < a.len(),
    ensures
        models(a.update(i, v)) == models(a).update(i, model(v)),
{
    lemma_models(a);
    lemma_models(a.update(i, v));
    assert(models(a.update(i, v)) =~= models(a).update(i, model(v)));
}

/// The message for an array index past the end.
pub fn out_of_range_text(i: usize) -> (r: String)
    ensures
        r@ == out_of_range_message(i as nat),
{
    let n = decimal_string(i as u64);
    join3("数组索引 ", n.as_str(), " 超出范围")
}

impl Clone for JsonValue {
    /// A deep copy, as `duplicate` makes it.
    fn clone(&self) -> (r: Self) {
        duplicate(self)
    }
}

/// A deep copy of `v`.
pub fn duplicate(v: &JsonValue) -> (r: JsonValue)
    ensures
        model(r) == model(*v),
    decreases v,
{
    match v {
        JsonValue::Null => JsonValue::Null,
        JsonValue::Bool(b) => JsonValue::Bool(*b),
        JsonValue::Number(n) => JsonValue::Number(n.clone()),
        JsonValue::Str(t) => JsonValue::Str(t.clone()),
        JsonValue::Array(a) => {
            let mut out: Vec<JsonValue> = Vec::new();
            let mut i: usize = 0;
            while i < a.len()
                invariant
                    *v == JsonValue::Array(*a),
                    0 <= i <= a@.len(),
                    out@.len() == i,
                    forall|k: int| 0 <= k < i ==> #[trigger] model(out@[k]) == model(a@[k]),
                decreases a.len() - i,
            {
                proof {
                    assert(decreases_to!(*v => v->Array_0));
                    assert(decreases_to!(*a => a@));
                    assert(decreases_to!(a@ => a@[i as int]));
                    assert(decreases_to!(*v => a@[i as int]));
                }
                let c = duplicate(&a[i]);
                out.push(c);
                i = i + 1;
            }
            proof {
                lemma_models(a@);
                lemma_models(out@);
                assert(models(out@) =~= models(a@));
            }
            JsonValue::Array(out)
        },
        JsonValue::Object(m) => {
            let mut out: Vec<(String, JsonValue)> = Vec::new();
            let mut i: usize = 0;
            while i < m.len()
                invariant
                    *v == JsonValue::Object(*m),
                    0 <= i <= m@.len(),
                    out@.len() == i,
                    forall|k: int| 0 <= k < i ==> #[trigger] out@[k].0@ == m@[k].0@ && model(out@[k].1) == model(m@[k].1),
                decreases m.len() - i,
            {
                proof {
                    assert(decreases_to!(*v => v->Object_0));
                    assert(decreases_to!(*m => m@));
                    assert(decreases_to!(m@ => m@[i as int]));
                    assert(decreases_to!(m@[i as int] => m@[i as int].1));
                    assert(decreases_to!(*v => m@[i as int].1));
                }
                let c = duplicate(&m[i].1);
                out.push((m[i].0.clone(), c));
                i = i + 1;
            }
            proof {
                lemma_entry_models(m@);
                lemma_entry_models(out@);
                assert(entry_models(out@) =~= entry_models(m@));
            }
            JsonValue::Object(out)
        },
    }
}

proof fn lemma_obj_index_at(m: Seq<(Seq<char>, Json)>, k: Seq<char>, i: int)
    requires
        0 <= i < m.len(),
        m[i].0 == k,
        forall|j: int| 0 <= j < i ==> #[trigger] m[j].0 != k,
    ensures
        obj_index(m, k) == Some(i),
    decreases i,
{
    if i > 0 {
        assert(m[0].0 != k);
        assert forall|j: int| 0 <= j < i - 1 implies #[trigger] m.drop_first()[j].0 != k by {
            assert(m.drop_first()[j] == m[j + 1]);
        };
        lemma_obj_index_at(m.drop_first(), k, i - 1);
    }
}

/// Setting `k` in an object and reading `k` back gives the value set.
pub proof fn lemma_obj_insert_get(m: Seq<(Seq<char>, Json)>, k: Seq<char>, v: Json)
    ensures
        obj_get(obj_insert(m, k, v), k) == Some(v),
{
    lemma_obj_index(m, k);
    match obj_index(m, k) {
        Some(i) => {
            let m2 = m.update(i, (k, v));
            assert forall|j: int| 0 <= j < i implies #[trigger] m2[j].0 != k by {
                assert(m2[j] == m[j]);
            };
            lemma_obj_index_at(m2, k, i);
        },
        None => {
            let m2 = m.push((k, v));
            assert forall|j: int| 0 <= j < m.len() implies #[trigger] m2[j].0 != k by {
                assert(m2[j] == m[j]);
            };
            lemma_obj_index_at(m2, k, m.len() as int);
        },
    }
}

/// When setting a value along `parts[idx..]` succeeds, reading along the same pieces
/// gives that value back.
pub proof fn lemma_set_then_lookup(cur: Json, parts: Seq<Seq<char>>, idx: int, value: Json)
    requires
        0 <= idx < parts.len(),
        set_path(cur, parts, idx, value).1 is None,
    ensures
        lookup(set_path(cur, parts, idx, value).0, parts.skip(idx)) == Some(value),
    decreases parts.len() - idx,
{
    let p = parts.skip(idx);
    assert(p[0] == parts[idx]);
    assert(p.drop_first() =~= parts.skip(idx + 1));
    assert(p.len() > 0);
    let k = parts[idx];
    let res = set_path(cur, parts, idx, value).0;
    if idx == parts.len() - 1 {
        assert(p.drop_first().len() == 0);
        assert(lookup(value, p.drop_first()) == Some(value));
        match cur {
            Json::Object(m) => {
                lemma_obj_insert_get(m, k, value);
                assert(res == Json::Object(obj_insert(m, k, value)));
                assert(lookup(res, p) == lookup(value, p.drop_first()));
            },
            Json::Array(a) => {
                let i = parse_index(k)->0;
                assert(res == Json::Array(a.update(i as int, value)));
                assert(a.update(i as int, value)[i as int] == value);
                assert(lookup(res, p) == lookup(value, p.drop_first()));
            },
            _ => {},
        }
    } else {
        match cur {
            Json::Object(m) => {
                let child = match obj_get(m, k) {
                    Some(c) => c,
                    None => Json::Object(Seq::empty()),
                };
                let c2 = set_path(child, parts, idx + 1, value).0;
                lemma_set_then_lookup(child, parts, idx + 1, value);
                lemma_obj_insert_get(m, k, c2);
                assert(res == Json::Object(obj_insert(m, k, c2)));
                assert(lookup(res, p) == lookup(c2, p.drop_first()));
            },
            Json::Array(a) => {
                let i = parse_index(k)->0;
                let c2 = set_path(a[i as int], parts, idx + 1, value).0;
                lemma_set_then_lookup(a[i as int], parts, idx + 1, value);
                assert(res == Json::Array(a.update(i as int, c2)));
                assert(a.update(i as int, c2)[i as int] == c2);
                assert(lookup(res, p) == lookup(c2, p.drop_first()));
            },
            _ => {},
        }
    }
}

/// Reading a field right after setting it gives back the value set, whenever the
/// setting succeeded.
pub proof fn lemma_field_read_after_write(doc: Json, path: Seq<char>, value: Json)
    requires
        set_path(doc, split_dot(path), 0, value).1 is None,
    ensures
        lookup(set_path(doc, split_dot(path), 0, value).0, split_dot(path)) == Some(value),
{
    lemma_split_dot_nonempty(path);
    lemma_set_then_lookup(doc, split_dot(path), 0, value);
    assert(split_dot(path).skip(0) =~= split_dot(path));
}

/// Setting a field either succeeds, and reading the field back gives the value set, or
/// fails and leaves the document as it was, with no member added on the way.
pub proof fn lemma_set_field_outcome(doc: Json, path: Seq<char>, value: Json)
    ensures
        set_path(doc, split_dot(path), 0, value).1 is None ==>
            lookup(set_path(doc, split_dot(path), 0, value).0, split_dot(path)) == Some(value),
        set_path(doc, split_dot(path), 0, value).1 is Some ==> set_path(doc, split_dot(path), 0, value).0 == doc,
{
    lemma_split_dot_nonempty(path);
    if set_path(doc, split_dot(path), 0, value).1 is None {
        lemma_field_read_after_write(doc, path, value);
    } else {
        lemma_failed_set_unchanged(doc, split_dot(path), 0, value);
    }
}

/// Setting a value inside an empty object never fails: members are created on the way.
proof fn lemma_set_in_empty_object(parts: Seq<Seq<char>>, idx: int, value: Json)
    requires
        0 <= idx < parts.len(),
    ensures
        set_path(Json::Object(Seq::empty()), parts, idx, value).1 is None,
    decreases parts.len() - idx,
{
    if idx < parts.len() - 1 {
        assert(obj_index(Seq::<(Seq<char>, Json)>::empty(), parts[idx]) is None);
        lemma_set_in_empty_object(parts, idx + 1, value);
    }
}

/// A setting that fails leaves the value as it was.
proof fn lemma_failed_set_unchanged(cur: Json, parts: Seq<Seq<char>>, idx: int, value: Json)
    requires
        0 <= idx < parts.len(),
        set_path(cur, parts, idx, value).1 is Some,
    ensures
        set_path(cur, parts, idx, value).0 == cur,
    decreases parts.len() - idx,
{
    if idx < parts.len() - 1 {
        let k = parts[idx];
        match cur {
            Json::Object(m) => {
                match obj_get(m, k) {
                    Some(c) => {
                        lemma_failed_set_unchanged(c, parts, idx + 1, value);
                        lemma_obj_index(m, k);
                        let i = obj_index(m, k)->0;
                        assert(m[i] == (k, c));
                        assert(m.update(i, (k, c)) =~= m);
                    },
                    None => {
                        lemma_set_in_empty_object(parts, idx + 1, value);
                    },
                }
            },
            Json::Array(a) => {
                match parse_index(k) {
                    Some(i) => {
                        if i < a.len() {
                            lemma_failed_set_unchanged(a[i as int], parts, idx + 1, value);
                            assert(a.update(i as int, a[i as int]) =~= a);
                        }
                    },
                    None => {},
                }
            },
            _ => {},
        }
    }
}

/// A failed setting gives one of three reasons: a value on the way that is neither
/// object nor array, a piece that is no array index, or an index past the end.
pub proof fn lemma_set_errors_name_a_reason(doc: Json, path: Seq<char>, value: Json)
    ensures
        set_path(doc, split_dot(path), 0, value).1 matches Some(m) ==> (
            m == "无法在非对象/数组类型上设置字段"@ || m == "无效的数组索引"@
            || exists|i: nat| m == out_of_range_message(i)),
{
    lemma_split_dot_nonempty(path);
    lemma_set_errors(doc, split_dot(path), 0, value);
}

proof fn lemma_set_errors(cur: Json, parts: Seq<Seq<char>>, idx: int, value: Json)
    requires
        0 <= idx < parts.len(),
    ensures
        set_path(cur, parts, idx, value).1 matches Some(m) ==> (
            m == "无法在非对象/数组类型上设置字段"@ || m == "无效的数组索引"@
            || exists|i: nat| m == out_of_range_message(i)),
    decreases parts.len() - idx,
{
    if idx < parts.len() - 1 {
        match cur {
            Json::Object(m) => {
                let child = match obj_get(m, parts[idx]) {
                    Some(c) => c,
                    None => Json::Object(Seq::empty()),
                };
                lemma_set_errors(child, parts, idx + 1, value);
            },
            Json::Array(a) => {
                match parse_index(parts[idx]) {
                    Some(i) => {
                        if i < a.len() {
                            lemma_set_errors(a[i as int], parts, idx + 1, value);
                        }
                    },
                    None => {},
                }
            },
            _ => {},
        }
    }
}

} // verus!
