//! JSON values as the library reads them, and the searches over them that
//! the YouTube Music response parsers are built from.
use vstd::prelude::*;
use crate::text::{str_eq, string_of, chars_of};

verus! {

/// A JSON value. A number is kept as its value where that is an integer that
/// fits `u64` (what `serde_json::Value::as_u64` gives), else as `None`.
/// An object keeps its entries in order.
pub enum JsonValue {
    Null,
    Bool(bool),
    Number(Option<u64>),
    Str(String),
    Array(Vec<JsonValue>),
    Object(Vec<(String, JsonValue)>),
}

/// The value of the first entry named `key`.
pub open spec fn get_entry(entries: Seq<(String, JsonValue)>, key: Seq<char>) -> Option<JsonValue>
    decreases entries.len(),
{
    if entries.len() == 0 {
        None
    } else {
        match get_entry(entries.drop_last(), key) {
            Some(v) => Some(v),
            None => if entries.last().0@ == key {
                Some(entries.last().1)
            } else {
                None
            },
        }
    }
}

/// The field `key` of an object (`Value::get`).
pub open spec fn field(data: JsonValue, key: Seq<char>) -> Option<JsonValue> {
    match data {
        JsonValue::Object(entries) => get_entry(entries@, key),
        _ => None,
    }
}

/// The text of a string value (`Value::as_str`).
pub open spec fn as_str(v: JsonValue) -> Option<Seq<char>> {
    match v {
        JsonValue::Str(s) => Some(s@),
        _ => None,
    }
}

/// The value of a non-negative integer (`Value::as_u64`).
pub open spec fn as_u64(v: JsonValue) -> Option<u64> {
    match v {
        JsonValue::Number(n) => n,
        _ => None,
    }
}

/// The text of the string field `key`.
pub open spec fn field_str(data: JsonValue, key: Seq<char>) -> Option<Seq<char>> {
    match field(data, key) {
        Some(v) => as_str(v),
        None => None,
    }
}

pub open spec fn own_value(data: JsonValue, key: Seq<char>) -> Seq<JsonValue> {
    match field(data, key) {
        Some(v) => seq![v],
        None => Seq::empty(),
    }
}

/// The values of the fields named `key` anywhere in `data`, in document
/// order, an object's own field before those inside it; with `dead_end`,
/// nothing inside an object that has the field itself.
pub open spec fn vals(data: JsonValue, key: Seq<char>, dead_end: bool) -> Seq<JsonValue>
    decreases data,
{
    let own = own_value(data, key);
    if dead_end && own.len() > 0 {
        own
    } else {
        own + match data {
            JsonValue::Array(items) => vals_list(items@, key),
            JsonValue::Object(entries) => vals_entries(entries@, key),
            _ => Seq::empty(),
        }
    }
}

pub open spec fn vals_list(items: Seq<JsonValue>, key: Seq<char>) -> Seq<JsonValue>
    decreases items,
{
    if items.len() == 0 {
        Seq::empty()
    } else {
        vals_list(items.drop_last(), key) + vals(items.last(), key, false)
    }
}

pub open spec fn vals_entries(entries: Seq<(String, JsonValue)>, key: Seq<char>) -> Seq<JsonValue>
    decreases entries,
{
    if entries.len() == 0 {
        Seq::empty()
    } else {
        vals_entries(entries.drop_last(), key) + vals(entries.last().1, key, false)
    }
}

/// `vals` of each value in turn, concatenated.
pub open spec fn vals_of_all(current: Seq<JsonValue>, key: Seq<char>, dead_end: bool) -> Seq<JsonValue>
    decreases current.len(),
{
    if current.len() == 0 {
        Seq::empty()
    } else {
        vals_of_all(current.drop_last(), key, dead_end) + vals(current.last(), key, dead_end)
    }
}

/// Following the keys in turn from the values `current`; the last key is a dead end.
pub open spec fn traverse(current: Seq<JsonValue>, keys: Seq<Seq<char>>) -> Seq<JsonValue>
    decreases keys.len(),
{
    if keys.len() == 0 {
        current
    } else {
        traverse(vals_of_all(current, keys[0], keys.len() == 1), keys.drop_first())
    }
}

pub open spec fn key_views(keys: Seq<&str>) -> Seq<Seq<char>> {
    keys.map_values(|k: &str| k@)
}

pub open spec fn spec_traverse_list(data: JsonValue, keys: Seq<Seq<char>>) -> Seq<JsonValue> {
    traverse(seq![data], keys)
}

/// The text of the first string value.
pub open spec fn first_str(values: Seq<JsonValue>) -> Option<Seq<char>>
    decreases values.len(),
{
    if values.len() == 0 {
        None
    } else {
        match first_str(values.drop_last()) {
            Some(s) => Some(s),
            None => as_str(values.last()),
        }
    }
}

pub open spec fn spec_traverse_string(data: JsonValue, keys: Seq<Seq<char>>) -> Seq<char> {
    match first_str(spec_traverse_list(data, keys)) {
        Some(s) => s,
        None => Seq::empty(),
    }
}

pub open spec fn derefs(s: Seq<&JsonValue>) -> Seq<JsonValue> {
    s.map_values(|r: &JsonValue| *r)
}

pub proof fn lemma_derefs_push(s: Seq<&JsonValue>, x: &JsonValue)
    ensures
        derefs(s.push(x)) == derefs(s).push(*x),
{
    assert(derefs(s.push(x)) =~= derefs(s).push(*x));
}

/// The field `key` of an object (`Value::get`).
pub fn get<'a>(data: &'a JsonValue, key: &str) -> (r: Option<&'a JsonValue>)
    ensures
        r matches Some(v) ==> field(*data, key@) == Some(*v),
        r is None ==> field(*data, key@) is None,
{
    match data {
        JsonValue::Object(entries) => {
            let mut i: usize = 0;
            while i < entries.len()
                invariant
                    0 <= i <= entries.len(),
                    *data is Object,
                    (*data)->Object_0 == *entries,
                    get_entry(entries@.take(i as int), key@) is None,
                decreases entries.len() - i,
            {
                assert(entries@.take(i + 1).drop_last() =~= entries@.take(i as int));
                if str_eq(entries[i].0.as_str(), key) {
                    proof {
                        lemma_get_entry_prefix(entries@, key@, i + 1);
                    }
                    return Some(&entries[i].1);
                }
                i = i + 1;
            }
            assert(entries@.take(entries.len() as int) =~= entries@);
            None
        },
        _ => None,
    }
}

proof fn lemma_get_entry_prefix(entries: Seq<(String, JsonValue)>, key: Seq<char>, m: int)
    requires
        0 <= m <= entries.len(),
        get_entry(entries.take(m), key) is Some,
    ensures
        get_entry(entries, key) == get_entry(entries.take(m), key),
    decreases entries.len(),
{
    if m == entries.len() {
        assert(entries.take(m) =~= entries);
    } else {
        assert(entries.drop_last().take(m) =~= entries.take(m));
        lemma_get_entry_prefix(entries.drop_last(), key, m);
    }
}

/// The text of a string value.
pub fn get_str(v: &JsonValue) -> (r: Option<&str>)
    ensures
        r matches Some(s) ==> as_str(*v) == Some(s@),
        r is None ==> as_str(*v) is None,
{
    match v {
        JsonValue::Str(s) => Some(s.as_str()),
        _ => None,
    }
}

/// The text of the string field `key`.
pub fn get_field_str<'a>(data: &'a JsonValue, key: &str) -> (r: Option<&'a str>)
    ensures
        r matches Some(s) ==> field_str(*data, key@) == Some(s@),
        r is None ==> field_str(*data, key@) is None,
{
    match get(data, key) {
        Some(v) => get_str(v),
        None => None,
    }
}

/// Appends to `out` the values that `vals` gives.
pub fn values_for_key<'a>(data: &'a JsonValue, key: &str, dead_end: bool, out: &mut Vec<&'a JsonValue>)
    ensures
        derefs(final(out)@) == derefs(old(out)@) + vals(*data, key@, dead_end),
    decreases data,
{
    let ghost start = derefs(out@);
    let ghost own = own_value(*data, key@);
    match get(data, key) {
        Some(v) => {
            proof {
                lemma_derefs_push(out@, v);
            }
            out.push(v);
            if dead_end {
                return ;
            }
        },
        None => {},
    }
    match data {
        JsonValue::Object(entries) => {
            let mut i: usize = 0;
            while i < entries.len()
                invariant
                    0 <= i <= entries.len(),
                    *data is Object,
                    (*data)->Object_0 == *entries,
                    derefs(out@) == start + own + vals_entries(entries@.take(i as int), key@),
                decreases entries.len() - i,
            {
                assert(entries@.take(i + 1).drop_last() =~= entries@.take(i as int));
                proof {
                    let d = *data;
                    let e = entries@[i as int];
                    assert(decreases_to!(d => d->Object_0));
                    assert(decreases_to!(d->Object_0 => d->Object_0@));
                    assert(decreases_to!(entries@ => e));
                    assert(decreases_to!(e => e.1));
                }
                values_for_key(&entries[i].1, key, false, out);
                i = i + 1;
            }
            assert(entries@.take(entries.len() as int) =~= entries@);
        },
        JsonValue::Array(items) => {
            let mut i: usize = 0;
            while i < items.len()
                invariant
                    0 <= i <= items.len(),
                    *data is Array,
                    (*data)->Array_0 == *items,
                    derefs(out@) == start + own + vals_list(items@.take(i as int), key@),
                decreases items.len() - i,
            {
                assert(items@.take(i + 1).drop_last() =~= items@.take(i as int));
                proof {
                    let d = *data;
                    assert(decreases_to!(d => d->Array_0));
                    assert(decreases_to!(d->Array_0 => d->Array_0@));
                    assert(decreases_to!(items@ => items@[i as int]));
                }
                values_for_key(&items[i], key, false, out);
                i = i + 1;
            }
            assert(items@.take(items.len() as int) =~= items@);
        },
        _ => {
            assert(derefs(out@) =~= start + own + Seq::<JsonValue>::empty());
        },
    }
}

/// The values reached by following `keys` from `data`: at each key the fields
/// of that name anywhere inside the values reached so far.
pub fn traverse_list<'a>(data: &'a JsonValue, keys: &[&str]) -> (r: Vec<&'a JsonValue>)
    ensures
        derefs(r@) == spec_traverse_list(*data, key_views(keys@)),
{
    let ghost ks = key_views(keys@);
    let mut current: Vec<&'a JsonValue> = Vec::new();
    current.push(data);
    assert(derefs(current@) =~= seq![*data]);
    let mut idx: usize = 0;
    assert(ks.skip(0) =~= ks);
    while idx < keys.len()
        invariant
            0 <= idx <= keys@.len(),
            ks == key_views(keys@),
            spec_traverse_list(*data, ks) == traverse(derefs(current@), ks.skip(idx as int)),
        decreases keys@.len() - idx,
    {
        let key = keys[idx];
        let dead_end = idx + 1 == keys.len();
        let mut next: Vec<&'a JsonValue> = Vec::new();
        let mut j: usize = 0;
        while j < current.len()
            invariant
                0 <= j <= current.len(),
                key@ == ks[idx as int],
                derefs(next@) == vals_of_all(derefs(current@).take(j as int), key@, dead_end),
            decreases current.len() - j,
        {
            assert(derefs(current@).take(j + 1).drop_last() =~= derefs(current@).take(j as int));
            values_for_key(current[j], key, dead_end, &mut next);
            j = j + 1;
        }
        proof {
            assert(derefs(current@).take(current.len() as int) =~= derefs(current@));
            let rest = ks.skip(idx as int);
            assert(rest[0] == ks[idx as int]);
            assert(rest.drop_first() =~= ks.skip(idx + 1));
            assert((rest.len() == 1) == dead_end);
        }
        current = next;
        idx = idx + 1;
    }
    assert(ks.skip(keys@.len() as int) =~= Seq::<Seq<char>>::empty());
    current
}

/// The text of the first string among the values that `traverse_list` reaches,
/// or the empty string.
pub fn traverse_string(data: &JsonValue, keys: &[&str]) -> (r: String)
    ensures
        r@ == spec_traverse_string(*data, key_views(keys@)),
{
    let values = traverse_list(data, keys);
    let ghost vs = derefs(values@);
    let mut i: usize = 0;
    while i < values.len()
        invariant
            0 <= i <= values.len(),
            vs == derefs(values@),
            vs == spec_traverse_list(*data, key_views(keys@)),
            first_str(vs.take(i as int)) is None,
        decreases values.len() - i,
    {
        assert(vs.take(i + 1).drop_last() =~= vs.take(i as int));
        assert(vs[i as int] == *values@[i as int]);
        match get_str(values[i]) {
            Some(s) => {
                proof {
                    assert(vs.take(i + 1).last() == vs[i as int]);
                    lemma_first_str_prefix(vs, i + 1);
                }
                let c = chars_of(s);
                assert(c@.subrange(0, c@.len() as int) =~= c@);
                return string_of(&c, 0, c.len());
            },
            None => {},
        }
        i = i + 1;
    }
    assert(vs.take(values.len() as int) =~= vs);
    String::new()
}

proof fn lemma_first_str_prefix(vs: Seq<JsonValue>, m: int)
    requires
        0 <= m <= vs.len(),
        first_str(vs.take(m)) is Some,
    ensures
        first_str(vs) == first_str(vs.take(m)),
    decreases vs.len(),
{
    if m == vs.len() {
        assert(vs.take(m) =~= vs);
    } else {
        assert(vs.drop_last().take(m) =~= vs.take(m));
        lemma_first_str_prefix(vs.drop_last(), m);
    }
}


/// `traverse_string` along one key.
pub fn path_string1(data: &JsonValue, k1: &str) -> (r: String)
    ensures
        r@ == spec_traverse_string(*data, seq![k1@]),
{
    let keys = [k1];
    assert(key_views(keys@) =~= seq![k1@]);
    traverse_string(data, &keys)
}

/// `traverse_string` along two keys.
pub fn path_string2(data: &JsonValue, k1: &str, k2: &str) -> (r: String)
    ensures
        r@ == spec_traverse_string(*data, seq![k1@, k2@]),
{
    let keys = [k1, k2];
    assert(key_views(keys@) =~= seq![k1@, k2@]);
    traverse_string(data, &keys)
}

/// `traverse_string` along three keys.
pub fn path_string3(data: &JsonValue, k1: &str, k2: &str, k3: &str) -> (r: String)
    ensures
        r@ == spec_traverse_string(*data, seq![k1@, k2@, k3@]),
{
    let keys = [k1, k2, k3];
    assert(key_views(keys@) =~= seq![k1@, k2@, k3@]);
    traverse_string(data, &keys)
}

/// `traverse_string` along four keys.
pub fn path_string4(data: &JsonValue, k1: &str, k2: &str, k3: &str, k4: &str) -> (r: String)
    ensures
        r@ == spec_traverse_string(*data, seq![k1@, k2@, k3@, k4@]),
{
    let keys = [k1, k2, k3, k4];
    assert(key_views(keys@) =~= seq![k1@, k2@, k3@, k4@]);
    traverse_string(data, &keys)
}

/// `traverse_list` along one key.
pub fn path_list1<'a>(data: &'a JsonValue, k1: &str) -> (r: Vec<&'a JsonValue>)
    ensures
        derefs(r@) == spec_traverse_list(*data, seq![k1@]),
{
    let keys = [k1];
    assert(key_views(keys@) =~= seq![k1@]);
    traverse_list(data, &keys)
}

/// `traverse_list` along two keys.
pub fn path_list2<'a>(data: &'a JsonValue, k1: &str, k2: &str) -> (r: Vec<&'a JsonValue>)
    ensures
        derefs(r@) == spec_traverse_list(*data, seq![k1@, k2@]),
{
    let keys = [k1, k2];
    assert(key_views(keys@) =~= seq![k1@, k2@]);
    traverse_list(data, &keys)
}

/// A JSON value as a mathematical value.
pub ghost enum Json {
    Null,
    Bool(bool),
    Number(Option<u64>),
    Str(Seq<char>),
    Array(Seq<Json>),
    Object(Seq<(Seq<char>, Json)>),
}

/// The mathematical value of a JSON value.
pub open spec fn jv(v: JsonValue) -> Json
    decreases v,
{
    match v {
        JsonValue::Null => Json::Null,
        JsonValue::Bool(b) => Json::Bool(b),
        JsonValue::Number(n) => Json::Number(n),
        JsonValue::Str(s) => Json::Str(s@),
        JsonValue::Array(items) => Json::Array(jv_list(items@)),
        JsonValue::Object(entries) => Json::Object(jv_entries(entries@)),
    }
}

pub open spec fn jv_list(items: Seq<JsonValue>) -> Seq<Json>
    decreases items,
{
    if items.len() == 0 {
        Seq::empty()
    } else {
        jv_list(items.drop_last()).push(jv(items.last()))
    }
}

pub open spec fn jv_entries(entries: Seq<(String, JsonValue)>) -> Seq<(Seq<char>, Json)>
    decreases entries,
{
    if entries.len() == 0 {
        Seq::empty()
    } else {
        jv_entries(entries.drop_last()).push((entries.last().0@, jv(entries.last().1)))
    }
}

pub proof fn lemma_jv_entries(entries: Seq<(String, JsonValue)>)
    ensures
        jv_entries(entries).len() == entries.len(),
        forall|j: int| 0 <= j < entries.len() ==> #[trigger] jv_entries(entries)[j] == (entries[j].0@, jv(entries[j].1)),
    decreases entries.len(),
{
    if entries.len() > 0 {
        lemma_jv_entries(entries.drop_last());
    }
}

pub proof fn lemma_jv_list(items: Seq<JsonValue>)
    ensures
        jv_list(items).len() == items.len(),
        forall|j: int| 0 <= j < items.len() ==> #[trigger] jv_list(items)[j] == jv(items[j]),
    decreases items.len(),
{
    if items.len() > 0 {
        lemma_jv_list(items.drop_last());
    }
}

/// The first entry named `key`.
pub open spec fn key_index(entries: Seq<(Seq<char>, Json)>, key: Seq<char>, from: int) -> Option<int>
    decreases entries.len() - from,
{
    if from < 0 || from >= entries.len() {
        None
    } else if entries[from].0 == key {
        Some(from)
    } else {
        key_index(entries, key, from + 1)
    }
}

/// `source` merged into `target`: where both are objects, each entry of `source` in turn
/// is merged into the entry of `target` with its name, or added where there is none;
/// otherwise `source` replaces `target`.
proof fn lemma_key_index(entries: Seq<(Seq<char>, Json)>, key: Seq<char>, from: int)
    requires
        0 <= from,
    ensures
        key_index(entries, key, from) matches Some(i) ==> from <= i < entries.len() && entries[i].0 == key,
    decreases entries.len() - from,
{
    if from < entries.len() && entries[from].0 != key {
        lemma_key_index(entries, key, from + 1);
    }
}

pub open spec fn jmerge(target: Json, source: Json) -> Json
    decreases source,
{
    match source {
        Json::Object(b) => match target {
            Json::Object(a) => Json::Object(jmerge_entries(a, b)),
            _ => source,
        },
        _ => source,
    }
}

pub open spec fn jmerge_entries(a: Seq<(Seq<char>, Json)>, b: Seq<(Seq<char>, Json)>) -> Seq<(Seq<char>, Json)>
    decreases b,
{
    if b.len() == 0 {
        a
    } else {
        let prev = jmerge_entries(a, b.drop_last());
        let (k, v) = b.last();
        match key_index(prev, k, 0) {
            Some(i) => prev.update(i, (prev[i].0, jmerge(prev[i].1, v))),
            None => prev.push((k, jmerge(Json::Null, v))),
        }
    }
}

/// The position of the first entry named `key`.
fn entry_position(entries: &Vec<(String, JsonValue)>, key: &str) -> (r: Option<usize>)
    ensures
        match r {
            Some(i) => key_index(jv_entries(entries@), key@, 0) == Some(i as int),
            None => key_index(jv_entries(entries@), key@, 0) is None,
        },
{
    let ghost es = jv_entries(entries@);
    proof {
        lemma_jv_entries(entries@);
    }
    let mut i: usize = 0;
    while i < entries.len()
        invariant
            i <= entries@.len(),
            es == jv_entries(entries@),
            es.len() == entries@.len(),
            forall|j: int| 0 <= j < entries@.len() ==> #[trigger] es[j] == (entries@[j].0@, jv(entries@[j].1)),
            key_index(es, key@, 0) == key_index(es, key@, i as int),
        decreases entries@.len() - i,
    {
        assert(es[i as int].0 == entries@[i as int].0@);
        if str_eq(entries[i].0.as_str(), key) {
            return Some(i);
        }
        i = i + 1;
    }
    None
}

/// `source` merged into `target` (see `jmerge`).
#[verifier::loop_isolation(false)]
pub fn merge_json(target: JsonValue, source: JsonValue) -> (r: JsonValue)
    ensures
        jv(r) == jmerge(jv(target), jv(source)),
    decreases source,
{
    let ghost src = source;
    match source {
        JsonValue::Object(b) => match target {
            JsonValue::Object(a) => {
                let mut out = a;
                let ghost a0 = jv_entries(out@);
                let ghost bs = b@;
                let mut n: usize = 0;
                let total = b.len();
                for e in it: b
                    invariant
                        src is Object,
                        src->Object_0@ == bs,
                        bs == it.seq(),
                        total == bs.len(),
                        n == it.index(),
                        n <= bs.len(),
                        jv_entries(out@) == jmerge_entries(a0, jv_entries(bs.take(n as int))),
                {
                    let (k, v) = e;
                    let ghost prev = jv_entries(out@);
                    proof {
                        assert(bs[n as int] == e);
                        assert(decreases_to!(src => src->Object_0));
                        assert(decreases_to!(src->Object_0 => src->Object_0@));
                        assert(decreases_to!(bs => bs[n as int]));
                        assert(decreases_to!(e => e.1));
                        assert(e.1 == v);
                        assert(decreases_to!(src => v));
                        assert(bs.take(n + 1).drop_last() =~= bs.take(n as int));
                        assert(bs.take(n + 1).last() == e);
                        let bn = jv_entries(bs.take(n + 1));
                        assert(bn == jv_entries(bs.take(n as int)).push((k@, jv(v))));
                        assert(bn.drop_last() =~= jv_entries(bs.take(n as int)));
                        assert(bn.last() == (k@, jv(v)));
                        lemma_jv_entries(out@);
                    }
                    match entry_position(&out, k.as_str()) {
                        Some(i) => {
                            let ghost before = out@;
                            proof {
                                lemma_key_index(prev, k@, 0);
                            }
                            let (kk, old) = out.remove(i);
                            let merged = merge_json(old, v);
                            out.insert(i, (kk, merged));
                            proof {
                                lemma_jv_entries(out@);
                                assert(before[i as int] == (kk, old));
                                assert forall|j: int| 0 <= j < out@.len() implies #[trigger] out@[j] == before.update(i as int, (kk, merged))[j] by {}
                                assert(out@ =~= before.update(i as int, (kk, merged)));
                                lemma_jv_entries(before);
                                assert(jv_entries(out@) =~= prev.update(i as int, (prev[i as int].0, jmerge(prev[i as int].1, jv(v)))));
                            }
                        },
                        None => {
                            let ghost before = out@;
                            let merged = merge_json(JsonValue::Null, v);
                            out.push((k, merged));
                            proof {
                                assert(out@.drop_last() =~= before);
                            }
                        },
                    }
                    n = n + 1;
                }
                proof {
                    assert(bs.take(n as int) =~= bs);
                }
                JsonValue::Object(out)
            },
            _ => JsonValue::Object(b),
        },
        s => s,
    }
}

proof fn lemma_key_index_exists(entries: Seq<(Seq<char>, Json)>, key: Seq<char>, from: int)
    requires
        0 <= from,
    ensures
        key_index(entries, key, from) is Some <==> exists|m: int| from <= m < entries.len() && #[trigger] entries[m].0 == key,
    decreases entries.len() - from,
{
    if from < entries.len() && entries[from].0 != key {
        lemma_key_index_exists(entries, key, from + 1);
        if exists|m: int| from <= m < entries.len() && #[trigger] entries[m].0 == key {
            let m = choose|m: int| from <= m < entries.len() && #[trigger] entries[m].0 == key;
            assert(from + 1 <= m);
        }
    }
}

/// Merging objects loses no key: every key of the target and every key of the source is a
/// key of the result.
pub proof fn lemma_merge_keeps_keys(a: Seq<(Seq<char>, Json)>, b: Seq<(Seq<char>, Json)>)
    ensures
        forall|i: int| 0 <= i < a.len() ==> key_index(jmerge_entries(a, b), #[trigger] a[i].0, 0) is Some,
        forall|i: int| 0 <= i < b.len() ==> key_index(jmerge_entries(a, b), #[trigger] b[i].0, 0) is Some,
    decreases b.len(),
{
    if b.len() == 0 {
        assert forall|i: int| 0 <= i < a.len() implies key_index(jmerge_entries(a, b), #[trigger] a[i].0, 0) is Some by {
            lemma_key_index_exists(a, a[i].0, 0);
        }
    } else {
        let prev = jmerge_entries(a, b.drop_last());
        lemma_merge_keeps_keys(a, b.drop_last());
        let (k, v) = b.last();
        let r = jmerge_entries(a, b);
        lemma_key_index(prev, k, 0);
        assert forall|x: Seq<char>| key_index(prev, x, 0) is Some implies key_index(r, x, 0) is Some by {
            lemma_key_index_exists(prev, x, 0);
            lemma_key_index_exists(r, x, 0);
            let m = choose|m: int| 0 <= m < prev.len() && #[trigger] prev[m].0 == x;
            assert(r[m].0 == x);
        }
        assert(key_index(r, k, 0) is Some) by {
            lemma_key_index_exists(r, k, 0);
            match key_index(prev, k, 0) {
                Some(i) => {
                    assert(r[i].0 == k);
                },
                None => {
                    assert(r[prev.len() as int].0 == k);
                },
            }
        }
        assert forall|i: int| 0 <= i < a.len() implies key_index(r, #[trigger] a[i].0, 0) is Some by {
            assert(key_index(prev, a[i].0, 0) is Some);
        }
        assert forall|i: int| 0 <= i < b.len() implies key_index(r, #[trigger] b[i].0, 0) is Some by {
            if i < b.len() - 1 {
                assert(b.drop_last()[i].0 == b[i].0);
                assert(key_index(prev, b[i].0, 0) is Some);
            }
        }
    }
}

} // verus!
