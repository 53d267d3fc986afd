//! Module configuration layering: a bundled or file tile preset is merged
//! underneath the waybar module's own config, and the module's keys win.
//!
//! JSON values are held as [`Json`]; numbers keep their JSON text.

use vstd::prelude::*;
use crate::strings::str_eq;
use crate::tiles::{get, get_spec, TilePreset};

verus! {

/// A JSON value. An object lists its members in order; a value read from JSON
/// text names each key once, which [`json_wf`] states and [`merge`] keeps.
#[derive(Debug, PartialEq, Eq)]
pub enum Json {
    Null,
    Bool(bool),
    /// A number, as its JSON text.
    Number(String),
    Str(String),
    Array(Vec<Json>),
    Object(Vec<(String, Json)>),
}

/// A JSON value with its text as characters.
pub enum JsonView {
    Null,
    Bool(bool),
    Number(Seq<char>),
    Str(Seq<char>),
    Array(Seq<JsonView>),
    Object(Seq<(Seq<char>, JsonView)>),
}

pub open spec fn json_view(j: Json) -> JsonView
    decreases j,
{
    match j {
        Json::Null => JsonView::Null,
        Json::Bool(b) => JsonView::Bool(b),
        Json::Number(n) => JsonView::Number(n@),
        Json::Str(s) => JsonView::Str(s@),
        Json::Array(v) => JsonView::Array(
            Seq::new(
                v@.len(),
                |i: int|
                    if 0 <= i < v@.len() {
                        proof {
                            assert(decreases_to!(j => v@[i]));
                        }
                        json_view(v@[i])
                    } else {
                        JsonView::Null
                    },
            ),
        ),
        Json::Object(o) => JsonView::Object(
            Seq::new(
                o@.len(),
                |i: int|
                    if 0 <= i < o@.len() {
                        proof {
                            assert(decreases_to!(j => o@[i].1));
                        }
                        (o@[i].0@, json_view(o@[i].1))
                    } else {
                        (Seq::empty(), JsonView::Null)
                    },
            ),
        ),
    }
}

/// The members of an object, each value by its view.
pub open spec fn members_view(m: Seq<(String, Json)>) -> Seq<(Seq<char>, JsonView)> {
    Seq::new(m.len(), |i: int| (m[i].0@, json_view(m[i].1)))
}

/// `i` is the first position of a member named `k`.
pub open spec fn first_key_at(m: Seq<(Seq<char>, JsonView)>, k: Seq<char>, i: int) -> bool {
    &&& 0 <= i < m.len()
    &&& m[i].0 == k
    &&& forall|j: int| 0 <= j < i ==> m[j].0 != k
}

/// Some member is named `k`.
pub open spec fn has_key(m: Seq<(Seq<char>, JsonView)>, k: Seq<char>) -> bool {
    exists|i: int| 0 <= i < m.len() && m[i].0 == k
}

/// The position of the first member named `k`, where there is one.
pub open spec fn key_index(m: Seq<(Seq<char>, JsonView)>, k: Seq<char>) -> int {
    choose|i: int| first_key_at(m, k, i)
}

/// What the first member named `k` holds.
pub open spec fn lookup(m: Seq<(Seq<char>, JsonView)>, k: Seq<char>) -> Option<JsonView> {
    if has_key(m, k) {
        Some(m[key_index(m, k)].1)
    } else {
        None
    }
}

/// No two members share a name (as in a JSON object read by a map).
pub open spec fn unique_keys(m: Seq<(Seq<char>, JsonView)>) -> bool {
    forall|i: int, j: int| 0 <= i < m.len() && 0 <= j < m.len() && i != j ==> m[i].0 != m[j].0
}

/// `over` layered on `base`: two objects merge member by member, recursively;
/// any other value of `over` replaces `base` whole.
pub open spec fn merge_view(base: JsonView, over: JsonView) -> JsonView
    decreases over, 0int,
{
    match (base, over) {
        (JsonView::Object(bs), JsonView::Object(os)) => {
            proof {
                assert(decreases_to!(over => os));
            }
            JsonView::Object(merge_members(bs, os, os.len() as int))
        },
        _ => over,
    }
}

/// The members of `base` after the first `n` members of `over` were merged in,
/// in order: a member already present is merged into in place, a new one is
/// appended.
pub open spec fn merge_members(
    base: Seq<(Seq<char>, JsonView)>,
    over: Seq<(Seq<char>, JsonView)>,
    n: int,
) -> Seq<(Seq<char>, JsonView)>
    decreases over, n,
{
    if n <= 0 || n > over.len() {
        base
    } else {
        let acc = merge_members(base, over, n - 1);
        let k = over[n - 1].0;
        let v = over[n - 1].1;
        proof {
            assert(decreases_to!(over => over[n - 1]));
            assert(decreases_to!(over[n - 1] => over[n - 1].1));
        }
        if has_key(acc, k) {
            let i = key_index(acc, k);
            acc.update(i, (k, merge_view(acc[i].1, v)))
        } else {
            acc.push((k, merge_view(JsonView::Null, v)))
        }
    }
}

proof fn lemma_object_view(o: Vec<(String, Json)>)
    ensures
        json_view(Json::Object(o)) == JsonView::Object(members_view(o@)),
{
    let jv = json_view(Json::Object(o));
    if let JsonView::Object(s) = jv {
        assert(s.len() == o@.len());
        assert forall|i: int| 0 <= i < s.len() implies s[i] == members_view(o@)[i] by {}
        assert(s =~= members_view(o@));
    }
}

/// A copy of `j`, member for member.
pub fn json_copy(j: &Json) -> (r: Json)
    ensures
        json_view(r) == json_view(*j),
    decreases j,
{
    match j {
        Json::Null => Json::Null,
        Json::Bool(b) => Json::Bool(*b),
        Json::Number(n) => Json::Number(n.clone()),
        Json::Str(s) => Json::Str(s.clone()),
        Json::Array(v) => {
            let mut out: Vec<Json> = Vec::new();
            for i in 0..v.len()
                invariant
                    *j == Json::Array(*v),
                    out@.len() == i,
                    forall|t: int| 0 <= t < i ==> json_view(#[trigger] out@[t]) == json_view(v@[t]),
            {
                proof {
                    assert(decreases_to!(*j => j->Array_0));
                    assert(decreases_to!(j->Array_0 => j->Array_0@));
                    assert(decreases_to!(*j => v@[i as int]));
                }
                let c = json_copy(&v[i]);
                out.push(c);
            }
            let r = Json::Array(out);
            assert(json_view(r) == json_view(*j)) by {
                if let JsonView::Array(a) = json_view(r) {
                    if let JsonView::Array(b) = json_view(*j) {
                        assert(a =~= b);
                    }
                }
            }
            r
        },
        Json::Object(o) => {
            let mut out: Vec<(String, Json)> = Vec::new();
            for i in 0..o.len()
                invariant
                    *j == Json::Object(*o),
                    out@.len() == i,
                    forall|t: int|
                        0 <= t < i ==> (#[trigger] out@[t]).0@ == o@[t].0@ && json_view(out@[t].1)
                            == json_view(o@[t].1),
            {
                proof {
                    assert(decreases_to!(*j => j->Object_0));
                    assert(decreases_to!(j->Object_0 => j->Object_0@));
                    assert(decreases_to!(*j => o@[i as int].1));
                }
                let c = json_copy(&o[i].1);
                out.push((o[i].0.clone(), c));
            }
            proof {
                lemma_object_view(out);
                lemma_object_view(*o);
                assert(members_view(out@) =~= members_view(o@));
            }
            Json::Object(out)
        },
    }
}

proof fn lemma_first_key_index(m: Seq<(Seq<char>, JsonView)>, k: Seq<char>, i: int)
    requires
        first_key_at(m, k, i),
    ensures
        has_key(m, k),
        key_index(m, k) == i,
{
    let c = key_index(m, k);
    assert(first_key_at(m, k, c));
    if c < i {
        assert(m[c].0 != k);
    } else if i < c {
        assert(m[i].0 != k);
    }
}

/// The position of the first member of `m` named `k`, if there is one.
fn find_member(m: &Vec<(String, Json)>, k: &str) -> (r: Option<usize>)
    ensures
        match r {
            Some(i) => first_key_at(members_view(m@), k@, i as int),
            None => !has_key(members_view(m@), k@),
        },
{
    for i in 0..m.len()
        invariant
            forall|j: int| 0 <= j < i ==> (#[trigger] m@[j]).0@ != k@,
    {
        if str_eq(m[i].0.as_str(), k) {
            assert(members_view(m@)[i as int].0 == k@);
            return Some(i);
        }
    }
    assert forall|j: int| 0 <= j < members_view(m@).len() implies (#[trigger] members_view(m@)[j]).0
        != k@ by {
        assert(m@[j].0@ != k@);
    }
    None
}

/// Layers `over` on `base`: two objects merge member by member, recursively,
/// so that `over`'s keys win; any other value of `over` replaces `base`.
pub fn merge(base: &mut Json, over: &Json)
    ensures
        json_view(*final(base)) == merge_view(json_view(*old(base)), json_view(*over)),
        json_view(*old(base)) is Object && json_view(*over) is Object && unique_keys(
            json_view(*old(base))->Object_0,
        ) ==> json_view(*final(base)) is Object && unique_keys(json_view(*final(base))->Object_0),
        json_wf(json_view(*old(base))) && json_wf(json_view(*over)) ==> json_wf(json_view(*final(base))),
    decreases over,
{
    let ghost b0 = json_view(*base);
    proof {
        if json_wf(b0) && json_wf(json_view(*over)) {
            merge_keeps_well_formed(b0, json_view(*over));
        }
    }
    let mut b = Json::Null;
    std::mem::swap(&mut b, base);
    match (b, over) {
        (Json::Object(mut bs), Json::Object(os)) => {
            let ghost bs0 = bs@;
            proof {
                lemma_object_view(bs);
                lemma_object_view(*os);
            }
            for i in 0..os.len()
                invariant
                    *over == Json::Object(*os),
                    members_view(bs@) == merge_members(members_view(bs0), members_view(os@), i as int),
            {
                proof {
                    assert(decreases_to!(*over => over->Object_0));
                    assert(decreases_to!(over->Object_0 => over->Object_0@));
                    assert(decreases_to!(*over => os@[i as int].1));
                }
                let ghost acc = members_view(bs@);
                let ghost kv = members_view(os@)[i as int];
                match find_member(&bs, os[i].0.as_str()) {
                    Some(p) => {
                        proof {
                            lemma_first_key_index(acc, kv.0, p as int);
                        }
                        let (k0, mut v0) = bs.remove(p);
                        merge(&mut v0, &os[i].1);
                        bs.insert(p, (k0, v0));
                        assert(members_view(bs@) =~= acc.update(
                            p as int,
                            (kv.0, merge_view(acc[p as int].1, kv.1)),
                        ));
                    },
                    None => {
                        let v0 = json_copy(&os[i].1);
                        bs.push((os[i].0.clone(), v0));
                        assert(members_view(bs@) =~= acc.push((kv.0, merge_view(JsonView::Null, kv.1))));
                    },
                }
            }
            proof {
                lemma_object_view(bs);
                if unique_keys(members_view(bs0)) {
                    merge_keeps_keys_unique(members_view(bs0), members_view(os@));
                }
            }
            *base = Json::Object(bs);
        },
        _ => {
            *base = json_copy(over);
        },
    }
}

proof fn lemma_first_below(m: Seq<(Seq<char>, JsonView)>, k: Seq<char>, i: int)
    requires
        0 <= i < m.len(),
        m[i].0 == k,
    ensures
        exists|f: int| first_key_at(m, k, f),
    decreases i,
{
    if forall|j: int| 0 <= j < i ==> m[j].0 != k {
        assert(first_key_at(m, k, i));
    } else {
        let j = choose|j: int| 0 <= j < i && m[j].0 == k;
        lemma_first_below(m, k, j);
    }
}

proof fn lemma_key_index(m: Seq<(Seq<char>, JsonView)>, k: Seq<char>)
    requires
        has_key(m, k),
    ensures
        first_key_at(m, k, key_index(m, k)),
{
    let i = choose|i: int| 0 <= i < m.len() && m[i].0 == k;
    lemma_first_below(m, k, i);
}

proof fn lemma_same_names(a: Seq<(Seq<char>, JsonView)>, b: Seq<(Seq<char>, JsonView)>, k: Seq<char>)
    requires
        a.len() == b.len(),
        forall|j: int| 0 <= j < a.len() ==> (#[trigger] a[j]).0 == b[j].0,
    ensures
        has_key(a, k) == has_key(b, k),
        has_key(a, k) ==> key_index(a, k) == key_index(b, k),
{
    if has_key(a, k) {
        let i = choose|i: int| 0 <= i < a.len() && a[i].0 == k;
        assert(b[i].0 == k);
        lemma_key_index(a, k);
        let f = key_index(a, k);
        assert(a[f].0 == b[f].0);
        assert forall|j: int| 0 <= j < f implies b[j].0 != k by {
            assert(a[j].0 == b[j].0);
        }
        assert(first_key_at(b, k, f));
        lemma_first_key_index(b, k, f);
    }
    if has_key(b, k) {
        let i = choose|i: int| 0 <= i < b.len() && b[i].0 == k;
        assert(a[i].0 == k);
    }
}

proof fn lemma_push_lookup(m: Seq<(Seq<char>, JsonView)>, k2: Seq<char>, v: JsonView, k: Seq<char>)
    requires
        !has_key(m, k2),
    ensures
        has_key(m.push((k2, v)), k) == (has_key(m, k) || k == k2),
        lookup(m.push((k2, v)), k) == if k == k2 {
            Some(v)
        } else {
            lookup(m, k)
        },
{
    let m2 = m.push((k2, v));
    if k == k2 {
        assert forall|j: int| 0 <= j < m.len() implies m2[j].0 != k by {
            assert(m2[j] == m[j]);
        }
        assert(first_key_at(m2, k, m.len() as int));
        lemma_first_key_index(m2, k, m.len() as int);
    } else {
        if has_key(m, k) {
            lemma_key_index(m, k);
            let f = key_index(m, k);
            assert(first_key_at(m2, k, f));
            lemma_first_key_index(m2, k, f);
        }
        if has_key(m2, k) {
            let i = choose|i: int| 0 <= i < m2.len() && m2[i].0 == k;
            assert(m[i].0 == k);
        }
    }
}

proof fn lemma_update_lookup(m: Seq<(Seq<char>, JsonView)>, k2: Seq<char>, v: JsonView, k: Seq<char>)
    requires
        has_key(m, k2),
    ensures
        has_key(m.update(key_index(m, k2), (k2, v)), k) == has_key(m, k),
        lookup(m.update(key_index(m, k2), (k2, v)), k) == if k == k2 {
            Some(v)
        } else {
            lookup(m, k)
        },
{
    lemma_key_index(m, k2);
    let p = key_index(m, k2);
    let m2 = m.update(p, (k2, v));
    lemma_same_names(m, m2, k);
    if has_key(m, k) {
        lemma_key_index(m, k);
        if k != k2 {
            assert(key_index(m, k) != p);
        }
    }
}

/// Merging only ever adds names: a name is in the merged object exactly when
/// it is in the base or in the layered object.
pub proof fn merge_names(base: Seq<(Seq<char>, JsonView)>, over: Seq<(Seq<char>, JsonView)>, k: Seq<char>)
    ensures
        has_key(merge_members(base, over, over.len() as int), k) == (has_key(base, k) || has_key(over, k)),
{
    lemma_merge_names_prefix(base, over, k, over.len() as int);
    assert(over.take(over.len() as int) =~= over);
}

proof fn lemma_merge_names_prefix(
    base: Seq<(Seq<char>, JsonView)>,
    over: Seq<(Seq<char>, JsonView)>,
    k: Seq<char>,
    n: int,
)
    requires
        0 <= n <= over.len(),
    ensures
        has_key(merge_members(base, over, n), k) == (has_key(base, k) || has_key(over.take(n), k)),
    decreases n,
{
    if n > 0 {
        lemma_merge_names_prefix(base, over, k, n - 1);
        let acc = merge_members(base, over, n - 1);
        let k2 = over[n - 1].0;
        if has_key(acc, k2) {
            lemma_update_lookup(acc, k2, merge_view(acc[key_index(acc, k2)].1, over[n - 1].1), k);
        } else {
            lemma_push_lookup(acc, k2, merge_view(JsonView::Null, over[n - 1].1), k);
        }
        let t = over.take(n);
        let t1 = over.take(n - 1);
        if has_key(t, k) {
            let i = choose|i: int| 0 <= i < t.len() && t[i].0 == k;
            if i < n - 1 {
                assert(t1[i].0 == k);
            }
        }
        if has_key(t1, k) {
            let i = choose|i: int| 0 <= i < t1.len() && t1[i].0 == k;
            assert(t[i].0 == k);
        }
        if k == k2 {
            assert(t[n - 1].0 == k);
        }
    }
}

/// What the first member named `k` holds, or `null` where there is none.
pub open spec fn value_or_null(m: Seq<(Seq<char>, JsonView)>, k: Seq<char>) -> JsonView {
    match lookup(m, k) {
        Some(v) => v,
        None => JsonView::Null,
    }
}

proof fn lemma_take_names(over: Seq<(Seq<char>, JsonView)>, n: int, k: Seq<char>)
    requires
        0 < n <= over.len(),
    ensures
        has_key(over.take(n), k) == (has_key(over.take(n - 1), k) || over[n - 1].0 == k),
{
    let t = over.take(n);
    let t1 = over.take(n - 1);
    if has_key(t, k) {
        let i = choose|i: int| 0 <= i < t.len() && t[i].0 == k;
        if i < n - 1 {
            assert(t1[i].0 == k);
        }
    }
    if has_key(t1, k) {
        let i = choose|i: int| 0 <= i < t1.len() && t1[i].0 == k;
        assert(t[i].0 == k);
    }
    if over[n - 1].0 == k {
        assert(t[n - 1].0 == k);
    }
}

proof fn lemma_merge_lookup_prefix(
    base: Seq<(Seq<char>, JsonView)>,
    over: Seq<(Seq<char>, JsonView)>,
    k: Seq<char>,
    n: int,
)
    requires
        0 <= n <= over.len(),
        unique_keys(over),
    ensures
        lookup(merge_members(base, over, n), k) == if has_key(over.take(n), k) {
            Some(merge_view(value_or_null(base, k), over[key_index(over, k)].1))
        } else {
            lookup(base, k)
        },
    decreases n,
{
    if n > 0 {
        lemma_merge_lookup_prefix(base, over, k, n - 1);
        lemma_take_names(over, n, k);
        let acc = merge_members(base, over, n - 1);
        let k2 = over[n - 1].0;
        let v = over[n - 1].1;
        if k2 == k {
            assert(first_key_at(over, k, n - 1));
            lemma_first_key_index(over, k, n - 1);
            if has_key(over.take(n - 1), k) {
                let t1 = over.take(n - 1);
                let i = choose|i: int| 0 <= i < t1.len() && t1[i].0 == k;
                assert(over[i].0 == over[n - 1].0);
            }
        }
        if has_key(acc, k2) {
            lemma_update_lookup(acc, k2, merge_view(acc[key_index(acc, k2)].1, v), k);
        } else {
            lemma_push_lookup(acc, k2, merge_view(JsonView::Null, v), k);
        }
    }
}

proof fn lemma_merge_keeps_prefix(
    base: Seq<(Seq<char>, JsonView)>,
    over: Seq<(Seq<char>, JsonView)>,
    k: Seq<char>,
    n: int,
)
    requires
        0 <= n <= over.len(),
        !has_key(over, k),
    ensures
        lookup(merge_members(base, over, n), k) == lookup(base, k),
    decreases n,
{
    if n > 0 {
        lemma_merge_keeps_prefix(base, over, k, n - 1);
        let acc = merge_members(base, over, n - 1);
        let k2 = over[n - 1].0;
        let v = over[n - 1].1;
        assert(k2 != k);
        if has_key(acc, k2) {
            lemma_update_lookup(acc, k2, merge_view(acc[key_index(acc, k2)].1, v), k);
        } else {
            lemma_push_lookup(acc, k2, merge_view(JsonView::Null, v), k);
        }
    }
}

/// A member that only the base has keeps its value through a merge.
pub proof fn merge_keeps_base_member(
    base: Seq<(Seq<char>, JsonView)>,
    over: Seq<(Seq<char>, JsonView)>,
    k: Seq<char>,
)
    requires
        !has_key(over, k),
    ensures
        lookup(merge_members(base, over, over.len() as int), k) == lookup(base, k),
{
    lemma_merge_keeps_prefix(base, over, k, over.len() as int);
}

/// A member of the layered object wins: its value is merged onto the base's
/// value for that name (onto `null` where the base has none), so a scalar,
/// array or null of `over` replaces the base's, and an object merges further.
pub proof fn merge_layers_member(
    base: Seq<(Seq<char>, JsonView)>,
    over: Seq<(Seq<char>, JsonView)>,
    k: Seq<char>,
)
    requires
        unique_keys(over),
        has_key(over, k),
    ensures
        lookup(merge_members(base, over, over.len() as int), k) == Some(
            merge_view(value_or_null(base, k), lookup(over, k).unwrap()),
        ),
{
    lemma_merge_lookup_prefix(base, over, k, over.len() as int);
    assert(over.take(over.len() as int) =~= over);
}

/// A value that is not an object on both sides is replaced whole.
pub proof fn merge_replaces_unless_both_objects(base: JsonView, over: JsonView)
    requires
        !(base is Object && over is Object),
    ensures
        merge_view(base, over) == over,
{
}

/// The string held by the member `key` of an object, if it holds a string.
pub open spec fn str_member(raw: JsonView, key: Seq<char>) -> Option<Seq<char>> {
    match raw {
        JsonView::Object(m) => match lookup(m, key) {
            Some(JsonView::Str(s)) => Some(s),
            _ => None,
        },
        _ => None,
    }
}

/// Where the preset to layer under a module config comes from.
pub enum PresetSource {
    /// `tile_file`: a preset file at this path.
    File(String),
    /// `tile`: a bundled preset of that name.
    Bundled(TilePreset),
    /// `tile` names no bundled preset.
    Unknown(String),
    /// The config names no preset.
    Absent,
}

/// Which preset a raw module config asks for: `tile_file` (a path) wins over
/// `tile` (a bundled name); members that do not hold a string are ignored.
pub open spec fn preset_source_ok(raw: JsonView, r: PresetSource) -> bool {
    let file = str_member(raw, "tile_file"@);
    let tile = str_member(raw, "tile"@);
    match r {
        PresetSource::File(p) => file == Some(p@),
        PresetSource::Bundled(t) => file is None && tile is Some && get_spec(tile->0) == Some(t),
        PresetSource::Unknown(n) => file is None && tile == Some(n@) && get_spec(n@) is None,
        PresetSource::Absent => file is None && tile is None,
    }
}

/// The string held by the member `key` of `raw`, if `raw` is an object and
/// that member holds a string.
fn string_member<'a>(raw: &'a Json, key: &str) -> (r: Option<&'a String>)
    ensures
        match r {
            Some(s) => str_member(json_view(*raw), key@) == Some(s@),
            None => str_member(json_view(*raw), key@) is None,
        },
{
    match raw {
        Json::Object(m) => {
            proof {
                lemma_object_view(*m);
            }
            match find_member(m, key) {
                Some(i) => {
                    proof {
                        lemma_first_key_index(members_view(m@), key@, i as int);
                    }
                    match &m[i].1 {
                        Json::Str(s) => Some(s),
                        _ => None,
                    }
                },
                None => None,
            }
        },
        _ => None,
    }
}

/// Which preset `raw` asks for; the caller reads a file preset, parses a
/// bundled one's config, or reports an unknown name.
pub fn preset_source(raw: &Json) -> (r: PresetSource)
    ensures
        preset_source_ok(json_view(*raw), r),
{
    if let Some(path) = string_member(raw, "tile_file") {
        return PresetSource::File(path.clone());
    }
    if let Some(name) = string_member(raw, "tile") {
        return match get(name.as_str()) {
            Some(p) => PresetSource::Bundled(p),
            None => PresetSource::Unknown(name.clone()),
        };
    }
    PresetSource::Absent
}

/// The config to read the module's settings from: the module's own config
/// layered on the preset where there is one, so the module's keys win, and the
/// module's config alone where there is none.
pub fn layer_preset(preset: Option<Json>, raw: Json) -> (r: Json)
    ensures
        json_view(r) == match preset {
            Some(base) => merge_view(json_view(base), json_view(raw)),
            None => json_view(raw),
        },
        json_wf(json_view(raw)) && match preset {
            Some(base) => json_wf(json_view(base)),
            None => true,
        } ==> json_wf(json_view(r)),
{
    match preset {
        Some(mut base) => {
            merge(&mut base, &raw);
            base
        },
        None => raw,
    }
}

proof fn lemma_merge_unique_prefix(
    base: Seq<(Seq<char>, JsonView)>,
    over: Seq<(Seq<char>, JsonView)>,
    n: int,
)
    requires
        0 <= n <= over.len(),
        unique_keys(base),
    ensures
        unique_keys(merge_members(base, over, n)),
    decreases n,
{
    if n > 0 {
        lemma_merge_unique_prefix(base, over, n - 1);
        let acc = merge_members(base, over, n - 1);
        let k = over[n - 1].0;
        let r = merge_members(base, over, n);
        if has_key(acc, k) {
            lemma_key_index(acc, k);
            let p = key_index(acc, k);
            assert forall|i: int, j: int| 0 <= i < r.len() && 0 <= j < r.len() && i != j implies r[i].0
                != r[j].0 by {
                assert(r[i].0 == acc[i].0);
                assert(r[j].0 == acc[j].0);
            }
        } else {
            assert forall|i: int, j: int| 0 <= i < r.len() && 0 <= j < r.len() && i != j implies r[i].0
                != r[j].0 by {
                if i < acc.len() && j < acc.len() {
                    assert(r[i] == acc[i] && r[j] == acc[j]);
                } else if i < acc.len() {
                    assert(r[i] == acc[i]);
                    assert(r[j].0 == k);
                } else {
                    assert(r[j] == acc[j]);
                    assert(r[i].0 == k);
                }
            }
        }
    }
}

/// Merging keeps an object's member names unique: a layered member either
/// merges into the base's member of that name or is appended as a new one.
pub proof fn merge_keeps_keys_unique(base: Seq<(Seq<char>, JsonView)>, over: Seq<(Seq<char>, JsonView)>)
    requires
        unique_keys(base),
    ensures
        unique_keys(merge_members(base, over, over.len() as int)),
{
    lemma_merge_unique_prefix(base, over, over.len() as int);
}

/// A well-formed JSON value: every object, at any depth, names each member
/// once (as a JSON value read into a map does).
pub open spec fn json_wf(j: JsonView) -> bool
    decreases j, 0int,
{
    match j {
        JsonView::Array(items) => {
            proof {
                assert(decreases_to!(j => items));
            }
            items_wf(items, items.len() as int)
        },
        JsonView::Object(m) => {
            proof {
                assert(decreases_to!(j => m));
            }
            unique_keys(m) && members_wf(m, m.len() as int)
        },
        _ => true,
    }
}

/// The first `n` items are well formed.
pub open spec fn items_wf(items: Seq<JsonView>, n: int) -> bool
    decreases items, n,
{
    if n <= 0 || n > items.len() {
        true
    } else {
        proof {
            assert(decreases_to!(items => items[n - 1]));
        }
        items_wf(items, n - 1) && json_wf(items[n - 1])
    }
}

/// The values of the first `n` members are well formed.
pub open spec fn members_wf(m: Seq<(Seq<char>, JsonView)>, n: int) -> bool
    decreases m, n,
{
    if n <= 0 || n > m.len() {
        true
    } else {
        proof {
            assert(decreases_to!(m => m[n - 1]));
            assert(decreases_to!(m[n - 1] => m[n - 1].1));
        }
        members_wf(m, n - 1) && json_wf(m[n - 1].1)
    }
}

proof fn lemma_members_wf_all(m: Seq<(Seq<char>, JsonView)>, n: int)
    requires
        0 <= n <= m.len(),
    ensures
        members_wf(m, n) == (forall|i: int| 0 <= i < n ==> #[trigger] json_wf(m[i].1)),
    decreases n,
{
    if n > 0 {
        lemma_members_wf_all(m, n - 1);
        assert(members_wf(m, n) == (members_wf(m, n - 1) && json_wf(m[n - 1].1)));
        if forall|i: int| 0 <= i < n ==> #[trigger] json_wf(m[i].1) {
            assert(json_wf(m[n - 1].1));
            assert forall|i: int| 0 <= i < n - 1 implies #[trigger] json_wf(m[i].1) by {
                assert(json_wf(m[i].1));
            }
        }
        if members_wf(m, n) {
            assert forall|i: int| 0 <= i < n implies #[trigger] json_wf(m[i].1) by {
                if i < n - 1 {
                    assert(json_wf(m[i].1));
                }
            }
        }
    }
}

proof fn lemma_merge_members_wf(
    base: Seq<(Seq<char>, JsonView)>,
    over: Seq<(Seq<char>, JsonView)>,
    n: int,
)
    requires
        0 <= n <= over.len(),
        forall|i: int| 0 <= i < base.len() ==> #[trigger] json_wf(base[i].1),
        forall|i: int| 0 <= i < over.len() ==> #[trigger] json_wf(over[i].1),
    ensures
        forall|i: int|
            0 <= i < merge_members(base, over, n).len() ==> #[trigger] json_wf(merge_members(base, over, n)[i].1),
    decreases over, n,
{
    if n > 0 {
        lemma_merge_members_wf(base, over, n - 1);
        let acc = merge_members(base, over, n - 1);
        let k = over[n - 1].0;
        let v = over[n - 1].1;
        assert(json_wf(v));
        let r = merge_members(base, over, n);
        assert(decreases_to!(over => over[n - 1]));
        assert(decreases_to!(over[n - 1] => over[n - 1].1));
        if has_key(acc, k) {
            lemma_key_index(acc, k);
            let p = key_index(acc, k);
            assert(json_wf(acc[p].1));
            lemma_merge_wf(acc[p].1, v);
            assert(r == acc.update(p, (k, merge_view(acc[p].1, v))));
            assert forall|i: int| 0 <= i < r.len() implies #[trigger] json_wf(r[i].1) by {
                if i != p {
                    assert(r[i] == acc[i]);
                    assert(json_wf(acc[i].1));
                } else {
                    assert(r[i].1 == merge_view(acc[p].1, v));
                }
            }
        } else {
            assert(r == acc.push((k, merge_view(JsonView::Null, v))));
            assert forall|i: int| 0 <= i < r.len() implies #[trigger] json_wf(r[i].1) by {
                if i < acc.len() {
                    assert(r[i] == acc[i]);
                    assert(json_wf(acc[i].1));
                }
            }
        }
    }
}

proof fn lemma_merge_wf(base: JsonView, over: JsonView)
    requires
        json_wf(base),
        json_wf(over),
    ensures
        json_wf(merge_view(base, over)),
    decreases over, 0int,
{
    match (base, over) {
        (JsonView::Object(bs), JsonView::Object(os)) => {
            assert(decreases_to!(over => os));
            lemma_members_wf_all(bs, bs.len() as int);
            lemma_members_wf_all(os, os.len() as int);
            lemma_merge_members_wf(bs, os, os.len() as int);
            let r = merge_members(bs, os, os.len() as int);
            lemma_members_wf_all(r, r.len() as int);
            merge_keeps_keys_unique(bs, os);
        },
        _ => {},
    }
}

/// Merging keeps JSON well formed: layering a well-formed value on a
/// well-formed base gives a well-formed value.
pub proof fn merge_keeps_well_formed(base: JsonView, over: JsonView)
    requires
        json_wf(base),
        json_wf(over),
    ensures
        json_wf(merge_view(base, over)),
{
    lemma_merge_wf(base, over);
}

} // verus!
