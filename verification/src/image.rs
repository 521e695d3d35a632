//! The image configuration, manifests and indexes that a build writes.
use vstd::prelude::*;
use vstd::string::*;

use crate::error::BuildError;
use crate::json::{
    duplicate_json, jv, jv_items, jv_pairs, keys_sorted, lemma_jv_items_len, lemma_jv_pairs_len,
    lemma_pairs_get_insert, obj_get, obj_insert, pairs_get, pairs_insert, Json, JsonValue,
};
use crate::digest::digest_spec;
use crate::model::{BaseLayer, Image, PlatformImage, RuntimeConfig};
use crate::oci::{
    desc_json, descriptors_json, docker_layer_media, docker_manifest_media, json_bytes,
    json_to_bytes, manifest_json, oci_config_media, oci_layer_media, oci_manifest_media, put_blob,
    string_members, string_members_value, decimal, decimal_spec, Descriptor, LayerBlob, OciPlatform,
    blob_views, desc_view, platform_view, text_pairs,
};
use crate::platform::Platform;
use crate::strmap::{lemma_map_pairs_hold, lemma_map_pairs_members, map_of, map_pairs, sorted_keys, StrMap};
use crate::text::{concat, has_prefix, lemma_seq_lt_irreflexive, lemma_seq_lt_transitive, lemma_seq_lt_trichotomy, seq_lt, split_once, split_once_spec, str_eq, str_lt, views};
use crate::tree::opt_view;

verus! {

/// JSON strings for a list of texts.
pub open spec fn str_items(v: Seq<Seq<char>>) -> Seq<Json>
    decreases v.len(),
{
    if v.len() == 0 {
        Seq::empty()
    } else {
        str_items(v.drop_last()).push(Json::Str(v.last()))
    }
}

/// A JSON array of strings.
pub open spec fn strings_json(v: Seq<Seq<char>>) -> Json {
    Json::Array(str_items(v))
}

pub open spec fn empty_object() -> Json {
    Json::Object(Seq::empty())
}

/// Sets member `k` when a value is given.
pub open spec fn set_opt(ps: Seq<(Seq<char>, Json)>, k: Seq<char>, v: Option<Json>) -> Seq<(Seq<char>, Json)> {
    match v {
        Some(j) => pairs_insert(ps, k, j),
        None => ps,
    }
}

pub open spec fn opt_strings(o: Option<Vec<String>>) -> Option<Json> {
    match o {
        Some(v) => Some(strings_json(views(v@))),
        None => None,
    }
}

pub open spec fn opt_text(o: Option<String>) -> Option<Json> {
    match o {
        Some(s) => Some(Json::Str(s@)),
        None => None,
    }
}

/// The members of an object collected from keys, each with an empty object as its value.
pub open spec fn key_set_pairs(keys: Seq<Seq<char>>) -> Seq<(Seq<char>, Json)>
    decreases keys.len(),
{
    if keys.len() == 0 {
        Seq::empty()
    } else {
        pairs_insert(key_set_pairs(keys.drop_last()), keys.last(), empty_object())
    }
}

pub open spec fn opt_key_set(o: Option<Vec<String>>) -> Option<Json> {
    match o {
        Some(v) => Some(Json::Object(key_set_pairs(views(v@)))),
        None => None,
    }
}

/// The variables that `NAME=VALUE` strings define; a later string wins, other values are
/// skipped.
pub open spec fn env_entries(items: Seq<Json>) -> Map<Seq<char>, Seq<char>>
    decreases items.len(),
{
    if items.len() == 0 {
        Map::empty()
    } else {
        let m = env_entries(items.drop_last());
        match items.last() {
            Json::Str(s) => match split_once_spec(s, '=') {
                Some(nv) => m.insert(nv.0, nv.1),
                None => m,
            },
            _ => m,
        }
    }
}

/// The variables already set in a runtime section.
pub open spec fn inherited_env(runtime: Seq<(Seq<char>, Json)>) -> Map<Seq<char>, Seq<char>> {
    match pairs_get(runtime, "Env"@) {
        Some(Json::Array(items)) => env_entries(items),
        _ => Map::empty(),
    }
}

pub open spec fn string_values(m: Map<Seq<char>, String>) -> Map<Seq<char>, Seq<char>> {
    m.map_values(|s: String| s@)
}

/// The variables after the overrides: the inherited ones, replaced by name.
pub open spec fn merged_env(runtime: Seq<(Seq<char>, Json)>, env: Map<Seq<char>, String>) -> Map<Seq<char>, Seq<char>> {
    inherited_env(runtime).union_prefer_right(string_values(env))
}

/// `NAME=VALUE` strings for variables in name order.
pub open spec fn env_lines(ps: Seq<(Seq<char>, Seq<char>)>) -> Seq<Json>
    decreases ps.len(),
{
    if ps.len() == 0 {
        Seq::empty()
    } else {
        env_lines(ps.drop_last()).push(Json::Str(ps.last().0 + seq!['='] + ps.last().1))
    }
}

/// Label members after setting each label in turn.
pub open spec fn label_pairs(ps: Seq<(Seq<char>, Json)>, labels: Seq<(String, String)>) -> Seq<(Seq<char>, Json)>
    decreases labels.len(),
{
    if labels.len() == 0 {
        ps
    } else {
        pairs_insert(label_pairs(ps, labels.drop_last()), labels.last().0@, Json::Str(labels.last().1@))
    }
}

/// The runtime section with the overrides of `rc`, or the message of the error.
pub open spec fn applied_runtime(rc: RuntimeConfig, runtime: Seq<(Seq<char>, Json)>) -> Result<Seq<(Seq<char>, Json)>, Seq<char>> {
    let r1 = set_opt(runtime, "Entrypoint"@, opt_strings(rc.entrypoint));
    let r2 = set_opt(r1, "Cmd"@, opt_strings(rc.command));
    let r3 = set_opt(r2, "User"@, opt_text(rc.user));
    let r4 = set_opt(r3, "WorkingDir"@, opt_text(rc.workdir));
    let r5 = set_opt(r4, "StopSignal"@, opt_text(rc.stop_signal));
    let r6 = set_opt(r5, "ExposedPorts"@, opt_key_set(rc.expose));
    let r7 = set_opt(r6, "Volumes"@, opt_key_set(rc.volumes));
    let r8 = if rc.env.items().len() == 0 {
        r7
    } else {
        pairs_insert(r7, "Env"@, Json::Array(env_lines(map_pairs(merged_env(r7, rc.env.view())))))
    };
    if rc.labels.items().len() == 0 {
        Ok(r8)
    } else {
        match pairs_get(r8, "Labels"@) {
            None => Ok(pairs_insert(r8, "Labels"@, Json::Object(label_pairs(Seq::empty(), rc.labels.items())))),
            Some(Json::Null) => Ok(pairs_insert(r8, "Labels"@, Json::Object(label_pairs(Seq::empty(), rc.labels.items())))),
            Some(Json::Object(ls)) => Ok(pairs_insert(r8, "Labels"@, Json::Object(label_pairs(ls, rc.labels.items())))),
            _ => Err("base image labels must be an object"@),
        }
    }
}

/// The image configuration with the runtime overrides of `rc`, or the message of the error.
pub open spec fn applied_config(rc: RuntimeConfig, members: Seq<(Seq<char>, Json)>) -> Result<Seq<(Seq<char>, Json)>, Seq<char>> {
    let runtime = match pairs_get(members, "config"@) {
        None => Some(Seq::<(Seq<char>, Json)>::empty()),
        Some(Json::Object(ps)) => Some(ps),
        Some(_) => None,
    };
    match runtime {
        None => Err("base image config must be an object"@),
        Some(rt) => match applied_runtime(rc, rt) {
            Ok(r) => Ok(pairs_insert(members, "config"@, Json::Object(r))),
            Err(m) => Err(m),
        },
    }
}

/// A JSON array of the strings.
pub fn strings_value(v: &Vec<String>) -> (r: JsonValue)
    ensures
        jv(r) == strings_json(views(v@)),
{
    let mut out: Vec<JsonValue> = Vec::new();
    let mut i: usize = 0;
    while i < v.len()
        invariant
            i <= v@.len(),
            jv_items(out@) == str_items(views(v@).take(i as int)),
        decreases v@.len() - i,
    {
        let ghost before = out@;
        out.push(JsonValue::Str(v[i].clone()));
        proof {
            assert(out@.drop_last() =~= before);
            assert(views(v@).take(i + 1).drop_last() =~= views(v@).take(i as int));
            assert(views(v@).take(i + 1).last() == v@[i as int]@);
            assert(jv(out@.last()) == Json::Str(v@[i as int]@));
        }
        i = i + 1;
    }
    assert(views(v@).take(i as int) =~= views(v@));
    JsonValue::Array(out)
}

/// An object with one empty-object member per key.
pub fn key_set_value(keys: &Vec<String>) -> (r: JsonValue)
    ensures
        jv(r) == Json::Object(key_set_pairs(views(keys@))),
{
    let mut out: Vec<(String, JsonValue)> = Vec::new();
    let mut i: usize = 0;
    proof {
        assert(jv_pairs(out@) =~= Seq::<(Seq<char>, Json)>::empty());
    }
    while i < keys.len()
        invariant
            i <= keys@.len(),
            jv_pairs(out@) == key_set_pairs(views(keys@).take(i as int)),
        decreases keys@.len() - i,
    {
        obj_insert(&mut out, keys[i].clone(), JsonValue::Object(Vec::new()));
        proof {
            assert(jv_pairs(Seq::<(String, JsonValue)>::empty()) =~= Seq::<(Seq<char>, Json)>::empty());
            assert(views(keys@).take(i + 1).drop_last() =~= views(keys@).take(i as int));
        }
        i = i + 1;
    }
    assert(views(keys@).take(i as int) =~= views(keys@));
    JsonValue::Object(out)
}

pub open spec fn opt_jv(o: Option<JsonValue>) -> Option<Json> {
    match o {
        Some(v) => Some(jv(v)),
        None => None,
    }
}

/// Sets member `key` when a value is given.
fn set_member(members: &mut Vec<(String, JsonValue)>, key: String, value: Option<JsonValue>)
    ensures
        jv_pairs(final(members)@) == set_opt(jv_pairs(old(members)@), key@, opt_jv(value)),
{
    if let Some(v) = value {
        obj_insert(members, key, v);
    }
}

fn opt_strings_value(o: &Option<Vec<String>>) -> (r: Option<JsonValue>)
    ensures
        opt_jv(r) == opt_strings(*o),
{
    match o {
        Some(v) => Some(strings_value(v)),
        None => None,
    }
}

fn opt_text_value(o: &Option<String>) -> (r: Option<JsonValue>)
    ensures
        opt_jv(r) == opt_text(*o),
{
    match o {
        Some(v) => Some(JsonValue::Str(v.clone())),
        None => None,
    }
}

fn opt_key_set_value(o: &Option<Vec<String>>) -> (r: Option<JsonValue>)
    ensures
        opt_jv(r) == opt_key_set(*o),
{
    match o {
        Some(v) => Some(key_set_value(v)),
        None => None,
    }
}

/// A copy of the members of an object value.
fn object_members(v: &JsonValue) -> (r: Vec<(String, JsonValue)>)
    requires
        v is Object,
    ensures
        jv(*v) == Json::Object(jv_pairs(r@)),
{
    let dup = duplicate_json(v);
    match dup {
        JsonValue::Object(ps) => ps,
        _ => {
            proof {
                assert(false);
            }
            Vec::new()
        },
    }
}

/// The pairs of a map of strings are its items, values taken as text.
proof fn lemma_string_pairs(m: StrMap<String>)
    requires
        m.wf(),
    ensures
        map_pairs(string_values(m.view())).len() == m.items().len(),
        forall|i: int| 0 <= i < m.items().len() ==> #[trigger] map_pairs(string_values(m.view()))[i]
            == (m.items()[i].0@, m.items()[i].1@),
{
    m.lemma_view();
    m.lemma_items_are_map_pairs();
    let sv = string_values(m.view());
    assert(sv.dom() =~= m.view().dom());
    let ks = m.key_seq();
    assert(ks.len() == m.items().len());
    assert forall|i: int| 0 <= i < m.items().len() implies #[trigger] map_pairs(sv)[i]
        == (m.items()[i].0@, m.items()[i].1@) by {
        assert(ks[i] == m.items()[i].0@);
        assert(m.view()[m.items()[i].0@] == m.items()[i].1);
    }
}

impl RuntimeConfig {
    /// The `Env` array: inherited variables of `runtime` with this configuration's
    /// variables set over them, in name order.
    fn env_value(&self, runtime: &Vec<(String, JsonValue)>) -> (r: JsonValue)
        requires
            self.env.wf(),
        ensures
            jv(r) == Json::Array(env_lines(map_pairs(merged_env(jv_pairs(runtime@), self.env.view())))),
    {
        let mut environment: StrMap<String> = StrMap::new();
        let ghost rt = jv_pairs(runtime@);
        proof {
            assert(string_values(environment.view()) =~= Map::<Seq<char>, Seq<char>>::empty());
        }
        match obj_get(runtime, "Env") {
            Some(v) => match v {
                JsonValue::Array(items) => {
                    let mut i: usize = 0;
                    while i < items.len()
                        invariant
                            i <= items@.len(),
                            environment.wf(),
                            string_values(environment.view()) == env_entries(jv_items(items@.take(i as int))),
                        decreases items@.len() - i,
                    {
                        proof {
                            assert(items@.take(i + 1).drop_last() =~= items@.take(i as int));
                            assert(items@.take(i + 1).last() == items@[i as int]);
                            let cur = jv_items(items@.take(i + 1));
                            assert(cur == jv_items(items@.take(i as int)).push(jv(items@[i as int])));
                            assert(cur.drop_last() =~= jv_items(items@.take(i as int)));
                            assert(cur.last() == jv(items@[i as int]));
                        }
                        match &items[i] {
                            JsonValue::Str(text) => match split_once(text.as_str(), '=') {
                                Some((name, value)) => {
                                    let ghost before = environment.view();
                                    environment.insert(name, value);
                                    proof {
                                        assert(string_values(environment.view()) =~= string_values(before).insert(name@, value@));
                                    }
                                },
                                None => {},
                            },
                            _ => {},
                        }
                        i = i + 1;
                    }
                    assert(items@.take(i as int) =~= items@);
                },
                _ => {},
            },
            None => {},
        }
        assert(string_values(environment.view()) == inherited_env(rt));
        let n = self.env.len();
        let mut i: usize = 0;
        proof {
            assert(self.env.items().take(0) =~= Seq::<(String, String)>::empty());
            assert(inherited_env(rt).union_prefer_right(string_values(map_of(self.env.items().take(0)))) =~= inherited_env(rt));
        }
        while i < n
            invariant
                n == self.env.items().len(),
                i <= n,
                environment.wf(),
                self.env.wf(),
                string_values(environment.view()) == inherited_env(rt).union_prefer_right(string_values(map_of(self.env.items().take(i as int)))),
            decreases n - i,
        {
            let (k, v) = self.env.at(i);
            let ghost before = environment.view();
            environment.insert(k.clone(), v.clone());
            proof {
                let items = self.env.items();
                assert(items.take(i + 1).drop_last() =~= items.take(i as int));
                assert(items.take(i + 1).last() == items[i as int]);
                let prev = map_of(items.take(i as int));
                assert(map_of(items.take(i + 1)) == prev.insert(items[i as int].0@, items[i as int].1));
                assert(string_values(prev.insert(k@, *v)) =~= string_values(prev).insert(k@, v@));
                assert(string_values(environment.view()) =~= string_values(before).insert(k@, v@));
                assert(string_values(environment.view()) =~= inherited_env(rt).union_prefer_right(string_values(map_of(items.take(i + 1)))));
            }
            i = i + 1;
        }
        proof {
            assert(self.env.items().take(n as int) =~= self.env.items());
            lemma_string_pairs(environment);
        }
        let ghost merged = string_values(environment.view());
        let m = environment.len();
        let mut lines: Vec<JsonValue> = Vec::new();
        let mut j: usize = 0;
        while j < m
            invariant
                m == environment.items().len(),
                j <= m,
                environment.wf(),
                merged == string_values(environment.view()),
                map_pairs(merged).len() == m,
                forall|x: int| 0 <= x < m ==> #[trigger] map_pairs(merged)[x]
                    == (environment.items()[x].0@, environment.items()[x].1@),
                jv_items(lines@) == env_lines(map_pairs(merged).take(j as int)),
            decreases m - j,
        {
            let (k, v) = environment.at(j);
            let named = concat(k.as_str(), "=");
            let line = concat(named.as_str(), v.as_str());
            let ghost before = lines@;
            lines.push(JsonValue::Str(line));
            proof {
                reveal_strlit("=");
                assert("="@ =~= seq!['=']);
                assert(lines@.drop_last() =~= before);
                let mp = map_pairs(merged);
                assert(mp.take(j + 1).drop_last() =~= mp.take(j as int));
                assert(mp.take(j + 1).last() == mp[j as int]);
                assert(mp[j as int] == (k@, v@));
                assert(env_lines(mp.take(j + 1)) == env_lines(mp.take(j as int)).push(Json::Str(k@ + seq!['='] + v@)));
                assert(jv_items(lines@) == jv_items(before).push(jv(lines@.last())));
            }
            j = j + 1;
        }
        assert(map_pairs(merged).take(m as int) =~= map_pairs(merged));
        JsonValue::Array(lines)
    }

    /// Sets each label of this configuration among the members `labels`.
    fn put_labels(&self, labels: &mut Vec<(String, JsonValue)>)
        ensures
            jv_pairs(final(labels)@) == label_pairs(jv_pairs(old(labels)@), self.labels.items()),
    {
        let ghost start = jv_pairs(labels@);
        let n = self.labels.len();
        let mut i: usize = 0;
        assert(self.labels.items().take(0) =~= Seq::<(String, String)>::empty());
        while i < n
            invariant
                n == self.labels.items().len(),
                i <= n,
                jv_pairs(labels@) == label_pairs(start, self.labels.items().take(i as int)),
            decreases n - i,
        {
            let (k, v) = self.labels.at(i);
            obj_insert(labels, k.clone(), JsonValue::Str(v.clone()));
            proof {
                let items = self.labels.items();
                assert(items.take(i + 1).drop_last() =~= items.take(i as int));
                assert(items.take(i + 1).last() == items[i as int]);
            }
            i = i + 1;
        }
        assert(self.labels.items().take(n as int) =~= self.labels.items());
    }

    /// The runtime section `runtime` with this configuration's overrides written into it.
    fn apply_runtime(&self, runtime: Vec<(String, JsonValue)>) -> (r: Result<Vec<(String, JsonValue)>, BuildError>)
        requires
            self.env.wf(),
        ensures
            match applied_runtime(*self, jv_pairs(runtime@)) {
                Ok(ps) => r matches Ok(v) && jv_pairs(v@) == ps,
                Err(m) => r matches Err(BuildError::Invalid(e)) && e@ == m,
            },
    {
        let mut rt = runtime;
        set_member(&mut rt, "Entrypoint".to_owned(), opt_strings_value(&self.entrypoint));
        set_member(&mut rt, "Cmd".to_owned(), opt_strings_value(&self.command));
        set_member(&mut rt, "User".to_owned(), opt_text_value(&self.user));
        set_member(&mut rt, "WorkingDir".to_owned(), opt_text_value(&self.workdir));
        set_member(&mut rt, "StopSignal".to_owned(), opt_text_value(&self.stop_signal));
        set_member(&mut rt, "ExposedPorts".to_owned(), opt_key_set_value(&self.expose));
        set_member(&mut rt, "Volumes".to_owned(), opt_key_set_value(&self.volumes));
        if self.env.len() > 0 {
            let env = self.env_value(&rt);
            obj_insert(&mut rt, "Env".to_owned(), env);
        }
        if self.labels.len() > 0 {
            let mut labels: Vec<(String, JsonValue)> = match obj_get(&rt, "Labels") {
                None => Vec::new(),
                Some(v) => match v {
                    JsonValue::Null => Vec::new(),
                    JsonValue::Object(_) => object_members(v),
                    _ => {
                        return Err(BuildError::Invalid("base image labels must be an object".to_owned()));
                    },
                },
            };
            proof {
                assert(jv_pairs(Seq::<(String, JsonValue)>::empty()) =~= Seq::<(Seq<char>, Json)>::empty());
            }
            self.put_labels(&mut labels);
            obj_insert(&mut rt, "Labels".to_owned(), JsonValue::Object(labels));
        }
        Ok(rt)
    }

    /// Writes the runtime overrides into the members of an image configuration, under its
    /// `config` member.
    pub fn apply_to(&self, configuration: &mut Vec<(String, JsonValue)>) -> (r: Result<(), BuildError>)
        requires
            self.env.wf(),
        ensures
            match applied_config(*self, jv_pairs(old(configuration)@)) {
                Ok(ps) => r is Ok && jv_pairs(final(configuration)@) == ps,
                Err(m) => r matches Err(BuildError::Invalid(e)) && e@ == m,
            },
    {
        let runtime: Vec<(String, JsonValue)> = match obj_get(configuration, "config") {
            None => Vec::new(),
            Some(v) => match v {
                JsonValue::Object(_) => object_members(v),
                _ => {
                    return Err(BuildError::Invalid("base image config must be an object".to_owned()));
                },
            },
        };
        proof {
            assert(jv_pairs(Seq::<(String, JsonValue)>::empty()) =~= Seq::<(Seq<char>, Json)>::empty());
        }
        match self.apply_runtime(runtime) {
            Ok(rt) => {
                obj_insert(configuration, "config".to_owned(), JsonValue::Object(rt));
                Ok(())
            },
            Err(e) => Err(e),
        }
    }
}

/// The items of the `Env` array in the `config` section of an image configuration; none when
/// it has no such array.
pub open spec fn config_env(members: Seq<(Seq<char>, Json)>) -> Seq<Json> {
    match pairs_get(members, "config"@) {
        Some(Json::Object(rt)) => match pairs_get(rt, "Env"@) {
            Some(Json::Array(items)) => items,
            _ => Seq::empty(),
        },
        _ => Seq::empty(),
    }
}

/// Whether an `Env` item sets the variable `name`.
pub open spec fn sets_variable(item: Json, name: Seq<char>) -> bool {
    item matches Json::Str(s) && has_prefix(s, name + seq!['='])
}

proof fn lemma_pairs_get_other(ps: Seq<(Seq<char>, Json)>, k: Seq<char>, k2: Seq<char>, v: Json)
    requires
        k != k2,
    ensures
        pairs_get(pairs_insert(ps, k2, v), k) == pairs_get(ps, k),
    decreases ps.len(),
{
    let r = pairs_insert(ps, k2, v);
    if ps.len() == 0 {
        assert(r == seq![(k2, v)]);
        assert(r[0].0 != k);
        assert(r.drop_first() =~= Seq::<(Seq<char>, Json)>::empty());
        assert(pairs_get(r, k) == pairs_get(r.drop_first(), k));
    } else if ps[0].0 == k2 {
        assert(r == seq![(k2, v)] + ps.drop_first());
        assert(r[0].0 != k);
        assert(r.drop_first() =~= ps.drop_first());
        assert(pairs_get(r, k) == pairs_get(r.drop_first(), k));
        assert(pairs_get(ps, k) == pairs_get(ps.drop_first(), k));
    } else if seq_lt(k2, ps[0].0) {
        assert(r == seq![(k2, v)] + ps);
        assert(r[0].0 != k);
        assert(r.drop_first() =~= ps);
        assert(pairs_get(r, k) == pairs_get(r.drop_first(), k));
    } else {
        lemma_pairs_get_other(ps.drop_first(), k, k2, v);
        assert(r == seq![ps[0]] + pairs_insert(ps.drop_first(), k2, v));
        assert(r[0] == ps[0]);
        assert(r.drop_first() =~= pairs_insert(ps.drop_first(), k2, v));
        if ps[0].0 != k {
            assert(pairs_get(r, k) == pairs_get(r.drop_first(), k));
            assert(pairs_get(ps, k) == pairs_get(ps.drop_first(), k));
        }
    }
}

proof fn lemma_set_opt_other(ps: Seq<(Seq<char>, Json)>, k: Seq<char>, k2: Seq<char>, v: Option<Json>)
    requires
        k != k2,
    ensures
        pairs_get(set_opt(ps, k2, v), k) == pairs_get(ps, k),
{
    if let Some(j) = v {
        lemma_pairs_get_other(ps, k, k2, j);
    }
}

proof fn lemma_split_assignment(name: Seq<char>, value: Seq<char>)
    requires
        !name.contains('='),
    ensures
        split_once_spec(name + seq!['='] + value, '=') == Some((name, value)),
{
    let s = name + seq!['='] + value;
    assert forall|j: int| 0 <= j < name.len() implies s[j] != '=' by {
        assert(s[j] == name[j]);
    }
    crate::text::lemma_first_index_at(s, '=', name.len() as int);
    assert(s.take(name.len() as int) =~= name);
    assert(s.skip(name.len() as int + 1) =~= value);
}

proof fn lemma_split_sets(s: Seq<char>, name: Seq<char>)
    ensures
        split_once_spec(s, '=') matches Some(nv) && nv.0 == name ==> has_prefix(s, name + seq!['=']),
{
    crate::text::lemma_first_index(s, '=');
    if let Some(i) = crate::text::first_index(s, '=') {
        if s.take(i) == name {
            assert(s.take(name.len() as int + 1) =~= name + seq!['=']);
        }
    }
}

/// The variables that `Env` items define: the last item setting a name gives its value.
proof fn lemma_env_entries_last(items: Seq<Json>, i: int, name: Seq<char>, value: Seq<char>)
    requires
        0 <= i < items.len(),
        items[i] == Json::Str(name + seq!['='] + value),
        !name.contains('='),
        forall|j: int| i < j < items.len() ==> !sets_variable(#[trigger] items[j], name),
    ensures
        env_entries(items).contains_key(name) && env_entries(items)[name] == value,
    decreases items.len(),
{
    lemma_split_assignment(name, value);
    if i < items.len() - 1 {
        let init = items.drop_last();
        assert forall|j: int| i < j < init.len() implies !sets_variable(#[trigger] init[j], name) by {
            assert(init[j] == items[j]);
        }
        lemma_env_entries_last(init, i, name, value);
        assert(!sets_variable(items[items.len() - 1], name));
        if let Json::Str(s) = items.last() {
            lemma_split_sets(s, name);
        }
    }
}

proof fn lemma_env_entries_finite(items: Seq<Json>)
    ensures
        env_entries(items).dom().finite(),
    decreases items.len(),
{
    if items.len() > 0 {
        lemma_env_entries_finite(items.drop_last());
    }
}

proof fn lemma_env_lines(ps: Seq<(Seq<char>, Seq<char>)>, i: int)
    requires
        0 <= i < ps.len(),
    ensures
        env_lines(ps).contains(Json::Str(ps[i].0 + seq!['='] + ps[i].1)),
    decreases ps.len(),
{
    if i < ps.len() - 1 {
        lemma_env_lines(ps.drop_last(), i);
        let l = env_lines(ps.drop_last());
        let k = choose|k: int| 0 <= k < l.len() && l[k] == Json::Str(ps[i].0 + seq!['='] + ps[i].1);
        assert(env_lines(ps)[k] == l[k]);
    } else {
        assert(env_lines(ps)[env_lines(ps.drop_last()).len() as int] == Json::Str(ps.last().0 + seq!['='] + ps.last().1));
    }
}

proof fn lemma_split_prefix(s: Seq<char>, n: Seq<char>)
    requires
        has_prefix(s, n + seq!['=']),
        !n.contains('='),
    ensures
        split_once_spec(s, '=') == Some((n, s.skip(n.len() as int + 1))),
        s == n + seq!['='] + s.skip(n.len() as int + 1),
{
    let rest = s.skip(n.len() as int + 1);
    assert(s =~= n + seq!['='] + rest) by {
        assert forall|j: int| 0 <= j < s.len() implies s[j] == (n + seq!['='] + rest)[j] by {
            if j <= n.len() {
                assert(s[j] == s.take(n.len() as int + 1)[j]);
            }
        }
    }
    lemma_split_assignment(n, rest);
}

proof fn lemma_same_name(k: Seq<char>, v: Seq<char>, n: Seq<char>)
    requires
        !k.contains('='),
        !n.contains('='),
        sets_variable(Json::Str(k + seq!['='] + v), n),
    ensures
        k == n,
{
    let s = k + seq!['='] + v;
    lemma_split_prefix(s, n);
    lemma_split_assignment(k, v);
}

/// Each variable that `Env` items define has a name without `=`, and its value comes from the
/// last item setting it.
proof fn lemma_env_entries_source(items: Seq<Json>)
    ensures
        forall|n: Seq<char>| #[trigger] env_entries(items).contains_key(n) ==> !n.contains('=')
            && exists|i: int| 0 <= i < items.len() && items[i] == Json::Str(n + seq!['='] + env_entries(items)[n])
                && forall|j: int| i < j < items.len() ==> !sets_variable(#[trigger] items[j], n),
    decreases items.len(),
{
    if items.len() > 0 {
        let init = items.drop_last();
        lemma_env_entries_source(init);
        let prev = env_entries(init);
        let e = env_entries(items);
        let last = items.last();
        assert forall|n: Seq<char>| #[trigger] e.contains_key(n) implies !n.contains('=')
            && exists|i: int| 0 <= i < items.len() && items[i] == Json::Str(n + seq!['='] + e[n])
                && forall|j: int| i < j < items.len() ==> !sets_variable(#[trigger] items[j], n) by {
            let parsed = match last {
                Json::Str(s) => split_once_spec(s, '='),
                _ => None,
            };
            if parsed matches Some(nv) && nv.0 == n {
                let s = last->Str_0;
                crate::text::lemma_first_index(s, '=');
                let t = crate::text::first_index(s, '=').unwrap();
                assert(s =~= s.take(t) + seq!['='] + s.skip(t + 1));
                assert(e[n] == s.skip(t + 1));
                assert(items[items.len() - 1] == Json::Str(n + seq!['='] + e[n]));
            } else {
                assert(prev.contains_key(n));
                assert(e[n] == prev[n]);
                let i = choose|i: int| 0 <= i < init.len() && init[i] == Json::Str(n + seq!['='] + prev[n])
                    && forall|j: int| i < j < init.len() ==> !sets_variable(#[trigger] init[j], n);
                assert(items[i] == init[i]);
                assert forall|j: int| i < j < items.len() implies !sets_variable(#[trigger] items[j], n) by {
                    if j < items.len() - 1 {
                        assert(items[j] == init[j]);
                    } else if let Json::Str(s) = last {
                        if has_prefix(s, n + seq!['=']) {
                            lemma_split_prefix(s, n);
                        }
                    }
                }
            }
        }
    }
}

proof fn lemma_env_lines_members(ps: Seq<(Seq<char>, Seq<char>)>)
    ensures
        forall|q: int| 0 <= q < env_lines(ps).len() ==> exists|t: int| 0 <= t < ps.len()
            && #[trigger] env_lines(ps)[q] == Json::Str(ps[t].0 + seq!['='] + ps[t].1),
    decreases ps.len(),
{
    if ps.len() > 0 {
        lemma_env_lines_members(ps.drop_last());
        let l = env_lines(ps);
        let prev = env_lines(ps.drop_last());
        assert forall|q: int| 0 <= q < l.len() implies exists|t: int| 0 <= t < ps.len()
            && #[trigger] l[q] == Json::Str(ps[t].0 + seq!['='] + ps[t].1) by {
            if q < prev.len() {
                assert(l[q] == prev[q]);
                let t = choose|t: int| 0 <= t < ps.drop_last().len() && #[trigger] prev[q] == Json::Str(ps.drop_last()[t].0 + seq!['='] + ps.drop_last()[t].1);
                assert(ps[t] == ps.drop_last()[t]);
            } else {
                assert(l[q] == Json::Str(ps[ps.len() - 1].0 + seq!['='] + ps[ps.len() - 1].1));
            }
        }
    }
}

/// Writing a runtime configuration into an image configuration merges the environment: every
/// variable the image sets is in the resulting `Env` with the image's value, and a variable
/// that the base configuration's `Env` sets (the last item naming it) and the image does not
/// set stays with the base's value.
pub proof fn lemma_env_merge(rc: RuntimeConfig, members: Seq<(Seq<char>, Json)>, i: int, name: Seq<char>, value: Seq<char>)
    requires
        rc.env.wf(),
    ensures
        applied_config(rc, members) matches Ok(result) ==> {
            &&& forall|n: Seq<char>| #[trigger] rc.env.view().contains_key(n)
                ==> config_env(result).contains(Json::Str(n + seq!['='] + rc.env.view()[n]@))
            &&& (0 <= i < config_env(members).len() && config_env(members)[i] == Json::Str(name + seq!['='] + value)
                && !name.contains('=') && !rc.env.view().contains_key(name)
                && forall|j: int| i < j < config_env(members).len() ==> !sets_variable(#[trigger] config_env(members)[j], name))
                ==> config_env(result).contains(Json::Str(name + seq!['='] + value))
            &&& rc.env.items().len() == 0 ==> config_env(result) == config_env(members)
            &&& (forall|n: Seq<char>| #[trigger] rc.env.view().contains_key(n) ==> !n.contains('='))
                ==> forall|n: Seq<char>, q: int| rc.env.view().contains_key(n) && 0 <= q < config_env(result).len()
                    && #[trigger] sets_variable(config_env(result)[q], n)
                    ==> config_env(result)[q] == Json::Str(n + seq!['='] + rc.env.view()[n]@)
            &&& rc.env.items().len() > 0 ==> forall|q: int| 0 <= q < config_env(result).len() ==> exists|n: Seq<char>, v: Seq<char>|
                #[trigger] config_env(result)[q] == Json::Str(n + seq!['='] + v) && (
                    (rc.env.view().contains_key(n) && v == rc.env.view()[n]@)
                    || (!rc.env.view().contains_key(n) && exists|i: int| 0 <= i < config_env(members).len()
                        && config_env(members)[i] == Json::Str(n + seq!['='] + v)
                        && forall|j: int| i < j < config_env(members).len() ==> !sets_variable(#[trigger] config_env(members)[j], n)))
        },
{
    let rt = match pairs_get(members, "config"@) {
        Some(Json::Object(ps)) => ps,
        _ => Seq::<(Seq<char>, Json)>::empty(),
    };
    if let Ok(result) = applied_config(rc, members) {
        assert(pairs_get(members, "config"@) is None || pairs_get(members, "config"@) == Some(Json::Object(rt)));
        let r8_env = "Env"@;
        let r1 = set_opt(rt, "Entrypoint"@, opt_strings(rc.entrypoint));
        let r2 = set_opt(r1, "Cmd"@, opt_strings(rc.command));
        let r3 = set_opt(r2, "User"@, opt_text(rc.user));
        let r4 = set_opt(r3, "WorkingDir"@, opt_text(rc.workdir));
        let r5 = set_opt(r4, "StopSignal"@, opt_text(rc.stop_signal));
        let r6 = set_opt(r5, "ExposedPorts"@, opt_key_set(rc.expose));
        let r7 = set_opt(r6, "Volumes"@, opt_key_set(rc.volumes));
        reveal_strlit("Env");
        reveal_strlit("Entrypoint");
        reveal_strlit("Cmd");
        reveal_strlit("User");
        reveal_strlit("WorkingDir");
        reveal_strlit("StopSignal");
        reveal_strlit("ExposedPorts");
        reveal_strlit("Volumes");
        reveal_strlit("Labels");
        lemma_set_opt_other(rt, r8_env, "Entrypoint"@, opt_strings(rc.entrypoint));
        assert(r8_env != "Cmd"@) by {
            assert(r8_env[0] != "Cmd"@[0]);
        }
        lemma_set_opt_other(r1, r8_env, "Cmd"@, opt_strings(rc.command));
        lemma_set_opt_other(r2, r8_env, "User"@, opt_text(rc.user));
        lemma_set_opt_other(r3, r8_env, "WorkingDir"@, opt_text(rc.workdir));
        lemma_set_opt_other(r4, r8_env, "StopSignal"@, opt_text(rc.stop_signal));
        lemma_set_opt_other(r5, r8_env, "ExposedPorts"@, opt_key_set(rc.expose));
        lemma_set_opt_other(r6, r8_env, "Volumes"@, opt_key_set(rc.volumes));
        assert(pairs_get(r7, r8_env) == pairs_get(rt, r8_env));
        let r8 = if rc.env.items().len() == 0 {
            r7
        } else {
            pairs_insert(r7, "Env"@, Json::Array(env_lines(map_pairs(merged_env(r7, rc.env.view())))))
        };
        let r = applied_runtime(rc, rt)->Ok_0;
        assert(result == pairs_insert(members, "config"@, Json::Object(r)));
        lemma_pairs_get_insert(members, "config"@, Json::Object(r));
        if rc.labels.items().len() > 0 {
            match pairs_get(r8, "Labels"@) {
                Some(Json::Object(ls)) => lemma_pairs_get_other(r8, r8_env, "Labels"@, Json::Object(label_pairs(ls, rc.labels.items()))),
                _ => lemma_pairs_get_other(r8, r8_env, "Labels"@, Json::Object(label_pairs(Seq::empty(), rc.labels.items()))),
            }
        }
        assert(pairs_get(r, r8_env) == pairs_get(r8, r8_env));
        rc.env.lemma_view();
        if rc.env.items().len() == 0 {
            assert(rc.env.view().dom().len() == 0);
            assert forall|n: Seq<char>| #[trigger] rc.env.view().contains_key(n)
                implies config_env(result).contains(Json::Str(n + seq!['='] + rc.env.view()[n]@)) by {
                assert(rc.env.view().dom().contains(n));
            }
            assert(config_env(result) == config_env(members));
        } else {
            let merged = merged_env(r7, rc.env.view());
            let lines = env_lines(map_pairs(merged));
            lemma_pairs_get_insert(r7, "Env"@, Json::Array(lines));
            assert(config_env(result) == lines);
            lemma_env_entries_finite(match pairs_get(r7, r8_env) { Some(Json::Array(items)) => items, _ => Seq::empty() });
            assert(inherited_env(r7).dom().finite());
            assert(string_values(rc.env.view()).dom() =~= rc.env.view().dom());
            assert(merged.dom() =~= inherited_env(r7).dom().union(rc.env.view().dom()));
            assert forall|n: Seq<char>| #[trigger] rc.env.view().contains_key(n)
                implies config_env(result).contains(Json::Str(n + seq!['='] + rc.env.view()[n]@)) by {
                lemma_map_pairs_hold(merged, n);
                let q = choose|q: int| 0 <= q < map_pairs(merged).len() && #[trigger] map_pairs(merged)[q] == (n, merged[n]);
                lemma_env_lines(map_pairs(merged), q);
            }
            if 0 <= i < config_env(members).len() && config_env(members)[i] == Json::Str(name + seq!['='] + value)
                && !name.contains('=') && !rc.env.view().contains_key(name)
                && forall|j: int| i < j < config_env(members).len() ==> !sets_variable(#[trigger] config_env(members)[j], name) {
                let items = config_env(members);
                assert(pairs_get(rt, r8_env) == Some(Json::Array(items)));
                lemma_env_entries_last(items, i, name, value);
                assert(inherited_env(r7) == env_entries(items));
                assert(merged.contains_key(name) && merged[name] == value);
                lemma_map_pairs_hold(merged, name);
                let q = choose|q: int| 0 <= q < map_pairs(merged).len() && #[trigger] map_pairs(merged)[q] == (name, merged[name]);
                lemma_env_lines(map_pairs(merged), q);
            }
            let items = config_env(members);
            assert(pairs_get(rt, r8_env) matches Some(Json::Array(its)) ==> its == items);
            assert(inherited_env(r7) == env_entries(items)) by {
                if !(pairs_get(rt, r8_env) matches Some(Json::Array(_))) {
                    assert(items == Seq::<Json>::empty());
                    assert(env_entries(items) =~= Map::<Seq<char>, Seq<char>>::empty());
                }
            }
            lemma_env_entries_source(items);
            lemma_map_pairs_members(merged);
            lemma_env_lines_members(map_pairs(merged));
            let ps = map_pairs(merged);
            if forall|n: Seq<char>| #[trigger] rc.env.view().contains_key(n) ==> !n.contains('=') {
                assert forall|n: Seq<char>, q: int| rc.env.view().contains_key(n) && 0 <= q < config_env(result).len()
                    && #[trigger] sets_variable(config_env(result)[q], n)
                    implies config_env(result)[q] == Json::Str(n + seq!['='] + rc.env.view()[n]@) by {
                    let t = choose|t: int| 0 <= t < ps.len() && #[trigger] lines[q] == Json::Str(ps[t].0 + seq!['='] + ps[t].1);
                    let k = ps[t].0;
                    assert(merged.contains_key(k));
                    if rc.env.view().contains_key(k) {
                        assert(!k.contains('='));
                    } else {
                        assert(env_entries(items).contains_key(k));
                    }
                    lemma_same_name(k, ps[t].1, n);
                }
            }
            assert forall|q: int| 0 <= q < config_env(result).len() implies exists|n: Seq<char>, v: Seq<char>|
                #[trigger] config_env(result)[q] == Json::Str(n + seq!['='] + v) && (
                    (rc.env.view().contains_key(n) && v == rc.env.view()[n]@)
                    || (!rc.env.view().contains_key(n) && exists|i: int| 0 <= i < config_env(members).len()
                        && config_env(members)[i] == Json::Str(n + seq!['='] + v)
                        && forall|j: int| i < j < config_env(members).len() ==> !sets_variable(#[trigger] config_env(members)[j], n))) by {
                let t = choose|t: int| 0 <= t < ps.len() && #[trigger] lines[q] == Json::Str(ps[t].0 + seq!['='] + ps[t].1);
                let k = ps[t].0;
                assert(merged.contains_key(k));
                if !rc.env.view().contains_key(k) {
                    assert(env_entries(items).contains_key(k));
                    assert(ps[t].1 == env_entries(items)[k]);
                }
            }
        }
    }
}

/// The manifest, configuration and new-layer media types of a platform image, or `None` when
/// its base manifest has a type that cannot be extended.
pub open spec fn media_types(pi: PlatformImage) -> Option<(Seq<char>, Seq<char>, Seq<char>)> {
    match pi.base {
        Some(b) => if b.manifest_media_type@ == docker_manifest_media() {
            Some((b.manifest_media_type@, b.config_media_type@, docker_layer_media()))
        } else if b.manifest_media_type@ == oci_manifest_media() {
            Some((b.manifest_media_type@, b.config_media_type@, oci_layer_media()))
        } else {
            None
        },
        None => Some((oci_manifest_media(), oci_config_media(), oci_layer_media())),
    }
}

pub open spec fn scratch_rootfs() -> Seq<(Seq<char>, Json)> {
    seq![("diff_ids"@, Json::Array(Seq::empty())), ("type"@, Json::Str("layers"@))]
}

/// The configuration of an image built from scratch.
pub open spec fn scratch_config(p: Platform) -> Json {
    Json::Object(
        seq![
            ("architecture"@, Json::Str(p@.architecture)),
            ("config"@, empty_object()),
            ("os"@, Json::Str(p@.os)),
            ("rootfs"@, Json::Object(scratch_rootfs())),
        ],
    )
}

/// The configuration a platform image starts from: its base's, or a scratch one.
pub open spec fn initial_config(pi: PlatformImage) -> Json {
    match pi.base {
        Some(b) => jv(b.config),
        None => scratch_config(pi.platform),
    }
}

/// The members of a configuration, of its `rootfs` and the diff ids it lists; or the message
/// of the error.
pub open spec fn rootfs_parts(config: Json) -> Result<(Seq<(Seq<char>, Json)>, Seq<(Seq<char>, Json)>, Seq<Json>), Seq<char>> {
    match config {
        Json::Object(ps) => {
            let rootfs = match pairs_get(ps, "rootfs"@) {
                None => Some(scratch_rootfs()),
                Some(Json::Object(r)) => Some(r),
                Some(_) => None,
            };
            match rootfs {
                None => Err("base image rootfs must be an object"@),
                Some(r) => if pairs_get(r, "type"@) != Some(Json::Str("layers"@)) {
                    Err("base image rootfs type must be layers"@)
                } else {
                    match pairs_get(r, "diff_ids"@) {
                        None => Ok((ps, r, Seq::empty())),
                        Some(Json::Array(ids)) => Ok((ps, r, ids)),
                        Some(_) => Err("base image diff_ids must be an array"@),
                    }
                },
            }
        },
        _ => Err("base image configuration must be a JSON object"@),
    }
}

pub open spec fn diff_id_items(blobs: Seq<LayerBlob>) -> Seq<Json>
    decreases blobs.len(),
{
    if blobs.len() == 0 {
        Seq::empty()
    } else {
        diff_id_items(blobs.drop_last()).push(Json::Str(blobs.last().diff_id@))
    }
}

/// The diff ids after the new layers: the inherited ones and the new, or only the one
/// flattened layer.
pub open spec fn final_diff_ids(pi: PlatformImage, ids: Seq<Json>, blobs: Seq<LayerBlob>) -> Seq<Json> {
    if pi.flatten {
        diff_id_items(blobs)
    } else {
        ids + diff_id_items(blobs)
    }
}

pub open spec fn history_entry(created_by: Seq<char>) -> Json {
    Json::Object(seq![("created_by"@, Json::Str(created_by))])
}

pub open spec fn created_entries(n: nat) -> Seq<Json> {
    Seq::new(n, |i: int| history_entry("containerless"@))
}

/// The configuration members with the history of the new layers; or the message of the
/// error.
pub open spec fn with_history(pi: PlatformImage, ps: Seq<(Seq<char>, Json)>, n: nat) -> Result<Seq<(Seq<char>, Json)>, Seq<char>> {
    if pi.flatten {
        Ok(pairs_insert(ps, "history"@, Json::Array(seq![history_entry("containerless --flatten"@)])))
    } else if n == 0 {
        Ok(ps)
    } else {
        match pairs_get(ps, "history"@) {
            None => Ok(pairs_insert(ps, "history"@, Json::Array(created_entries(n)))),
            Some(Json::Array(h)) => Ok(pairs_insert(ps, "history"@, Json::Array(h + created_entries(n)))),
            Some(_) => Err("base image history must be an array"@),
        }
    }
}

/// The final configuration members after new layers `blobs`, or the message of the error.
pub open spec fn config_members(pi: PlatformImage, blobs: Seq<LayerBlob>) -> Result<Seq<(Seq<char>, Json)>, Seq<char>> {
    match rootfs_parts(initial_config(pi)) {
        Err(m) => Err(m),
        Ok(parts) => {
            let rootfs = pairs_insert(parts.1, "diff_ids"@, Json::Array(final_diff_ids(pi, parts.2, blobs)));
            let ps1 = pairs_insert(parts.0, "rootfs"@, Json::Object(rootfs));
            match with_history(pi, ps1, blobs.len()) {
                Err(m) => Err(m),
                Ok(ps2) => applied_config(pi.runtime_config, ps2),
            }
        },
    }
}

pub open spec fn base_layer_json(l: BaseLayer) -> Json {
    desc_json(
        l.spec_media_type(),
        digest_spec(l.spec_bytes()),
        l.spec_bytes().len(),
        None,
        string_members(l.spec_annotations().items()),
    )
}

pub open spec fn base_layers_json(ls: Seq<BaseLayer>) -> Seq<Json>
    decreases ls.len(),
{
    if ls.len() == 0 {
        Seq::empty()
    } else {
        base_layers_json(ls.drop_last()).push(base_layer_json(ls.last()))
    }
}

pub open spec fn new_layers_json(media: Seq<char>, blobs: Seq<LayerBlob>) -> Seq<Json>
    decreases blobs.len(),
{
    if blobs.len() == 0 {
        Seq::empty()
    } else {
        new_layers_json(media, blobs.drop_last()).push(
            desc_json(media, blobs.last().digest@, blobs.last().size as nat, None, Seq::empty()),
        )
    }
}

pub open spec fn base_layers(pi: PlatformImage) -> Seq<BaseLayer> {
    match pi.base {
        Some(b) => b.layers@,
        None => Seq::empty(),
    }
}

/// The layer descriptors of the manifest: the base's layers unless flattened, then the new.
pub open spec fn layers_json(pi: PlatformImage, media: Seq<char>, blobs: Seq<LayerBlob>) -> Seq<Json> {
    if pi.flatten {
        new_layers_json(media, blobs)
    } else {
        base_layers_json(base_layers(pi)) + new_layers_json(media, blobs)
    }
}

/// Manifest annotations: the base's, replaced by name by the image's own.
pub open spec fn manifest_annotations(pi: PlatformImage) -> Map<Seq<char>, String> {
    match pi.base {
        Some(b) => b.annotations.view().union_prefer_right(pi.annotations.view()),
        None => pi.annotations.view(),
    }
}

pub open spec fn text_members(ps: Seq<(Seq<char>, String)>) -> Seq<(Seq<char>, Json)>
    decreases ps.len(),
{
    if ps.len() == 0 {
        Seq::empty()
    } else {
        text_members(ps.drop_last()).push((ps.last().0, Json::Str(ps.last().1@)))
    }
}

/// The manifest document of a platform image, given its new layers and configuration bytes.
pub open spec fn manifest_doc(pi: PlatformImage, blobs: Seq<LayerBlob>, config: Seq<u8>) -> Json {
    let media = media_types(pi).unwrap();
    manifest_json(
        media.0,
        desc_json(media.1, digest_spec(config), config.len(), None, Seq::empty()),
        layers_json(pi, media.2, blobs),
        text_members(map_pairs(manifest_annotations(pi))),
    )
}

/// Whether every blob of a store is kept under its own digest.
pub open spec fn content_addressed(m: Map<Seq<char>, Vec<u8>>) -> bool {
    forall|k: Seq<char>| #[trigger] m.contains_key(k) ==> digest_spec(m[k]@) == k
}

/// The digests of byte sequences.
pub open spec fn digests(bs: Seq<Seq<u8>>) -> Set<Seq<char>> {
    Set::new(|k: Seq<char>| exists|i: int| 0 <= i < bs.len() && digest_spec(bs[i]) == k)
}

/// The bytes a blob store holds under each digest.
pub open spec fn store_view(m: Map<Seq<char>, Vec<u8>>) -> Map<Seq<char>, Seq<u8>> {
    Map::new(|k: Seq<char>| m.contains_key(k), |k: Seq<char>| m[k]@)
}

/// The store after putting each blob of `w` in order under its digest, keeping a blob already
/// stored under that digest.
pub open spec fn put_all(m: Map<Seq<char>, Seq<u8>>, w: Seq<Seq<u8>>) -> Map<Seq<char>, Seq<u8>>
    decreases w.len(),
{
    if w.len() == 0 {
        m
    } else {
        let m1 = put_all(m, w.drop_last());
        if m1.contains_key(digest_spec(w.last())) {
            m1
        } else {
            m1.insert(digest_spec(w.last()), w.last())
        }
    }
}

/// Putting two runs of blobs is putting the first, then the second.
pub proof fn lemma_put_all_concat(m: Map<Seq<char>, Seq<u8>>, w1: Seq<Seq<u8>>, w2: Seq<Seq<u8>>)
    ensures
        put_all(m, w1 + w2) == put_all(put_all(m, w1), w2),
    decreases w2.len(),
{
    if w2.len() == 0 {
        assert(w1 + w2 =~= w1);
    } else {
        assert((w1 + w2).drop_last() =~= w1 + w2.drop_last());
        assert((w1 + w2).last() == w2.last());
        lemma_put_all_concat(m, w1, w2.drop_last());
    }
}

/// Whether `new` holds the blobs of `old` and the blobs `written`, and nothing else: each
/// written blob under its digest unless a blob was already stored under it.
pub open spec fn stores(old: Map<Seq<char>, Vec<u8>>, new: Map<Seq<char>, Vec<u8>>, written: Seq<Seq<u8>>) -> bool {
    &&& new.dom() == old.dom().union(digests(written))
    &&& forall|k: Seq<char>| #[trigger] old.contains_key(k) ==> new[k] == old[k]
    &&& content_addressed(old) ==> content_addressed(new)
    &&& store_view(new) == put_all(store_view(old), written)
}

pub open spec fn base_layer_bytes(ls: Seq<BaseLayer>) -> Seq<Seq<u8>>
    decreases ls.len(),
{
    if ls.len() == 0 {
        Seq::empty()
    } else {
        base_layer_bytes(ls.drop_last()).push(ls.last().spec_bytes())
    }
}

/// The blobs a platform image's manifest step writes, given its configuration bytes.
pub open spec fn written_blobs(pi: PlatformImage, blobs: Seq<LayerBlob>, config: Seq<u8>) -> Seq<Seq<u8>> {
    let pre = if pi.flatten { Seq::empty() } else { base_layer_bytes(base_layers(pi)) };
    pre + seq![config, json_bytes(manifest_doc(pi, blobs, config))]
}

} // verus!

verus! {

pub proof fn lemma_stores_none(a: Map<Seq<char>, Vec<u8>>)
    ensures
        stores(a, a, Seq::empty()),
{
    assert(digests(Seq::<Seq<u8>>::empty()) =~= Set::<Seq<char>>::empty());
    assert(a.dom() =~= a.dom().union(digests(Seq::<Seq<u8>>::empty())));
    assert(put_all(store_view(a), Seq::empty()) == store_view(a));
}

/// Storing one more blob extends what a store holds by that blob.
pub proof fn lemma_stores_put(
    a: Map<Seq<char>, Vec<u8>>,
    b: Map<Seq<char>, Vec<u8>>,
    c: Map<Seq<char>, Vec<u8>>,
    w: Seq<Seq<u8>>,
    v: Vec<u8>,
)
    requires
        stores(a, b, w),
        c == if b.contains_key(digest_spec(v@)) {
            b
        } else {
            b.insert(digest_spec(v@), v)
        },
    ensures
        stores(a, c, w.push(v@)),
{
    let d = digest_spec(v@);
    let w2 = w.push(v@);
    assert forall|k: Seq<char>| digests(w2).contains(k) <==> digests(w).insert(d).contains(k) by {
        if digests(w).contains(k) {
            let i = choose|i: int| 0 <= i < w.len() && digest_spec(w[i]) == k;
            assert(w2[i] == w[i]);
        }
        if k == d {
            assert(w2[w.len() as int] == v@);
        }
        if digests(w2).contains(k) {
            let i = choose|i: int| 0 <= i < w2.len() && digest_spec(w2[i]) == k;
            if i < w.len() {
                assert(w[i] == w2[i]);
            }
        }
    }
    assert(digests(w2) =~= digests(w).insert(d));
    assert(c.dom() =~= a.dom().union(digests(w2)));
    assert(w2.drop_last() =~= w);
    assert(store_view(b).contains_key(d) == b.contains_key(d));
    if !b.contains_key(d) {
        assert(store_view(c) =~= store_view(b).insert(d, v@));
    }
}

/// The members of a map of strings as string members, in key order.
pub proof fn lemma_text_members(m: StrMap<String>)
    requires
        m.wf(),
    ensures
        string_members(m.items()) == text_members(map_pairs(m.view())),
{
    m.lemma_items_are_map_pairs();
    lemma_string_text_members(m.items());
}

proof fn lemma_string_text_members(items: Seq<(String, String)>)
    ensures
        string_members(items) == text_members(items.map_values(|kv: (String, String)| (kv.0@, kv.1))),
    decreases items.len(),
{
    let f = |kv: (String, String)| (kv.0@, kv.1);
    if items.len() > 0 {
        lemma_string_text_members(items.drop_last());
        assert(items.drop_last().map_values(f) =~= items.map_values(f).drop_last());
    } else {
        assert(items.map_values(f) =~= Seq::<(Seq<char>, String)>::empty());
    }
}

/// A configuration before its new layers, and the media types of the platform image.
pub struct PreparedConfig {
    pub manifest_media_type: String,
    pub config_media_type: String,
    pub layer_media_type: String,
    /// Members of the configuration object.
    pub members: Vec<(String, JsonValue)>,
    /// Members of its `rootfs` object.
    pub rootfs: Vec<(String, JsonValue)>,
    /// The diff ids it lists.
    pub diff_ids: Vec<JsonValue>,
}

/// Whether `p` is what `prepare_config` gives for `pi`.
pub open spec fn prepared_for(pi: PlatformImage, p: PreparedConfig) -> bool {
    &&& media_types(pi) matches Some(media)
    &&& p.manifest_media_type@ == media.0
    &&& p.config_media_type@ == media.1
    &&& p.layer_media_type@ == media.2
    &&& rootfs_parts(initial_config(pi)) matches Ok(parts)
    &&& jv_pairs(p.members@) == parts.0
    &&& jv_pairs(p.rootfs@) == parts.1
    &&& jv_items(p.diff_ids@) == parts.2
}

fn scratch_rootfs_value() -> (r: Vec<(String, JsonValue)>)
    ensures
        jv_pairs(r@) == scratch_rootfs(),
{
    let mut r: Vec<(String, JsonValue)> = Vec::new();
    r.push(("diff_ids".to_owned(), JsonValue::Array(Vec::new())));
    r.push(("type".to_owned(), JsonValue::Str("layers".to_owned())));
    proof {
        lemma_jv_pairs_len(r@);
        assert(jv_items(Seq::<JsonValue>::empty()) =~= Seq::<Json>::empty());
        assert(jv_pairs(r@) =~= scratch_rootfs());
    }
    r
}

fn scratch_config_value(p: &Platform) -> (r: JsonValue)
    ensures
        jv(r) == scratch_config(*p),
{
    let mut r: Vec<(String, JsonValue)> = Vec::new();
    r.push(("architecture".to_owned(), JsonValue::Str(p.architecture().to_owned())));
    r.push(("config".to_owned(), JsonValue::Object(Vec::new())));
    r.push(("os".to_owned(), JsonValue::Str(p.os().to_owned())));
    r.push(("rootfs".to_owned(), JsonValue::Object(scratch_rootfs_value())));
    proof {
        lemma_jv_pairs_len(r@);
        assert(jv_pairs(Seq::<(String, JsonValue)>::empty()) =~= Seq::<(Seq<char>, Json)>::empty());
        assert(jv_pairs(r@) =~= scratch_config(*p)->Object_0);
    }
    JsonValue::Object(r)
}

/// A copy of the items of an array value.
fn array_items(v: &JsonValue) -> (r: Vec<JsonValue>)
    requires
        v is Array,
    ensures
        jv(*v) == Json::Array(jv_items(r@)),
{
    let dup = duplicate_json(v);
    match dup {
        JsonValue::Array(items) => items,
        _ => {
            proof {
                assert(false);
            }
            Vec::new()
        },
    }
}

fn history_value(created_by: &str) -> (r: JsonValue)
    ensures
        jv(r) == history_entry(created_by@),
{
    let mut m: Vec<(String, JsonValue)> = Vec::new();
    m.push(("created_by".to_owned(), JsonValue::Str(created_by.to_owned())));
    proof {
        lemma_jv_pairs_len(m@);
        assert(jv_pairs(m@) =~= history_entry(created_by@)->Object_0);
    }
    JsonValue::Object(m)
}

impl PlatformImage {
    /// The media types and the starting configuration, checked to hold a `rootfs` of
    /// layers with a list of diff ids.
    pub fn prepare_config(&self) -> (r: Result<PreparedConfig, BuildError>)
        ensures
            match media_types(*self) {
                None => r matches Err(BuildError::Unsupported(_)),
                Some(media) => match rootfs_parts(initial_config(*self)) {
                    Err(m) => r matches Err(BuildError::Invalid(e)) && e@ == m,
                    Ok(parts) => r matches Ok(p) && prepared_for(*self, p),
                },
            },
    {
        let (mmt, cmt, lmt, config) = match &self.base {
            Some(b) => {
                let lmt = if str_eq(b.manifest_media_type.as_str(), "application/vnd.docker.distribution.manifest.v2+json") {
                    "application/vnd.docker.image.rootfs.diff.tar.gzip".to_owned()
                } else if str_eq(b.manifest_media_type.as_str(), "application/vnd.oci.image.manifest.v1+json") {
                    "application/vnd.oci.image.layer.v1.tar+gzip".to_owned()
                } else {
                    return Err(BuildError::Unsupported(concat("unsupported base manifest media type ", b.manifest_media_type.as_str())));
                };
                (b.manifest_media_type.clone(), b.config_media_type.clone(), lmt, duplicate_json(&b.config))
            },
            None => (
                "application/vnd.oci.image.manifest.v1+json".to_owned(),
                "application/vnd.oci.image.config.v1+json".to_owned(),
                "application/vnd.oci.image.layer.v1.tar+gzip".to_owned(),
                scratch_config_value(&self.platform),
            ),
        };
        let members = match config {
            JsonValue::Object(ps) => ps,
            _ => {
                return Err(BuildError::Invalid("base image configuration must be a JSON object".to_owned()));
            },
        };
        let rootfs = match obj_get(&members, "rootfs") {
            None => scratch_rootfs_value(),
            Some(v) => match v {
                JsonValue::Object(_) => object_members(v),
                _ => {
                    return Err(BuildError::Invalid("base image rootfs must be an object".to_owned()));
                },
            },
        };
        let is_layers = match obj_get(&rootfs, "type") {
            Some(v) => match v {
                JsonValue::Str(t) => str_eq(t.as_str(), "layers"),
                _ => false,
            },
            None => false,
        };
        if !is_layers {
            return Err(BuildError::Invalid("base image rootfs type must be layers".to_owned()));
        }
        let diff_ids = match obj_get(&rootfs, "diff_ids") {
            None => Vec::new(),
            Some(v) => match v {
                JsonValue::Array(_) => array_items(v),
                _ => {
                    return Err(BuildError::Invalid("base image diff_ids must be an array".to_owned()));
                },
            },
        };
        proof {
            assert(jv_items(diff_ids@) == jv_items(Seq::<JsonValue>::empty()) ==> true);
            assert(jv_items(Seq::<JsonValue>::empty()) =~= Seq::<Json>::empty());
        }
        Ok(PreparedConfig {
            manifest_media_type: mmt,
            config_media_type: cmt,
            layer_media_type: lmt,
            members,
            rootfs,
            diff_ids,
        })
    }
}

/// What the manifest step gives for configuration members `ps`: the manifest descriptor,
/// with the platform it is for.
pub open spec fn manifest_result(pi: PlatformImage, blobs: Seq<LayerBlob>, ps: Seq<(Seq<char>, Json)>, d: Descriptor) -> bool {
    let doc = json_bytes(manifest_doc(pi, blobs, json_bytes(Json::Object(ps))));
    &&& d.media_type@ == media_types(pi).unwrap().0
    &&& d.digest@ == digest_spec(doc)
    &&& d.size == doc.len()
    &&& d.platform matches Some(p)
    &&& p.architecture@ == pi.platform@.architecture
    &&& p.os@ == pi.platform@.os
    &&& opt_view(p.variant) == pi.platform@.variant
    &&& d.annotations.wf()
    &&& d.annotations.items().len() == 0
}

/// The manifest object.
fn manifest_value(media_type: &String, config: &Descriptor, layers: &Vec<Descriptor>, annotations: &StrMap<String>) -> (r: JsonValue)
    ensures
        jv(r) == manifest_json(media_type@, crate::oci::descriptor_json(*config), descriptors_json(layers@), string_members(annotations.items())),
{
    let mut m: Vec<(String, JsonValue)> = Vec::new();
    m.push(("schemaVersion".to_owned(), JsonValue::Number(decimal(2))));
    m.push(("mediaType".to_owned(), JsonValue::Str(media_type.clone())));
    m.push(("config".to_owned(), config.to_json()));
    m.push(("layers".to_owned(), JsonValue::Array(crate::oci::descriptors_value(layers))));
    let ghost four = m@;
    if annotations.len() > 0 {
        m.push(("annotations".to_owned(), JsonValue::Object(string_members_value(annotations))));
    }
    proof {
        assert(decimal_spec(2) =~= seq!['2']);
        lemma_jv_pairs_len(m@);
        lemma_jv_pairs_len(four);
        if annotations.items().len() == 0 {
            assert(string_members(annotations.items()) =~= Seq::<(Seq<char>, Json)>::empty());
        }
        assert(jv_pairs(m@) =~= manifest_json(media_type@, crate::oci::descriptor_json(*config), descriptors_json(layers@), string_members(annotations.items()))->Object_0);
    }
    JsonValue::Object(m)
}

impl PlatformImage {
    /// The descriptors of the manifest's layers, storing the base's layer blobs unless the
    /// image is flattened.
    fn layer_descriptors(&self, media: &String, blobs: &Vec<LayerBlob>, store: &mut StrMap<Vec<u8>>) -> (r: Vec<Descriptor>)
        requires
            old(store).wf(),
        ensures
            final(store).wf(),
            descriptors_json(r@) == layers_json(*self, media@, blobs@),
            stores(old(store).view(), final(store).view(), if self.flatten {
                Seq::<Seq<u8>>::empty()
            } else {
                base_layer_bytes(base_layers(*self))
            }),
    {
        let mut layers: Vec<Descriptor> = Vec::new();
        let ghost start = store.view();
        proof {
            lemma_stores_none(start);
            assert(descriptors_json(layers@) =~= Seq::<Json>::empty());
        }
        if !self.flatten {
            match &self.base {
                Some(b) => {
                    let mut i: usize = 0;
                    assert(b.layers@.take(0) =~= Seq::<BaseLayer>::empty());
                    while i < b.layers.len()
                        invariant
                            i <= b.layers@.len(),
                            store.wf(),
                            stores(start, store.view(), base_layer_bytes(b.layers@.take(i as int))),
                            descriptors_json(layers@) == base_layers_json(b.layers@.take(i as int)),
                        decreases b.layers@.len() - i,
                    {
                        let l = &b.layers[i];
                        let bytes = vstd::slice::slice_to_vec(l.bytes());
                        let ghost bv = bytes;
                        let ghost before = store.view();
                        let (digest, size) = put_blob(store, bytes);
                        proof {
                            lemma_stores_put(start, before, store.view(), base_layer_bytes(b.layers@.take(i as int)), bv);
                            assert(b.layers@.take(i + 1).drop_last() =~= b.layers@.take(i as int));
                            assert(b.layers@.take(i + 1).last() == b.layers@[i as int]);
                        }
                        let d = Descriptor {
                            media_type: l.media_type().to_owned(),
                            digest,
                            size,
                            platform: None,
                            annotations: l.annotations().duplicate(),
                        };
                        let ghost prev = layers@;
                        layers.push(d);
                        proof {
                            assert(layers@.drop_last() =~= prev);
                        }
                        i = i + 1;
                    }
                    assert(b.layers@.take(i as int) =~= b.layers@);
                },
                None => {},
            }
        }
        let ghost pre = descriptors_json(layers@);
        assert(pre == if self.flatten { Seq::<Json>::empty() } else { base_layers_json(base_layers(*self)) });
        let mut j: usize = 0;
        assert(pre + new_layers_json(media@, blobs@.take(0)) =~= pre);
        while j < blobs.len()
            invariant
                j <= blobs@.len(),
                descriptors_json(layers@) == pre + new_layers_json(media@, blobs@.take(j as int)),
            decreases blobs@.len() - j,
        {
            let d = Descriptor {
                media_type: media.clone(),
                digest: blobs[j].digest.clone(),
                size: blobs[j].size,
                platform: None,
                annotations: StrMap::new(),
            };
            let ghost prev = layers@;
            layers.push(d);
            proof {
                assert(layers@.drop_last() =~= prev);
                assert(blobs@.take(j + 1).drop_last() =~= blobs@.take(j as int));
                assert(blobs@.take(j + 1).last() == blobs@[j as int]);
                assert(string_members(layers@.last().annotations.items()) =~= Seq::<(Seq<char>, Json)>::empty());
                assert(descriptors_json(layers@) =~= pre + new_layers_json(media@, blobs@.take(j + 1)));
            }
            j = j + 1;
        }
        assert(blobs@.take(j as int) =~= blobs@);
        layers
    }

    /// Records the new layers in the configuration history.
    fn add_history(&self, members: &mut Vec<(String, JsonValue)>, n: usize) -> (r: Result<(), BuildError>)
        ensures
            match with_history(*self, jv_pairs(old(members)@), n as nat) {
                Ok(ps) => r is Ok && jv_pairs(final(members)@) == ps,
                Err(m) => r matches Err(BuildError::Invalid(e)) && e@ == m,
            },
    {
        if self.flatten {
            let mut h: Vec<JsonValue> = Vec::new();
            h.push(history_value("containerless --flatten"));
            proof {
                lemma_jv_items_len(h@);
                assert(jv_items(h@) =~= seq![history_entry("containerless --flatten"@)]);
            }
            obj_insert(members, "history".to_owned(), JsonValue::Array(h));
            Ok(())
        } else if n == 0 {
            Ok(())
        } else {
            let mut h: Vec<JsonValue> = match obj_get(members, "history") {
                None => Vec::new(),
                Some(v) => match v {
                    JsonValue::Array(_) => array_items(v),
                    _ => {
                        return Err(BuildError::Invalid("base image history must be an array".to_owned()));
                    },
                },
            };
            let ghost h0 = jv_items(h@);
            proof {
                assert(jv_items(Seq::<JsonValue>::empty()) =~= Seq::<Json>::empty());
                assert(h0 + created_entries(0) =~= h0);
            }
            let mut i: usize = 0;
            while i < n
                invariant
                    i <= n,
                    jv_items(h@) == h0 + created_entries(i as nat),
                decreases n - i,
            {
                let ghost prev = h@;
                h.push(history_value("containerless"));
                proof {
                    assert(h@.drop_last() =~= prev);
                    assert(jv_items(h@) =~= h0 + created_entries((i + 1) as nat));
                }
                i = i + 1;
            }
            obj_insert(members, "history".to_owned(), JsonValue::Array(h));
            Ok(())
        }
    }

    /// The manifest annotations: the base's with the image's own set over them.
    fn manifest_annotations_value(&self) -> (r: StrMap<String>)
        requires
            self.annotations.wf(),
            self.base matches Some(b) ==> b.annotations.wf(),
        ensures
            r.wf(),
            r.view() == manifest_annotations(*self),
    {
        let mut out: StrMap<String> = match &self.base {
            Some(b) => b.annotations.duplicate(),
            None => StrMap::new(),
        };
        let ghost start = out.view();
        let n = self.annotations.len();
        let mut i: usize = 0;
        proof {
            assert(map_of(self.annotations.items().take(0)) =~= Map::<Seq<char>, String>::empty());
            assert(start.union_prefer_right(Map::<Seq<char>, String>::empty()) =~= start);
        }
        while i < n
            invariant
                n == self.annotations.items().len(),
                i <= n,
                out.wf(),
                out.view() == start.union_prefer_right(map_of(self.annotations.items().take(i as int))),
            decreases n - i,
        {
            let (k, v) = self.annotations.at(i);
            out.insert(k.clone(), v.clone());
            proof {
                let items = self.annotations.items();
                assert(items.take(i + 1).drop_last() =~= items.take(i as int));
                assert(items.take(i + 1).last() == items[i as int]);
                assert(out.view() =~= start.union_prefer_right(map_of(items.take(i + 1))));
            }
            i = i + 1;
        }
        proof {
            assert(self.annotations.items().take(n as int) =~= self.annotations.items());
            if self.base is None {
                assert(start.union_prefer_right(self.annotations.view()) =~= self.annotations.view());
            }
        }
        out
    }

    /// Writes the configuration and manifest of this platform image, given the blobs of its
    /// new layers (one flattened layer when `flatten` is set), and returns the manifest
    /// descriptor.
    pub fn finish_manifest(&self, prepared: PreparedConfig, blobs: &Vec<LayerBlob>, store: &mut StrMap<Vec<u8>>) -> (r: Result<Descriptor, BuildError>)
        requires
            prepared_for(*self, prepared),
            self.flatten ==> blobs@.len() == 1,
            !self.flatten ==> blobs@.len() == self.layers@.len(),
            old(store).wf(),
            self.runtime_config.env.wf(),
            self.annotations.wf(),
            self.base matches Some(b) ==> b.annotations.wf(),
        ensures
            final(store).wf(),
            content_addressed(old(store).view()) ==> content_addressed(final(store).view()),
            match config_members(*self, blobs@) {
                Err(m) => r matches Err(BuildError::Invalid(e)) && e@ == m,
                Ok(ps) => r matches Ok(d) && manifest_result(*self, blobs@, ps, d) && stores(
                    old(store).view(),
                    final(store).view(),
                    written_blobs(*self, blobs@, json_bytes(Json::Object(ps))),
                ),
            },
    {
        let PreparedConfig { manifest_media_type, config_media_type, layer_media_type, members, rootfs, diff_ids } = prepared;
        let mut members = members;
        let mut rootfs = rootfs;
        let mut ids: Vec<JsonValue> = if self.flatten {
            Vec::new()
        } else {
            diff_ids
        };
        let ghost ids0 = jv_items(ids@);
        let mut j: usize = 0;
        proof {
            assert(jv_items(Seq::<JsonValue>::empty()) =~= Seq::<Json>::empty());
            assert(ids0 + diff_id_items(blobs@.take(0)) =~= ids0);
        }
        while j < blobs.len()
            invariant
                j <= blobs@.len(),
                jv_items(ids@) == ids0 + diff_id_items(blobs@.take(j as int)),
            decreases blobs@.len() - j,
        {
            let ghost prev = ids@;
            ids.push(JsonValue::Str(blobs[j].diff_id.clone()));
            proof {
                assert(ids@.drop_last() =~= prev);
                assert(blobs@.take(j + 1).drop_last() =~= blobs@.take(j as int));
                assert(blobs@.take(j + 1).last() == blobs@[j as int]);
                assert(ids@.last() == JsonValue::Str(blobs@[j as int].diff_id));
                assert(jv(ids@.last()) == Json::Str(blobs@[j as int].diff_id@));
                assert(jv_items(ids@) == jv_items(prev).push(Json::Str(blobs@[j as int].diff_id@)));
                assert(diff_id_items(blobs@.take(j + 1)) == diff_id_items(blobs@.take(j as int)).push(Json::Str(blobs@[j as int].diff_id@)));
                assert(jv_items(ids@) =~= ids0 + diff_id_items(blobs@.take(j + 1)));
            }
            j = j + 1;
        }
        proof {
            assert(blobs@.take(j as int) =~= blobs@);
            if self.flatten {
                assert(ids0 + diff_id_items(blobs@) =~= diff_id_items(blobs@));
            }
        }
        obj_insert(&mut rootfs, "diff_ids".to_owned(), JsonValue::Array(ids));
        obj_insert(&mut members, "rootfs".to_owned(), JsonValue::Object(rootfs));
        let layers = self.layer_descriptors(&layer_media_type, blobs, store);
        let ghost after_layers = store.view();
        match self.add_history(&mut members, blobs.len()) {
            Ok(()) => {},
            Err(e) => {
                return Err(e);
            },
        }
        match self.runtime_config.apply_to(&mut members) {
            Ok(()) => {},
            Err(e) => {
                return Err(e);
            },
        }
        let ghost ps = jv_pairs(members@);
        let config_bytes = json_to_bytes(&JsonValue::Object(members));
        let ghost cv = config_bytes;
        let ghost pre = if self.flatten { Seq::<Seq<u8>>::empty() } else { base_layer_bytes(base_layers(*self)) };
        let (config_digest, config_size) = put_blob(store, config_bytes);
        proof {
            lemma_stores_put(old(store).view(), after_layers, store.view(), pre, cv);
        }
        let ghost after_config = store.view();
        let config = Descriptor {
            media_type: config_media_type,
            digest: config_digest,
            size: config_size,
            platform: None,
            annotations: StrMap::new(),
        };
        let annotations = self.manifest_annotations_value();
        proof {
            lemma_text_members(annotations);
            assert(string_members(config.annotations.items()) =~= Seq::<(Seq<char>, Json)>::empty());
        }
        let manifest = manifest_value(&manifest_media_type, &config, &layers, &annotations);
        let manifest_bytes = json_to_bytes(&manifest);
        let ghost mv = manifest_bytes;
        let (digest, size) = put_blob(store, manifest_bytes);
        proof {
            lemma_stores_put(old(store).view(), after_config, store.view(), pre.push(cv@), mv);
            assert(pre.push(cv@).push(mv@) =~= written_blobs(*self, blobs@, json_bytes(Json::Object(ps))));
        }
        let variant = match self.platform.variant() {
            Some(v) => Some(v.to_owned()),
            None => None,
        };
        let platform = OciPlatform {
            architecture: self.platform.architecture().to_owned(),
            os: self.platform.os().to_owned(),
            variant,
        };
        Ok(Descriptor { media_type: manifest_media_type, digest, size, platform: Some(platform), annotations: StrMap::new() })
    }

    /// Writes the configuration and manifest of this platform image, given the blobs of its
    /// new layers, and returns the manifest descriptor.
    pub fn build_manifest(&self, blobs: &Vec<LayerBlob>, store: &mut StrMap<Vec<u8>>) -> (r: Result<Descriptor, BuildError>)
        requires
            self.flatten ==> blobs@.len() == 1,
            !self.flatten ==> blobs@.len() == self.layers@.len(),
            old(store).wf(),
            self.runtime_config.env.wf(),
            self.annotations.wf(),
            self.base matches Some(b) ==> b.annotations.wf(),
        ensures
            final(store).wf(),
            content_addressed(old(store).view()) ==> content_addressed(final(store).view()),
            media_types(*self) is None ==> r matches Err(BuildError::Unsupported(_)),
            media_types(*self) is None || rootfs_parts(initial_config(*self)) is Err ==> final(store).view() == old(store).view(),
            media_types(*self) is Some ==> match config_members(*self, blobs@) {
                Err(m) => r matches Err(BuildError::Invalid(e)) && e@ == m,
                Ok(ps) => r matches Ok(d) && manifest_result(*self, blobs@, ps, d) && stores(
                    old(store).view(),
                    final(store).view(),
                    written_blobs(*self, blobs@, json_bytes(Json::Object(ps))),
                ),
            },
    {
        match self.prepare_config() {
            Ok(prepared) => self.finish_manifest(prepared, blobs, store),
            Err(e) => Err(e),
        }
    }
}

} // verus!

verus! {

pub open spec fn opt_lt(a: Option<Seq<char>>, b: Option<Seq<char>>) -> bool {
    match (a, b) {
        (None, Some(_)) => true,
        (Some(x), Some(y)) => seq_lt(x, y),
        _ => false,
    }
}

/// Platforms in order of operating system, architecture, then variant (none first).
pub open spec fn platform_lt(a: OciPlatform, b: OciPlatform) -> bool {
    ||| seq_lt(a.os@, b.os@)
    ||| a.os@ == b.os@ && seq_lt(a.architecture@, b.architecture@)
    ||| a.os@ == b.os@ && a.architecture@ == b.architecture@ && opt_lt(opt_view(a.variant), opt_view(b.variant))
}

/// Manifest descriptors in order of their platforms.
pub open spec fn desc_lt(a: Descriptor, b: Descriptor) -> bool {
    match (a.platform, b.platform) {
        (Some(p), Some(q)) => platform_lt(p, q),
        _ => false,
    }
}

pub open spec fn sorted_by_platform(s: Seq<Descriptor>) -> bool {
    forall|i: int, j: int| 0 <= i < j < s.len() ==> !desc_lt(#[trigger] s[j], #[trigger] s[i])
}

proof fn lemma_opt_lt(a: Option<Seq<char>>, b: Option<Seq<char>>, c: Option<Seq<char>>)
    ensures
        !(opt_lt(a, b) && opt_lt(b, a)),
        opt_lt(a, b) && opt_lt(b, c) ==> opt_lt(a, c),
{
    match (a, b) {
        (Some(x), Some(y)) => {
            lemma_seq_lt_trichotomy(x, y);
            if let Some(z) = c {
                if seq_lt(x, y) && seq_lt(y, z) {
                    lemma_seq_lt_transitive(x, y, z);
                }
            }
        },
        _ => {},
    }
}

/// The platform order is a strict order.
proof fn lemma_desc_lt(a: Descriptor, b: Descriptor, c: Descriptor)
    ensures
        !(desc_lt(a, b) && desc_lt(b, a)),
        desc_lt(a, b) && desc_lt(b, c) ==> desc_lt(a, c),
{
    if let (Some(p), Some(q)) = (a.platform, b.platform) {
        lemma_seq_lt_trichotomy(p.os@, q.os@);
        lemma_seq_lt_trichotomy(p.architecture@, q.architecture@);
        lemma_seq_lt_irreflexive(p.os@);
        lemma_seq_lt_irreflexive(p.architecture@);
        lemma_opt_lt(opt_view(p.variant), opt_view(q.variant), opt_view(q.variant));
        if let Some(t) = c.platform {
            if desc_lt(a, b) && desc_lt(b, c) {
                lemma_seq_lt_irreflexive(q.os@);
                lemma_seq_lt_irreflexive(q.architecture@);
                if seq_lt(p.os@, q.os@) && seq_lt(q.os@, t.os@) {
                    lemma_seq_lt_transitive(p.os@, q.os@, t.os@);
                }
                if seq_lt(p.architecture@, q.architecture@) && seq_lt(q.architecture@, t.architecture@) {
                    lemma_seq_lt_transitive(p.architecture@, q.architecture@, t.architecture@);
                }
                lemma_opt_lt(opt_view(p.variant), opt_view(q.variant), opt_view(t.variant));
            }
        }
    }
}

fn opt_str_lt(a: &Option<String>, b: &Option<String>) -> (r: bool)
    ensures
        r == opt_lt(opt_view(*a), opt_view(*b)),
{
    match (a, b) {
        (None, Some(_)) => true,
        (Some(x), Some(y)) => str_lt(x.as_str(), y.as_str()),
        _ => false,
    }
}

/// Whether `a` orders before `b` by platform.
fn desc_less(a: &Descriptor, b: &Descriptor) -> (r: bool)
    ensures
        r == desc_lt(*a, *b),
{
    match (&a.platform, &b.platform) {
        (Some(p), Some(q)) => {
            if str_lt(p.os.as_str(), q.os.as_str()) {
                true
            } else if !str_eq(p.os.as_str(), q.os.as_str()) {
                false
            } else if str_lt(p.architecture.as_str(), q.architecture.as_str()) {
                true
            } else if !str_eq(p.architecture.as_str(), q.architecture.as_str()) {
                false
            } else {
                opt_str_lt(&p.variant, &q.variant)
            }
        },
        _ => false,
    }
}

/// Inserts `d` after every descriptor that does not order after it.
pub(crate) fn insert_sorted(v: &mut Vec<Descriptor>, d: Descriptor) -> (p: usize)
    requires
        sorted_by_platform(old(v)@),
    ensures
        sorted_by_platform(final(v)@),
        final(v)@.to_multiset() == old(v)@.to_multiset().insert(d),
        p <= old(v)@.len(),
        final(v)@ == old(v)@.insert(p as int, d),
{
    broadcast use vstd::seq_lib::group_to_multiset_ensures;

    let mut p: usize = 0;
    while p < v.len() && !desc_less(&d, &v[p])
        invariant
            p <= v@.len(),
            v@ == old(v)@,
            forall|k: int| 0 <= k < p ==> !desc_lt(d, #[trigger] v@[k]),
        decreases v@.len() - p,
    {
        p = p + 1;
    }
    let ghost before = v@;
    v.insert(p, d);
    proof {
        assert(v@ == before.insert(p as int, d));
        assert forall|i: int, j: int| 0 <= i < j < v@.len() implies !desc_lt(#[trigger] v@[j], #[trigger] v@[i]) by {
            if j < p {
                assert(v@[i] == before[i] && v@[j] == before[j]);
            } else if j == p {
                assert(v@[i] == before[i]);
                lemma_desc_lt(d, before[i], d);
            } else if i == p {
                assert(v@[j] == before[j - 1]);
                assert(p < before.len());
                assert(desc_lt(d, before[p as int]));
                if j - 1 > p {
                    assert(!desc_lt(before[j - 1], before[p as int]));
                }
                lemma_desc_lt(before[j - 1], d, before[p as int]);
                lemma_desc_lt(d, before[p as int], d);
            } else if i < p {
                assert(v@[i] == before[i] && v@[j] == before[j - 1]);
            } else {
                assert(v@[i] == before[i - 1] && v@[j] == before[j - 1]);
            }
        }
    }
    p
}

/// Whether the inputs of a platform's manifest step are consistent: one blob per layer, or
/// one flattened layer, and well-formed maps.
pub open spec fn platform_inputs(pi: PlatformImage, blobs: Seq<LayerBlob>) -> bool {
    &&& pi.flatten ==> blobs.len() == 1
    &&& !pi.flatten ==> blobs.len() == pi.layers@.len()
    &&& pi.runtime_config.env.wf()
    &&& pi.annotations.wf()
    &&& pi.base matches Some(b) ==> b.annotations.wf()
}

pub open spec fn platform_ok(pi: PlatformImage, blobs: Seq<LayerBlob>) -> bool {
    media_types(pi) is Some && config_members(pi, blobs) is Ok
}

/// Whether `e` is the error of a platform's manifest step.
pub open spec fn platform_error(pi: PlatformImage, blobs: Seq<LayerBlob>, e: BuildError) -> bool {
    match media_types(pi) {
        None => e is Unsupported,
        Some(_) => match config_members(pi, blobs) {
            Err(m) => e matches BuildError::Invalid(x) && x@ == m,
            Ok(_) => false,
        },
    }
}

/// Whether `d` is the manifest descriptor of a platform's manifest step.
pub open spec fn platform_built(pi: PlatformImage, blobs: Seq<LayerBlob>, d: Descriptor) -> bool {
    &&& media_types(pi) is Some
    &&& config_members(pi, blobs) matches Ok(ps)
    &&& manifest_result(pi, blobs, ps, d)
}

/// The blobs a platform's manifest step writes.
pub open spec fn platform_written(pi: PlatformImage, blobs: Seq<LayerBlob>) -> Seq<Seq<u8>> {
    match config_members(pi, blobs) {
        Ok(ps) => written_blobs(pi, blobs, json_bytes(Json::Object(ps))),
        Err(_) => Seq::empty(),
    }
}

pub open spec fn all_written(pis: Seq<PlatformImage>, blobs: Seq<Vec<LayerBlob>>) -> Seq<Seq<u8>>
    decreases pis.len(),
{
    if pis.len() == 0 {
        Seq::empty()
    } else {
        all_written(pis.drop_last(), blobs.drop_last()) + platform_written(pis.last(), blobs.last()@)
    }
}

/// Whether `d` describes the index of `manifests`.
pub open spec fn index_descriptor(d: Descriptor, manifests: Seq<Descriptor>) -> bool {
    let bytes = json_bytes(crate::oci::index_json(descriptors_json(manifests)));
    &&& d.media_type@ == crate::oci::index_media()
    &&& d.digest@ == digest_spec(bytes)
    &&& d.size == bytes.len()
    &&& d.platform is None
    &&& d.annotations.wf()
    &&& d.annotations.items().len() == 0
}

/// Whether `d` is what building `image` gives, with manifests `built` of its platforms in
/// order and `ms` sorted by platform.
pub open spec fn image_built(image: Image, blobs: Seq<Vec<LayerBlob>>, built: Seq<Descriptor>, ms: Seq<Descriptor>, d: Descriptor) -> bool {
    let n = image.platforms@.len();
    &&& built.len() == n
    &&& forall|i: int| 0 <= i < n ==> platform_built(#[trigger] image.platforms@[i], blobs[i]@, built[i])
    &&& ms.to_multiset() == built.to_multiset()
    &&& sorted_by_platform(ms)
    &&& n == 1 ==> d == ms[0]
    &&& n > 1 ==> index_descriptor(d, ms)
}

impl Image {
    /// Builds every platform of the image, given the new layer blobs of each, and returns the
    /// descriptor of its single manifest or of an index of its manifests sorted by platform.
    pub fn build_manifest(&self, blobs: &Vec<Vec<LayerBlob>>, store: &mut StrMap<Vec<u8>>) -> (r: Result<Descriptor, BuildError>)
        requires
            blobs@.len() == self.platforms@.len(),
            forall|i: int| 0 <= i < blobs@.len() ==> platform_inputs(#[trigger] self.platforms@[i], blobs@[i]@),
            old(store).wf(),
        ensures
            final(store).wf(),
            self.platforms@.len() == 0 ==> r matches Err(BuildError::Invalid(_)),
            self.platforms@.len() > 0 ==> (r is Ok <==> forall|i: int| 0 <= i < self.platforms@.len() ==> platform_ok(#[trigger] self.platforms@[i], blobs@[i]@)),
            match r {
                Err(e) => self.platforms@.len() > 0 ==> exists|k: int| 0 <= k < self.platforms@.len()
                    && (forall|i: int| 0 <= i < k ==> platform_ok(#[trigger] self.platforms@[i], blobs@[i]@))
                    && platform_error(self.platforms@[k], blobs@[k]@, e),
                Ok(d) => exists|built: Seq<Descriptor>, ms: Seq<Descriptor>| image_built(*self, blobs@, built, ms, d)
                    && stores(old(store).view(), final(store).view(), all_written(self.platforms@, blobs@) + if self.platforms@.len() > 1 {
                        seq![json_bytes(crate::oci::index_json(descriptors_json(ms)))]
                    } else {
                        Seq::empty()
                    }),
            },
    {
        if self.platforms.len() == 0 {
            let named = concat("image ", self.name.as_str());
            return Err(BuildError::Invalid(concat(named.as_str(), " has no target platforms")));
        }
        let mut manifests: Vec<Descriptor> = Vec::new();
        let ghost mut built: Seq<Descriptor> = Seq::empty();
        let ghost start = store.view();
        proof {
            lemma_stores_none(start);
        }
        let mut i: usize = 0;
        while i < self.platforms.len()
            invariant
                i <= self.platforms@.len(),
                blobs@.len() == self.platforms@.len(),
                forall|x: int| 0 <= x < blobs@.len() ==> platform_inputs(#[trigger] self.platforms@[x], blobs@[x]@),
                store.wf(),
                built.len() == i,
                forall|x: int| 0 <= x < i ==> platform_built(#[trigger] self.platforms@[x], blobs@[x]@, built[x]),
                forall|x: int| 0 <= x < i ==> platform_ok(#[trigger] self.platforms@[x], blobs@[x]@),
                manifests@.to_multiset() == built.to_multiset(),
                sorted_by_platform(manifests@),
                stores(start, store.view(), all_written(self.platforms@.take(i as int), blobs@.take(i as int))),
            decreases self.platforms@.len() - i,
        {
            let pi = &self.platforms[i];
            let ghost before = store.view();
            let built_one = pi.build_manifest(&blobs[i], store);
            match built_one {
                Ok(d) => {
                    proof {
                        assert(platform_inputs(self.platforms@[i as int], blobs@[i as int]@));
                        let pis = self.platforms@.take(i + 1);
                        let bs = blobs@.take(i + 1);
                        assert(pis.drop_last() =~= self.platforms@.take(i as int));
                        assert(bs.drop_last() =~= blobs@.take(i as int));
                        assert(pis.last() == self.platforms@[i as int]);
                        assert(bs.last() == blobs@[i as int]);
                        lemma_stores_concat(start, before, store.view(), all_written(self.platforms@.take(i as int), blobs@.take(i as int)), platform_written(self.platforms@[i as int], blobs@[i as int]@));
                        built = built.push(d);
                        broadcast use vstd::seq_lib::group_to_multiset_ensures;
                    }
                    let _ = insert_sorted(&mut manifests, d);
                },
                Err(e) => {
                    proof {
                        assert(platform_inputs(self.platforms@[i as int], blobs@[i as int]@));
                        assert(!platform_ok(self.platforms@[i as int], blobs@[i as int]@));
                        assert(platform_error(self.platforms@[i as int], blobs@[i as int]@, e));
                    }
                    return Err(e);
                },
            }
            i = i + 1;
        }
        proof {
            assert(self.platforms@.take(i as int) =~= self.platforms@);
            assert(blobs@.take(i as int) =~= blobs@);
        }
        if manifests.len() == 1 {
            let ghost m0 = manifests@;
            let d = manifests.remove(0);
            proof {
                broadcast use vstd::seq_lib::group_to_multiset_ensures;
                assert(m0 =~= seq![d]);
                assert(m0.to_multiset().len() == built.to_multiset().len());
                assert(built.len() == 1);
                assert(image_built(*self, blobs@, built, seq![d], d));
                assert(all_written(self.platforms@, blobs@) + Seq::<Seq<u8>>::empty() =~= all_written(self.platforms@, blobs@));
            }
            return Ok(d);
        }
        let ghost ms = manifests@;
        let bytes = crate::oci::index_bytes(&manifests);
        let ghost bv = bytes;
        let ghost before = store.view();
        let (digest, size) = put_blob(store, bytes);
        proof {
            lemma_stores_put(start, before, store.view(), all_written(self.platforms@, blobs@), bv);
            assert(all_written(self.platforms@, blobs@).push(bv@) =~= all_written(self.platforms@, blobs@) + seq![json_bytes(crate::oci::index_json(descriptors_json(ms)))]);
        }
        let d = Descriptor {
            media_type: "application/vnd.oci.image.index.v1+json".to_owned(),
            digest,
            size,
            platform: None,
            annotations: StrMap::new(),
        };
        proof {
            broadcast use vstd::seq_lib::group_to_multiset_ensures;
            assert(ms.to_multiset().len() == built.to_multiset().len());
            assert(built.len() > 1);
        }
        assert(image_built(*self, blobs@, built, ms, d));
        Ok(d)
    }
}

/// Two steps of storing compose.
pub proof fn lemma_stores_concat(
    a: Map<Seq<char>, Vec<u8>>,
    b: Map<Seq<char>, Vec<u8>>,
    c: Map<Seq<char>, Vec<u8>>,
    w1: Seq<Seq<u8>>,
    w2: Seq<Seq<u8>>,
)
    requires
        stores(a, b, w1),
        stores(b, c, w2),
    ensures
        stores(a, c, w1 + w2),
{
    let w = w1 + w2;
    assert forall|k: Seq<char>| digests(w).contains(k) <==> digests(w1).union(digests(w2)).contains(k) by {
        if digests(w1).contains(k) {
            let i = choose|i: int| 0 <= i < w1.len() && digest_spec(w1[i]) == k;
            assert(w[i] == w1[i]);
        }
        if digests(w2).contains(k) {
            let i = choose|i: int| 0 <= i < w2.len() && digest_spec(w2[i]) == k;
            assert(w[w1.len() + i] == w2[i]);
        }
        if digests(w).contains(k) {
            let i = choose|i: int| 0 <= i < w.len() && digest_spec(w[i]) == k;
            if i < w1.len() {
                assert(w1[i] == w[i]);
            } else {
                assert(w2[i - w1.len()] == w[i]);
            }
        }
    }
    assert(c.dom() =~= a.dom().union(digests(w)));
    assert forall|k: Seq<char>| #[trigger] a.contains_key(k) implies c[k] == a[k] by {
        assert(b.dom().contains(k));
        assert(b.contains_key(k));
    }
    lemma_put_all_concat(store_view(a), w1, w2);
}

} // verus!

verus! {

/// The diff ids of new layers depend on the blobs' abstract values alone.
proof fn lemma_diff_ids_view(a: Seq<LayerBlob>, b: Seq<LayerBlob>)
    requires
        blob_views(a) == blob_views(b),
    ensures
        diff_id_items(a) == diff_id_items(b),
    decreases a.len(),
{
    assert(a.len() == blob_views(a).len() && b.len() == blob_views(b).len());
    if a.len() > 0 {
        assert(blob_views(a.drop_last()) =~= blob_views(a).drop_last());
        assert(blob_views(b.drop_last()) =~= blob_views(b).drop_last());
        lemma_diff_ids_view(a.drop_last(), b.drop_last());
        assert(blob_views(a)[a.len() - 1] == blob_views(b)[a.len() - 1]);
    }
}

/// The descriptors of new layers depend on the blobs' abstract values alone.
proof fn lemma_new_layers_view(media: Seq<char>, a: Seq<LayerBlob>, b: Seq<LayerBlob>)
    requires
        blob_views(a) == blob_views(b),
    ensures
        new_layers_json(media, a) == new_layers_json(media, b),
    decreases a.len(),
{
    assert(a.len() == blob_views(a).len() && b.len() == blob_views(b).len());
    if a.len() > 0 {
        assert(blob_views(a.drop_last()) =~= blob_views(a).drop_last());
        assert(blob_views(b.drop_last()) =~= blob_views(b).drop_last());
        lemma_new_layers_view(media, a.drop_last(), b.drop_last());
        assert(blob_views(a)[a.len() - 1] == blob_views(b)[a.len() - 1]);
    }
}

/// A platform image's configuration and manifest depend on its new blobs' abstract values
/// alone.
pub proof fn lemma_platform_docs_view(pi: PlatformImage, a: Seq<LayerBlob>, b: Seq<LayerBlob>)
    requires
        blob_views(a) == blob_views(b),
    ensures
        config_members(pi, a) == config_members(pi, b),
        forall|c: Seq<u8>| #[trigger] manifest_doc(pi, a, c) == manifest_doc(pi, b, c),
{
    assert(a.len() == blob_views(a).len() && b.len() == blob_views(b).len());
    lemma_diff_ids_view(a, b);
    lemma_new_layers_view(media_types(pi).unwrap().2, a, b);
    assert forall|c: Seq<u8>| #[trigger] manifest_doc(pi, a, c) == manifest_doc(pi, b, c) by {
        assert(layers_json(pi, media_types(pi).unwrap().2, a) == layers_json(pi, media_types(pi).unwrap().2, b));
    }
}

/// What a platform's manifest step writes depends on its new blobs' abstract values alone.
pub proof fn lemma_platform_written_view(pi: PlatformImage, a: Seq<LayerBlob>, b: Seq<LayerBlob>)
    requires
        blob_views(a) == blob_views(b),
    ensures
        platform_written(pi, a) == platform_written(pi, b),
{
    lemma_platform_docs_view(pi, a, b);
    if let Ok(ps) = config_members(pi, a) {
        assert(manifest_doc(pi, a, json_bytes(Json::Object(ps))) == manifest_doc(pi, b, json_bytes(Json::Object(ps))));
    }
}

/// A platform's manifest built from blobs with the same abstract values has the same
/// abstract descriptor.
pub proof fn lemma_platform_built_view(pi: PlatformImage, a: Seq<LayerBlob>, b: Seq<LayerBlob>, d1: Descriptor, d2: Descriptor)
    requires
        blob_views(a) == blob_views(b),
        platform_built(pi, a, d1),
        platform_built(pi, b, d2),
    ensures
        desc_view(d1) == desc_view(d2),
        d1.platform matches Some(p) && platform_view(p) == (pi.platform@.architecture, pi.platform@.os, pi.platform@.variant),
{
    lemma_platform_docs_view(pi, a, b);
    let ps = config_members(pi, a)->Ok_0;
    assert(manifest_doc(pi, a, json_bytes(Json::Object(ps))) == manifest_doc(pi, b, json_bytes(Json::Object(ps))));
    assert(text_pairs(d1.annotations.items()) =~= text_pairs(d2.annotations.items()));
}

/// Manifests with the same abstract values order alike.
proof fn lemma_desc_lt_view(a1: Descriptor, b1: Descriptor, a2: Descriptor, b2: Descriptor)
    requires
        desc_view(a1) == desc_view(a2),
        desc_view(b1) == desc_view(b2),
    ensures
        desc_lt(a1, b1) == desc_lt(a2, b2),
{
    match (a1.platform, b1.platform, a2.platform, b2.platform) {
        (Some(p1), Some(q1), Some(p2), Some(q2)) => {
            assert(platform_view(p1) == platform_view(p2));
            assert(platform_view(q1) == platform_view(q2));
        },
        _ => {},
    }
}

/// Manifests for different platforms are ordered one way or the other.
proof fn lemma_desc_lt_total(a: Descriptor, b: Descriptor)
    requires
        a.platform is Some,
        b.platform is Some,
        platform_view(a.platform->0) != platform_view(b.platform->0),
    ensures
        desc_lt(a, b) || desc_lt(b, a),
{
    let p = a.platform->0;
    let q = b.platform->0;
    lemma_seq_lt_trichotomy(p.os@, q.os@);
    lemma_seq_lt_trichotomy(p.architecture@, q.architecture@);
    match (opt_view(p.variant), opt_view(q.variant)) {
        (Some(x), Some(y)) => lemma_seq_lt_trichotomy(x, y),
        _ => {},
    }
}

/// Whether manifests are for pairwise different platforms.
pub open spec fn distinct_platforms(s: Seq<Descriptor>) -> bool {
    &&& forall|i: int| 0 <= i < s.len() ==> (#[trigger] s[i]).platform is Some
    &&& forall|i: int, j: int| 0 <= i < j < s.len()
        ==> platform_view((#[trigger] s[i]).platform->0) != platform_view((#[trigger] s[j]).platform->0)
}

/// Sorting manifests for pairwise different platforms by platform gives one order: manifests
/// with the same abstract values sort to the same abstract values.
pub proof fn lemma_sorted_by_platform_views(ms1: Seq<Descriptor>, b1: Seq<Descriptor>, ms2: Seq<Descriptor>, b2: Seq<Descriptor>)
    requires
        ms1.to_multiset() == b1.to_multiset(),
        ms2.to_multiset() == b2.to_multiset(),
        sorted_by_platform(ms1),
        sorted_by_platform(ms2),
        b1.len() == b2.len(),
        forall|i: int| 0 <= i < b1.len() ==> desc_view(#[trigger] b1[i]) == desc_view(b2[i]),
        distinct_platforms(b1),
    ensures
        ms1.len() == ms2.len(),
        forall|i: int| 0 <= i < ms1.len() ==> desc_view(#[trigger] ms1[i]) == desc_view(ms2[i]),
    decreases b1.len(),
{
    broadcast use vstd::seq_lib::group_to_multiset_ensures;

    assert(ms1.to_multiset().len() == ms1.len() && b1.to_multiset().len() == b1.len());
    assert(ms2.to_multiset().len() == ms2.len() && b2.to_multiset().len() == b2.len());
    if b1.len() > 0 {
        assert(b2.len() > 0);
        assert(ms1.to_multiset().count(ms1[0]) > 0);
        assert(b1.contains(ms1[0]));
        let a = choose|a: int| 0 <= a < b1.len() && b1[a] == ms1[0];
        assert(ms2.to_multiset().count(ms2[0]) > 0);
        assert(b2.contains(ms2[0]));
        let c = choose|c: int| 0 <= c < b2.len() && b2[c] == ms2[0];
        if a != c {
            assert(b1.to_multiset().count(b1[c]) > 0);
            assert(ms1.contains(b1[c]));
            let j = choose|j: int| 0 <= j < ms1.len() && ms1[j] == b1[c];
            if a < c {
                assert(platform_view(b1[a].platform->0) != platform_view(b1[c].platform->0));
            } else {
                assert(platform_view(b1[c].platform->0) != platform_view(b1[a].platform->0));
            }
            assert(j != 0);
            assert(!desc_lt(ms1[j], ms1[0]));
            lemma_desc_lt_total(b1[a], b1[c]);
            assert(desc_lt(b1[a], b1[c]));
            assert(b2.to_multiset().count(b2[a]) > 0);
            assert(ms2.contains(b2[a]));
            let k = choose|k: int| 0 <= k < ms2.len() && ms2[k] == b2[a];
            assert(desc_view(b2[a]) == desc_view(b1[a]));
            assert(desc_view(b2[c]) == desc_view(b1[c]));
            if k == 0 {
                assert(desc_view(b2[a]) == desc_view(b2[c]));
                assert(platform_view(b1[a].platform->0) == platform_view(b1[c].platform->0));
            }
            assert(!desc_lt(ms2[k], ms2[0]));
            lemma_desc_lt_view(b1[a], b1[c], b2[a], b2[c]);
            lemma_desc_lt_view(b1[c], b1[a], b2[c], b2[a]);
            lemma_desc_lt(b2[a], b2[c], b2[a]);
        }
        let r1 = ms1.drop_first();
        let r2 = ms2.drop_first();
        let c1 = b1.remove(a);
        let c2 = b2.remove(a);
        assert(r1 =~= ms1.remove(0));
        assert(r2 =~= ms2.remove(0));
        assert(r1.to_multiset() == c1.to_multiset());
        assert(r2.to_multiset() == c2.to_multiset());
        assert forall|i: int, j: int| 0 <= i < j < r1.len() implies !desc_lt(#[trigger] r1[j], #[trigger] r1[i]) by {
            assert(r1[i] == ms1[i + 1] && r1[j] == ms1[j + 1]);
        }
        assert forall|i: int, j: int| 0 <= i < j < r2.len() implies !desc_lt(#[trigger] r2[j], #[trigger] r2[i]) by {
            assert(r2[i] == ms2[i + 1] && r2[j] == ms2[j + 1]);
        }
        assert forall|i: int| 0 <= i < c1.len() implies desc_view(#[trigger] c1[i]) == desc_view(c2[i]) by {
            if i < a {
                assert(c1[i] == b1[i] && c2[i] == b2[i]);
            } else {
                assert(c1[i] == b1[i + 1] && c2[i] == b2[i + 1]);
            }
        }
        assert forall|i: int, j: int| 0 <= i < j < c1.len()
            implies platform_view((#[trigger] c1[i]).platform->0) != platform_view((#[trigger] c1[j]).platform->0) by {
            let x = if i < a { i } else { i + 1 };
            let y = if j < a { j } else { j + 1 };
            assert(c1[i] == b1[x] && c1[j] == b1[y]);
            assert(x < y);
        }
        assert forall|i: int| 0 <= i < c1.len() implies (#[trigger] c1[i]).platform is Some by {
            let x = if i < a { i } else { i + 1 };
            assert(c1[i] == b1[x]);
        }
        lemma_sorted_by_platform_views(r1, c1, r2, c2);
        assert forall|i: int| 0 <= i < ms1.len() implies desc_view(#[trigger] ms1[i]) == desc_view(ms2[i]) by {
            if i > 0 {
                assert(ms1[i] == r1[i - 1] && ms2[i] == r2[i - 1]);
            } else {
                assert(ms2[0] == b2[a]);
            }
        }
    }
}

} // verus!

verus! {

/// The descriptors of base layers are those of each layer, in order.
proof fn lemma_base_layers_json(ls: Seq<BaseLayer>)
    ensures
        base_layers_json(ls).len() == ls.len(),
        forall|i: int| 0 <= i < ls.len() ==> #[trigger] base_layers_json(ls)[i] == base_layer_json(ls[i]),
    decreases ls.len(),
{
    if ls.len() > 0 {
        lemma_base_layers_json(ls.drop_last());
    }
}

/// A manifest that is not flattened lists every base layer verbatim (its media type, digest,
/// size and annotations), in order, before the new layers.
pub proof fn lemma_manifest_keeps_base_layers(pi: PlatformImage, media: Seq<char>, blobs: Seq<LayerBlob>)
    requires
        !pi.flatten,
    ensures
        layers_json(pi, media, blobs).len() == base_layers(pi).len() + blobs.len(),
        forall|i: int| 0 <= i < base_layers(pi).len() ==> #[trigger] layers_json(pi, media, blobs)[i] == base_layer_json(base_layers(pi)[i]),
        layers_json(pi, media, blobs).skip(base_layers(pi).len() as int) == new_layers_json(media, blobs),
{
    lemma_base_layers_json(base_layers(pi));
    lemma_new_layers_len(media, blobs);
    let b = base_layers_json(base_layers(pi));
    assert((b + new_layers_json(media, blobs)).skip(b.len() as int) =~= new_layers_json(media, blobs));
}

/// The history entries a configuration already holds.
pub open spec fn history_items(ps: Seq<(Seq<char>, Json)>) -> Seq<Json> {
    match pairs_get(ps, "history"@) {
        Some(Json::Array(h)) => h,
        _ => Seq::empty(),
    }
}

/// A build that is not flattened keeps the inherited diff ids and adds one for each new layer,
/// in order; its history keeps the inherited entries and gains one entry for each new layer.
pub proof fn lemma_new_layers_recorded(pi: PlatformImage, ids: Seq<Json>, blobs: Seq<LayerBlob>, ps: Seq<(Seq<char>, Json)>, n: nat)
    requires
        !pi.flatten,
    ensures
        final_diff_ids(pi, ids, blobs).len() == ids.len() + blobs.len(),
        final_diff_ids(pi, ids, blobs).take(ids.len() as int) == ids,
        forall|i: int| 0 <= i < blobs.len() ==> #[trigger] final_diff_ids(pi, ids, blobs)[ids.len() + i] == Json::Str(blobs[i].diff_id@),
        with_history(pi, ps, n) matches Ok(qs) ==> if n == 0 {
            qs == ps
        } else {
            pairs_get(qs, "history"@) == Some(Json::Array(history_items(ps) + created_entries(n)))
        },
{
    lemma_diff_id_items(blobs);
    assert((ids + diff_id_items(blobs)).take(ids.len() as int) =~= ids);
    if n > 0 {
        match pairs_get(ps, "history"@) {
            None => {
                lemma_pairs_get_insert(ps, "history"@, Json::Array(created_entries(n)));
                assert(Seq::<Json>::empty() + created_entries(n) =~= created_entries(n));
            },
            Some(Json::Array(h)) => {
                lemma_pairs_get_insert(ps, "history"@, Json::Array(h + created_entries(n)));
            },
            Some(_) => {},
        }
    }
}

proof fn lemma_diff_id_items(blobs: Seq<LayerBlob>)
    ensures
        diff_id_items(blobs).len() == blobs.len(),
        forall|i: int| 0 <= i < blobs.len() ==> #[trigger] diff_id_items(blobs)[i] == Json::Str(blobs[i].diff_id@),
    decreases blobs.len(),
{
    if blobs.len() > 0 {
        lemma_diff_id_items(blobs.drop_last());
    }
}

proof fn lemma_new_layers_len(media: Seq<char>, blobs: Seq<LayerBlob>)
    ensures
        new_layers_json(media, blobs).len() == blobs.len(),
    decreases blobs.len(),
{
    if blobs.len() > 0 {
        lemma_new_layers_len(media, blobs.drop_last());
    }
}

/// A flattened manifest lists one layer, the flattened blob, and its configuration lists that
/// layer's diff id alone, with a history of one entry created by the flattening.
pub proof fn lemma_flattened_manifest(pi: PlatformImage, media: Seq<char>, ids: Seq<Json>, b: LayerBlob, ps: Seq<(Seq<char>, Json)>, n: nat)
    requires
        pi.flatten,
    ensures
        layers_json(pi, media, seq![b]) == seq![desc_json(media, b.digest@, b.size as nat, None, Seq::empty())],
        final_diff_ids(pi, ids, seq![b]) == seq![Json::Str(b.diff_id@)],
        with_history(pi, ps, n) matches Ok(qs)
            && pairs_get(qs, "history"@) == Some(Json::Array(seq![history_entry("containerless --flatten"@)])),
{
    lemma_pairs_get_insert(ps, "history"@, Json::Array(seq![history_entry("containerless --flatten"@)]));
    assert(seq![b].drop_last() =~= Seq::<LayerBlob>::empty());
    assert(seq![b].last() == b);
    assert(new_layers_json(media, seq![b].drop_last()) == Seq::<Json>::empty());
    assert(diff_id_items(seq![b].drop_last()) == Seq::<Json>::empty());
    assert(new_layers_json(media, seq![b]) =~= seq![desc_json(media, b.digest@, b.size as nat, None, Seq::empty())]);
    assert(diff_id_items(seq![b]) =~= seq![Json::Str(b.diff_id@)]);
}

} // verus!
