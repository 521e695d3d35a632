//! What publishing a built layout sends: for each target reference, the blobs of each manifest
//! before that manifest, child manifests before their index, and the top manifest tagged with
//! the reference.
use vstd::prelude::*;
use vstd::string::*;

use crate::image::store_view;
use crate::json::{jv, jv_items, lemma_jv_items_len, obj_get, pairs_get, Json, JsonValue};
use crate::pipeline::Layout;
use crate::registry::{json_parsed, parse_json_bytes, str_member, RegistryError};
use crate::strmap::StrMap;
use crate::text::{concat, ends_with, has_suffix};

verus! {

/// One action of a publish.
#[derive(Debug)]
pub enum PushStep {
    /// Authenticates for this reference; the steps up to the next target push to its
    /// repository.
    Target(String),
    /// Pushes the blob with this digest.
    Blob(String, Vec<u8>),
    /// Pushes a child manifest under its digest, with its media type.
    Manifest(String, String, Vec<u8>),
    /// Pushes the top manifest under the target reference, with its media type.
    Tag(String, Vec<u8>),
}

/// The abstract value of a push step.
pub enum PushStepView {
    Target(Seq<char>),
    Blob(Seq<char>, Seq<u8>),
    Manifest(Seq<char>, Seq<char>, Seq<u8>),
    Tag(Seq<char>, Seq<u8>),
}

impl View for PushStep {
    type V = PushStepView;

    open spec fn view(&self) -> PushStepView {
        match self {
            PushStep::Target(r) => PushStepView::Target(r@),
            PushStep::Blob(d, b) => PushStepView::Blob(d@, b@),
            PushStep::Manifest(d, m, b) => PushStepView::Manifest(d@, m@, b@),
            PushStep::Tag(m, b) => PushStepView::Tag(m@, b@),
        }
    }
}

pub open spec fn step_views(v: Seq<PushStep>) -> Seq<PushStepView> {
    v.map_values(|s: PushStep| s@)
}

/// The member `k` of a JSON object.
pub open spec fn json_member(j: Json, k: Seq<char>) -> Option<Json> {
    match j {
        Json::Object(ps) => pairs_get(ps, k),
        _ => None,
    }
}

/// The array member `k` of a JSON object.
pub open spec fn array_member(j: Json, k: Seq<char>) -> Option<Seq<Json>> {
    match json_member(j, k) {
        Some(Json::Array(a)) => Some(a),
        _ => None,
    }
}

/// Pushing the blobs that descriptors name, in order; `None` when one has no digest or is not
/// stored.
pub open spec fn descriptor_steps(store: Map<Seq<char>, Seq<u8>>, ds: Seq<Json>) -> Option<Seq<PushStepView>>
    decreases ds.len(),
{
    if ds.len() == 0 {
        Some(Seq::empty())
    } else {
        match descriptor_steps(store, ds.drop_last()) {
            None => None,
            Some(s) => match str_member(ds.last(), "digest"@) {
                None => None,
                Some(d) => if store.contains_key(d) {
                    Some(s.push(PushStepView::Blob(d, store[d])))
                } else {
                    None
                },
            },
        }
    }
}

/// The descriptors of the blobs a manifest references: its configuration's, when it has one,
/// then its layers'; `None` when it lists no layers.
pub open spec fn manifest_descriptors(j: Json) -> Option<Seq<Json>> {
    match array_member(j, "layers"@) {
        None => None,
        Some(layers) => Some(
            match json_member(j, "config"@) {
                Some(c) => seq![c] + layers,
                None => layers,
            },
        ),
    }
}

/// Pushing the blobs a manifest references.
pub open spec fn manifest_blob_steps(store: Map<Seq<char>, Seq<u8>>, j: Json) -> Option<Seq<PushStepView>> {
    match manifest_descriptors(j) {
        None => None,
        Some(ds) => descriptor_steps(store, ds),
    }
}

/// The manifest stored under `digest`: its bytes, its JSON and its media type.
pub open spec fn stored_manifest(store: Map<Seq<char>, Seq<u8>>, digest: Seq<char>) -> Option<(Seq<u8>, Json, Seq<char>)> {
    if !store.contains_key(digest) {
        None
    } else {
        match json_parsed(store[digest]) {
            None => None,
            Some(j) => match str_member(j, "mediaType"@) {
                None => None,
                Some(m) => Some((store[digest], j, m)),
            },
        }
    }
}

/// Pushing the child manifests of an index, each after the blobs it references.
pub open spec fn child_steps(store: Map<Seq<char>, Seq<u8>>, children: Seq<Json>) -> Option<Seq<PushStepView>>
    decreases children.len(),
{
    if children.len() == 0 {
        Some(Seq::empty())
    } else {
        match child_steps(store, children.drop_last()) {
            None => None,
            Some(s) => match str_member(children.last(), "digest"@) {
                None => None,
                Some(d) => match stored_manifest(store, d) {
                    None => None,
                    Some(m) => match manifest_blob_steps(store, m.1) {
                        None => None,
                        Some(bs) => Some(s + bs + seq![PushStepView::Manifest(d, m.2, m.0)]),
                    },
                },
            },
        }
    }
}

/// Whether a media type is an image index's.
pub open spec fn is_index_media(m: Seq<char>) -> bool {
    has_suffix(m, "image.index.v1+json"@)
}

/// Publishing the manifest stored under `digest` as `reference`: the target, then the child
/// manifests of an index (or the blobs of a manifest), then the top manifest tagged.
pub open spec fn target_steps(store: Map<Seq<char>, Seq<u8>>, reference: Seq<char>, digest: Seq<char>) -> Option<Seq<PushStepView>> {
    match stored_manifest(store, digest) {
        None => None,
        Some(m) => {
            let body = if is_index_media(m.2) {
                match array_member(m.1, "manifests"@) {
                    None => None,
                    Some(cs) => child_steps(store, cs),
                }
            } else {
                manifest_blob_steps(store, m.1)
            };
            match body {
                None => None,
                Some(s) => Some(seq![PushStepView::Target(reference)] + s + seq![PushStepView::Tag(m.2, m.0)]),
            }
        },
    }
}

/// Publishing every target in order; `None` when one cannot be published.
pub open spec fn plan_steps(store: Map<Seq<char>, Seq<u8>>, targets: Seq<(Seq<char>, Seq<char>)>) -> Option<Seq<PushStepView>>
    decreases targets.len(),
{
    if targets.len() == 0 {
        Some(Seq::empty())
    } else {
        match plan_steps(store, targets.drop_last()) {
            None => None,
            Some(a) => match target_steps(store, targets.last().0, targets.last().1) {
                None => None,
                Some(b) => Some(a + b),
            },
        }
    }
}

/// When the blobs of some first descriptors cannot be pushed, neither can those of all.
proof fn lemma_descriptor_prefix(store: Map<Seq<char>, Seq<u8>>, ds: Seq<Json>, i: int)
    requires
        0 <= i <= ds.len(),
        descriptor_steps(store, ds.take(i)) is None,
    ensures
        descriptor_steps(store, ds) is None,
    decreases ds.len(),
{
    if i == ds.len() {
        assert(ds.take(i) =~= ds);
    } else {
        assert(ds.drop_last().take(i) =~= ds.take(i));
        lemma_descriptor_prefix(store, ds.drop_last(), i);
    }
}

/// When some first children cannot be pushed, neither can all of them.
proof fn lemma_child_prefix(store: Map<Seq<char>, Seq<u8>>, cs: Seq<Json>, i: int)
    requires
        0 <= i <= cs.len(),
        child_steps(store, cs.take(i)) is None,
    ensures
        child_steps(store, cs) is None,
    decreases cs.len(),
{
    if i == cs.len() {
        assert(cs.take(i) =~= cs);
    } else {
        assert(cs.drop_last().take(i) =~= cs.take(i));
        lemma_child_prefix(store, cs.drop_last(), i);
    }
}

/// When some first targets cannot be published, neither can all of them.
proof fn lemma_plan_prefix(store: Map<Seq<char>, Seq<u8>>, ts: Seq<(Seq<char>, Seq<char>)>, i: int)
    requires
        0 <= i <= ts.len(),
        plan_steps(store, ts.take(i)) is None,
    ensures
        plan_steps(store, ts) is None,
    decreases ts.len(),
{
    if i == ts.len() {
        assert(ts.take(i) =~= ts);
    } else {
        assert(ts.drop_last().take(i) =~= ts.take(i));
        lemma_plan_prefix(store, ts.drop_last(), i);
    }
}

/// The member `key` of a JSON value.
fn member<'a>(j: &'a JsonValue, key: &str) -> (r: Option<&'a JsonValue>)
    ensures
        match r {
            Some(v) => json_member(jv(*j), key@) == Some(jv(*v)),
            None => json_member(jv(*j), key@) is None,
        },
{
    match j {
        JsonValue::Object(ms) => obj_get(ms, key),
        _ => None,
    }
}

/// The text member `key` of a JSON value.
fn text_member<'a>(j: &'a JsonValue, key: &str) -> (r: Option<&'a String>)
    ensures
        match r {
            Some(s) => str_member(jv(*j), key@) == Some(s@),
            None => str_member(jv(*j), key@) is None,
        },
{
    match member(j, key) {
        Some(JsonValue::Str(s)) => Some(s),
        _ => None,
    }
}

/// The array member `key` of a JSON value.
fn items_member<'a>(j: &'a JsonValue, key: &str) -> (r: Option<&'a Vec<JsonValue>>)
    ensures
        match r {
            Some(a) => array_member(jv(*j), key@) == Some(jv_items(a@)),
            None => array_member(jv(*j), key@) is None,
        },
{
    match member(j, key) {
        Some(JsonValue::Array(a)) => Some(a),
        _ => None,
    }
}

/// The blob stored under `digest`.
fn stored_blob(blobs: &StrMap<Vec<u8>>, digest: &str) -> (r: Result<Vec<u8>, RegistryError>)
    requires
        blobs.wf(),
    ensures
        match r {
            Ok(b) => store_view(blobs.view()).contains_key(digest@) && b@ == store_view(blobs.view())[digest@],
            Err(_) => !store_view(blobs.view()).contains_key(digest@),
        },
{
    match blobs.get(digest) {
        Some(b) => Ok(b.clone()),
        None => Err(RegistryError(concat("cannot read blob ", digest))),
    }
}

/// Appends the push of the blob that descriptor `d` names.
fn push_descriptor(blobs: &StrMap<Vec<u8>>, d: &JsonValue, out: &mut Vec<PushStep>, Ghost(pre): Ghost<Seq<Json>>) -> (r: Result<(), RegistryError>)
    requires
        blobs.wf(),
        descriptor_steps(store_view(blobs.view()), pre) == Some(step_views(old(out)@)),
    ensures
        match descriptor_steps(store_view(blobs.view()), pre.push(jv(*d))) {
            Some(s) => r is Ok && step_views(final(out)@) == s,
            None => r is Err,
        },
{
    let ghost store = store_view(blobs.view());
    assert(pre.push(jv(*d)).drop_last() =~= pre);
    let digest = match text_member(d, "digest") {
        Some(x) => x,
        None => {
            return Err(RegistryError("image manifest has an invalid descriptor".to_owned()));
        },
    };
    let data = stored_blob(blobs, digest.as_str())?;
    let ghost before = out@;
    out.push(PushStep::Blob(digest.clone(), data));
    assert(step_views(out@) =~= step_views(before).push(PushStepView::Blob(digest@, store[digest@])));
    Ok(())
}

/// Appends the pushes of the blobs a manifest references: its configuration's, then its
/// layers'.
fn push_manifest_blobs(blobs: &StrMap<Vec<u8>>, manifest: &JsonValue, out: &mut Vec<PushStep>) -> (r: Result<(), RegistryError>)
    requires
        blobs.wf(),
    ensures
        match manifest_blob_steps(store_view(blobs.view()), jv(*manifest)) {
            Some(s) => r is Ok && step_views(final(out)@) == step_views(old(out)@) + s,
            None => r is Err,
        },
{
    let ghost store = store_view(blobs.view());
    let ghost start = out@;
    let layers = match items_member(manifest, "layers") {
        Some(l) => l,
        None => {
            return Err(RegistryError("image manifest has no layers".to_owned()));
        },
    };
    proof {
        lemma_jv_items_len(layers@);
    }
    let mut steps: Vec<PushStep> = Vec::new();
    let ghost mut pre: Seq<Json> = Seq::empty();
    assert(step_views(steps@) =~= Seq::<PushStepView>::empty());
    let ghost ds = manifest_descriptors(jv(*manifest)).unwrap();
    match member(manifest, "config") {
        Some(c) => {
            assert(pre.push(jv(*c)) =~= seq![jv(*c)]);
            match push_descriptor(blobs, c, &mut steps, Ghost(pre)) {
                Ok(()) => {},
                Err(e) => {
                    proof {
                        assert(ds.take(1) =~= seq![jv(*c)]);
                        lemma_descriptor_prefix(store, ds, 1);
                    }
                    return Err(e);
                },
            }
            proof {
                pre = pre.push(jv(*c));
            }
        },
        None => {},
    }
    assert(ds =~= pre + jv_items(layers@));
    let mut i: usize = 0;
    assert(pre + jv_items(layers@).take(0) =~= pre);
    while i < layers.len()
        invariant
            blobs.wf(),
            store == store_view(blobs.view()),
            i <= layers@.len(),
            ds == pre + jv_items(layers@),
            manifest_blob_steps(store, jv(*manifest)) == descriptor_steps(store, ds),
            jv_items(layers@).len() == layers@.len(),
            forall|k: int| 0 <= k < layers@.len() ==> #[trigger] jv_items(layers@)[k] == jv(layers@[k]),
            descriptor_steps(store, pre + jv_items(layers@).take(i as int)) == Some(step_views(steps@)),
        decreases layers@.len() - i,
    {
        let ghost p = pre + jv_items(layers@).take(i as int);
        assert(jv_items(layers@)[i as int] == jv(layers@[i as int]));
        assert(p.push(jv(layers@[i as int])) =~= pre + jv_items(layers@).take(i + 1));
        match push_descriptor(blobs, &layers[i], &mut steps, Ghost(p)) {
            Ok(()) => {},
            Err(e) => {
                proof {
                    assert(ds.take(pre.len() + i + 1) =~= pre + jv_items(layers@).take(i + 1));
                    lemma_descriptor_prefix(store, ds, pre.len() + i + 1);
                }
                return Err(e);
            },
        }
        i = i + 1;
    }
    assert(pre + jv_items(layers@).take(i as int) =~= ds);
    let ghost mine = steps@;
    out.append(&mut steps);
    assert(step_views(out@) =~= step_views(start) + step_views(mine));
    Ok(())
}

/// The manifest stored under `digest`: its bytes, JSON and media type.
fn read_manifest(blobs: &StrMap<Vec<u8>>, digest: &str) -> (r: Result<(Vec<u8>, JsonValue, String), RegistryError>)
    requires
        blobs.wf(),
    ensures
        match stored_manifest(store_view(blobs.view()), digest@) {
            Some(m) => r matches Ok(x) && x.0@ == m.0 && jv(x.1) == m.1 && x.2@ == m.2,
            None => r is Err,
        },
{
    let bytes = stored_blob(blobs, digest)?;
    let manifest = match parse_json_bytes(bytes.as_slice()) {
        Ok(j) => j,
        Err(e) => {
            let head = concat("invalid image manifest ", digest);
            let mid = concat(head.as_str(), ": ");
            return Err(RegistryError(concat(mid.as_str(), e.as_str())));
        },
    };
    let media_type = match text_member(&manifest, "mediaType") {
        Some(m) => m.clone(),
        None => {
            let head = concat("manifest ", digest);
            return Err(RegistryError(concat(head.as_str(), " has no mediaType")));
        },
    };
    Ok((bytes, manifest, media_type))
}

/// Appends the pushes of the child manifests of an index, each after its blobs.
fn push_children(blobs: &StrMap<Vec<u8>>, children: &Vec<JsonValue>, out: &mut Vec<PushStep>) -> (r: Result<(), RegistryError>)
    requires
        blobs.wf(),
    ensures
        match child_steps(store_view(blobs.view()), jv_items(children@)) {
            Some(s) => r is Ok && step_views(final(out)@) == step_views(old(out)@) + s,
            None => r is Err,
        },
{
    let ghost store = store_view(blobs.view());
    let ghost cs = jv_items(children@);
    let ghost start = out@;
    proof {
        lemma_jv_items_len(children@);
    }
    let mut i: usize = 0;
    assert(cs.take(0) =~= Seq::<Json>::empty());
    assert(step_views(start) + Seq::<PushStepView>::empty() =~= step_views(start));
    while i < children.len()
        invariant
            blobs.wf(),
            store == store_view(blobs.view()),
            cs == jv_items(children@),
            cs.len() == children@.len(),
            forall|k: int| 0 <= k < children@.len() ==> #[trigger] cs[k] == jv(children@[k]),
            i <= children@.len(),
            child_steps(store, cs.take(i as int)) matches Some(s) && step_views(out@) == step_views(start) + s,
        decreases children@.len() - i,
    {
        let ghost s0 = child_steps(store, cs.take(i as int)).unwrap();
        let ghost before = out@;
        assert(cs.take(i + 1).drop_last() =~= cs.take(i as int));
        assert(cs.take(i + 1).last() == jv(children@[i as int]));
        let d = match text_member(&children[i], "digest") {
            Some(x) => x,
            None => {
                proof {
                    lemma_child_prefix(store, cs, i + 1);
                }
                return Err(RegistryError("image index has an invalid descriptor".to_owned()));
            },
        };
        let (bytes, manifest, media_type) = match read_manifest(blobs, d.as_str()) {
            Ok(m) => m,
            Err(e) => {
                proof {
                    lemma_child_prefix(store, cs, i + 1);
                }
                return Err(e);
            },
        };
        match push_manifest_blobs(blobs, &manifest, out) {
            Ok(()) => {},
            Err(e) => {
                proof {
                    lemma_child_prefix(store, cs, i + 1);
                }
                return Err(e);
            },
        }
        let ghost mid = out@;
        out.push(PushStep::Manifest(d.clone(), media_type, bytes));
        proof {
            let bs = manifest_blob_steps(store, jv(manifest)).unwrap();
            assert(step_views(out@) =~= step_views(mid).push(PushStepView::Manifest(d@, media_type@, bytes@)));
            assert(step_views(out@) =~= step_views(start) + (s0 + bs + seq![PushStepView::Manifest(d@, media_type@, bytes@)]));
        }
        i = i + 1;
    }
    assert(cs.take(i as int) =~= cs);
    Ok(())
}

/// Appends the pushes that publish the manifest stored under `digest` as `reference`.
fn push_target(blobs: &StrMap<Vec<u8>>, reference: &String, digest: &String, out: &mut Vec<PushStep>) -> (r: Result<(), RegistryError>)
    requires
        blobs.wf(),
    ensures
        match target_steps(store_view(blobs.view()), reference@, digest@) {
            Some(s) => r is Ok && step_views(final(out)@) == step_views(old(out)@) + s,
            None => r is Err,
        },
{
    let ghost store = store_view(blobs.view());
    let (bytes, manifest, media_type) = read_manifest(blobs, digest.as_str())?;
    let mut steps: Vec<PushStep> = Vec::new();
    steps.push(PushStep::Target(reference.clone()));
    assert(step_views(steps@) =~= seq![PushStepView::Target(reference@)]);
    proof {
        reveal_strlit("image.index.v1+json");
    }
    if ends_with(media_type.as_str(), "image.index.v1+json") {
        let children = match items_member(&manifest, "manifests") {
            Some(c) => c,
            None => {
                let head = concat("image index ", digest.as_str());
                return Err(RegistryError(concat(head.as_str(), " has no manifests")));
            },
        };
        push_children(blobs, children, &mut steps)?;
    } else {
        push_manifest_blobs(blobs, &manifest, &mut steps)?;
    }
    let ghost body = steps@;
    steps.push(PushStep::Tag(media_type, bytes));
    let ghost mine = steps@;
    assert(step_views(mine) =~= step_views(body).push(PushStepView::Tag(media_type@, bytes@)));
    let ghost start = out@;
    out.append(&mut steps);
    assert(step_views(out@) =~= step_views(start) + step_views(mine));
    Ok(())
}

/// The pushes that publish each target, a reference and the digest of the manifest or index
/// built for it, in order: for each, the target; then the blobs of each manifest before that
/// manifest, and the child manifests of an index before it; then the top manifest tagged with
/// the reference. An error when a manifest or blob is missing or malformed.
pub fn push_plan(layout: &Layout, targets: &Vec<(String, String)>) -> (r: Result<Vec<PushStep>, RegistryError>)
    requires
        layout.blobs.wf(),
    ensures
        match plan_steps(store_view(layout.blobs.view()), targets@.map_values(|t: (String, String)| (t.0@, t.1@))) {
            Some(s) => r matches Ok(v) && step_views(v@) == s,
            None => r is Err,
        },
{
    let ghost store = store_view(layout.blobs.view());
    let ghost ts = targets@.map_values(|t: (String, String)| (t.0@, t.1@));
    let mut out: Vec<PushStep> = Vec::new();
    let mut i: usize = 0;
    assert(ts.take(0) =~= Seq::<(Seq<char>, Seq<char>)>::empty());
    assert(step_views(out@) =~= Seq::<PushStepView>::empty());
    while i < targets.len()
        invariant
            layout.blobs.wf(),
            store == store_view(layout.blobs.view()),
            ts == targets@.map_values(|t: (String, String)| (t.0@, t.1@)),
            i <= targets@.len(),
            plan_steps(store, ts.take(i as int)) == Some(step_views(out@)),
        decreases targets@.len() - i,
    {
        assert(ts.take(i + 1).drop_last() =~= ts.take(i as int));
        assert(ts.take(i + 1).last() == (targets@[i as int].0@, targets@[i as int].1@));
        match push_target(&layout.blobs, &targets[i].0, &targets[i].1, &mut out) {
            Ok(()) => {},
            Err(e) => {
                proof {
                    lemma_plan_prefix(store, ts, i + 1);
                }
                return Err(e);
            },
        }
        i = i + 1;
    }
    assert(ts.take(i as int) =~= ts);
    Ok(out)
}

} // verus!

verus! {

/// Whether the steps before position `j` end with the pushes of the blobs that the manifest
/// `bytes` references.
pub open spec fn blobs_just_before(store: Map<Seq<char>, Seq<u8>>, s: Seq<PushStepView>, j: int, bytes: Seq<u8>) -> bool {
    json_parsed(bytes) matches Some(mj) && manifest_blob_steps(store, mj) matches Some(bs) && bs.len() <= j
        && s.subrange(j - bs.len(), j) == bs
}

/// Pushing blobs gives only blob steps.
proof fn lemma_descriptor_steps_blobs(store: Map<Seq<char>, Seq<u8>>, ds: Seq<Json>)
    ensures
        descriptor_steps(store, ds) matches Some(s) ==> forall|j: int| 0 <= j < s.len() ==> (#[trigger] s[j]) is Blob,
    decreases ds.len(),
{
    if ds.len() > 0 {
        lemma_descriptor_steps_blobs(store, ds.drop_last());
    }
}

/// Blob steps stay in place when steps are added around them.
proof fn lemma_blobs_just_before_shift(store: Map<Seq<char>, Seq<u8>>, s: Seq<PushStepView>, t: Seq<PushStepView>, j: int, bytes: Seq<u8>)
    requires
        0 <= j <= s.len(),
        blobs_just_before(store, s, j, bytes),
    ensures
        blobs_just_before(store, s + t, j, bytes),
        blobs_just_before(store, t + s, t.len() + j, bytes),
{
    let bs = manifest_blob_steps(store, json_parsed(bytes).unwrap()).unwrap();
    assert((s + t).subrange(j - bs.len(), j) =~= s.subrange(j - bs.len(), j));
    assert((t + s).subrange(t.len() + j - bs.len(), t.len() + j) =~= s.subrange(j - bs.len(), j));
}

/// Every child manifest step of an index comes right after the pushes of its blobs.
proof fn lemma_child_steps_order(store: Map<Seq<char>, Seq<u8>>, cs: Seq<Json>)
    ensures
        child_steps(store, cs) matches Some(s) ==> forall|j: int| 0 <= j < s.len() ==> ((#[trigger] s[j]) matches PushStepView::Manifest(_, _, b) ==> blobs_just_before(store, s, j, b)),
        child_steps(store, cs) matches Some(s) ==> forall|j: int| 0 <= j < s.len() ==> !((#[trigger] s[j]) is Tag),
    decreases cs.len(),
{
    if cs.len() > 0 {
        lemma_child_steps_order(store, cs.drop_last());
        if let Some(s) = child_steps(store, cs) {
            let s0 = child_steps(store, cs.drop_last()).unwrap();
            let d = str_member(cs.last(), "digest"@).unwrap();
            let m = stored_manifest(store, d).unwrap();
            let bs = manifest_blob_steps(store, m.1).unwrap();
            lemma_descriptor_steps_blobs(store, manifest_descriptors(m.1).unwrap());
            let last = PushStepView::Manifest(d, m.2, m.0);
            assert(s == s0 + bs + seq![last]);
            assert forall|j: int| 0 <= j < s.len() implies !((#[trigger] s[j]) is Tag) by {
                if j < s0.len() {
                    assert(s[j] == s0[j]);
                } else if j < s0.len() + bs.len() {
                    assert(s[j] == bs[j - s0.len()]);
                }
            }
            assert forall|j: int| 0 <= j < s.len() implies ((#[trigger] s[j]) matches PushStepView::Manifest(_, _, b) ==> blobs_just_before(store, s, j, b)) by {
                if j < s0.len() {
                    assert(s[j] == s0[j]);
                    if let PushStepView::Manifest(_, _, b) = s0[j] {
                        lemma_blobs_just_before_shift(store, s0, bs + seq![last], j, b);
                        assert(s0 + (bs + seq![last]) =~= s);
                    }
                } else if j < s0.len() + bs.len() {
                    assert(s[j] == bs[j - s0.len()]);
                } else {
                    assert(s[j] == last);
                    assert(json_parsed(m.0) == Some(m.1));
                    assert(s.subrange(j - bs.len(), j) =~= bs);
                }
            }
        }
    }
}

/// In a publish plan, every child manifest is pushed right after the blobs it references, and
/// every manifest tagged that is not an index is pushed right after the blobs it references.
pub proof fn lemma_plan_blobs_first(store: Map<Seq<char>, Seq<u8>>, ts: Seq<(Seq<char>, Seq<char>)>)
    ensures
        plan_steps(store, ts) matches Some(s) ==> forall|j: int| 0 <= j < s.len() ==> match #[trigger] s[j] {
            PushStepView::Manifest(_, _, b) => blobs_just_before(store, s, j, b),
            PushStepView::Tag(m, b) => !is_index_media(m) ==> blobs_just_before(store, s, j, b),
            _ => true,
        },
    decreases ts.len(),
{
    if ts.len() > 0 {
        lemma_plan_blobs_first(store, ts.drop_last());
        if let Some(s) = plan_steps(store, ts) {
            let a = plan_steps(store, ts.drop_last()).unwrap();
            let (r, d) = ts.last();
            let m = stored_manifest(store, d).unwrap();
            let body = if is_index_media(m.2) {
                child_steps(store, array_member(m.1, "manifests"@).unwrap()).unwrap()
            } else {
                manifest_blob_steps(store, m.1).unwrap()
            };
            let b = seq![PushStepView::Target(r)] + body + seq![PushStepView::Tag(m.2, m.0)];
            assert(s == a + b);
            if is_index_media(m.2) {
                lemma_child_steps_order(store, array_member(m.1, "manifests"@).unwrap());
            } else {
                lemma_descriptor_steps_blobs(store, manifest_descriptors(m.1).unwrap());
            }
            assert forall|j: int| 0 <= j < s.len() implies match #[trigger] s[j] {
                PushStepView::Manifest(_, _, x) => blobs_just_before(store, s, j, x),
                PushStepView::Tag(mt, x) => !is_index_media(mt) ==> blobs_just_before(store, s, j, x),
                _ => true,
            } by {
                if j < a.len() {
                    assert(s[j] == a[j]);
                    match a[j] {
                        PushStepView::Manifest(_, _, x) => lemma_blobs_just_before_shift(store, a, b, j, x),
                        PushStepView::Tag(mt, x) => if !is_index_media(mt) {
                            lemma_blobs_just_before_shift(store, a, b, j, x);
                        },
                        _ => {},
                    }
                } else if j == a.len() {
                    assert(s[j] == PushStepView::Target(r));
                } else if j < a.len() + 1 + body.len() {
                    let k = j - a.len() - 1;
                    assert(s[j] == body[k]);
                    if is_index_media(m.2) {
                        if let PushStepView::Manifest(_, _, x) = body[k] {
                            let pre = a + seq![PushStepView::Target(r)];
                            lemma_blobs_just_before_shift(store, body, seq![PushStepView::Tag(m.2, m.0)], k, x);
                            lemma_blobs_just_before_shift(store, body + seq![PushStepView::Tag(m.2, m.0)], pre, k, x);
                            assert(pre + (body + seq![PushStepView::Tag(m.2, m.0)]) =~= s);
                        }
                    }
                } else {
                    assert(s[j] == PushStepView::Tag(m.2, m.0));
                    if !is_index_media(m.2) {
                        assert(json_parsed(m.0) == Some(m.1));
                        assert(s.subrange(j - body.len(), j) =~= body);
                    }
                }
            }
        }
    }
}

} // verus!
