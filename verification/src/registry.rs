//! The decisions around registry access: how a reference is reached, which pulled layers
//! make up a base image, and what a publish sends.
use vstd::prelude::*;
use vstd::string::*;

use crate::digest::{digest_of, digest_spec};
use crate::json::{jv, obj_get, pairs_get, Json, JsonValue};
use crate::model::{BaseImage, BaseLayer, BuildResult, ImageSet};
use crate::oci::oci_manifest_media;
use crate::output::sha256_prefix;
use crate::platform::Platform;
use crate::strmap::StrMap;
use crate::text::{concat, starts_with, str_eq, views};

verus! {

/// An error reported while reaching a registry or checking what it returned.
#[derive(Debug)]
pub struct RegistryError(pub String);

/// An error reported while publishing an image set.
#[derive(Debug)]
pub enum PublishError {
    /// The image set cannot be published.
    Invalid(String),
    /// Building the image set failed.
    Build(crate::error::BuildError),
    /// A registry operation failed.
    Registry(RegistryError),
}

/// The registry that parsing `reference` as an OCI image reference yields, or `None` when it
/// does not parse.
pub uninterp spec fn parsed_registry(reference: Seq<char>) -> Option<Seq<char>>;

/// Parses an image reference, through `oci_client::Reference` (oci-spec's `FromStr`), and reads
/// its registry with `Reference::registry`. Claims that it parses exactly when
/// `parsed_registry` gives a registry, and that the registry read is that one. The text of
/// the parse error is not stated.
#[verifier::external_body]
fn reference_registry(reference: &str) -> (r: Result<String, String>)
    ensures
        match parsed_registry(reference@) {
            Some(registry) => r matches Ok(s) && s@ == registry,
            None => r is Err,
        },
{
    match reference.parse::<oci_client::Reference>() {
        Ok(parsed) => Ok(parsed.registry().to_owned()),
        Err(error) => Err(error.to_string()),
    }
}

/// The address a registry is reached at: Docker Hub's `docker.io` is served from
/// `index.docker.io`; every other registry from its own name.
pub open spec fn resolved_registry(registry: Seq<char>) -> Seq<char> {
    if registry == "docker.io"@ {
        "index.docker.io"@
    } else {
        registry
    }
}

/// The address a parsed reference's registry resolves to, as
/// `oci_client::Reference::resolve_registry` gives it for a reference without a mirror.
pub fn resolve_registry(registry: &str) -> (r: String)
    ensures
        r@ == resolved_registry(registry@),
{
    if str_eq(registry, "docker.io") {
        "index.docker.io".to_owned()
    } else {
        registry.to_owned()
    }
}

/// The hosts reached over plain HTTP for a reference to `registry`: each configured host, with
/// the reference's own registry replaced by the address it resolves to.
pub open spec fn plain_hosts(hosts: Seq<Seq<char>>, registry: Seq<char>) -> Seq<Seq<char>> {
    hosts.map_values(|h: Seq<char>| if h == registry { resolved_registry(registry) } else { h })
}

/// The server whose Docker credentials are used for `registry`.
pub open spec fn credential_server_spec(registry: Seq<char>) -> Seq<char> {
    if registry == "docker.io"@ {
        "https://index.docker.io/v1/"@
    } else {
        resolved_registry(registry)
    }
}

/// How a reference is reached: its registry, the hosts reached over plain HTTP, and the server
/// whose credentials are used.
#[derive(Debug)]
pub struct RegistryAccess {
    pub registry: String,
    pub plain_http: Vec<String>,
    pub credential_server: String,
}

/// Access to OCI registries, with plain HTTP permitted for the listed hosts.
#[derive(Debug)]
pub struct Registry {
    plain_http: Vec<String>,
}

impl Registry {
    pub closed spec fn spec_plain_http(&self) -> Seq<Seq<char>> {
        views(self.plain_http@)
    }

    /// Creates a registry client that permits plain HTTP for the listed hosts.
    pub fn new(plain_http: Vec<String>) -> (r: Self)
        ensures
            r.spec_plain_http() == views(plain_http@),
    {
        Registry { plain_http }
    }

    /// How `reference` is reached; an error when it is not an image reference.
    pub fn access(&self, reference: &str) -> (r: Result<RegistryAccess, RegistryError>)
        ensures
            match parsed_registry(reference@) {
                Some(registry) => r matches Ok(a) && {
                    &&& a.registry@ == registry
                    &&& views(a.plain_http@) == plain_hosts(self.spec_plain_http(), registry)
                    &&& a.credential_server@ == credential_server_spec(registry)
                },
                None => r is Err,
            },
    {
        let registry = match reference_registry(reference) {
            Ok(r) => r,
            Err(e) => {
                let head = concat("invalid image reference ", reference);
                let mid = concat(head.as_str(), ": ");
                return Err(RegistryError(concat(mid.as_str(), e.as_str())));
            },
        };
        let resolved = resolve_registry(registry.as_str());
        let mut hosts: Vec<String> = Vec::new();
        let mut i: usize = 0;
        while i < self.plain_http.len()
            invariant
                i <= self.plain_http@.len(),
                resolved@ == resolved_registry(registry@),
                views(hosts@) == plain_hosts(views(self.plain_http@).take(i as int), registry@),
            decreases self.plain_http@.len() - i,
        {
            let h = if str_eq(self.plain_http[i].as_str(), registry.as_str()) {
                resolved.clone()
            } else {
                self.plain_http[i].clone()
            };
            let ghost before = views(hosts@);
            hosts.push(h);
            proof {
                let vs = views(self.plain_http@);
                assert(vs[i as int] == self.plain_http@[i as int]@);
                assert(vs.take(i + 1) =~= vs.take(i as int).push(vs[i as int]));
                assert(views(hosts@) =~= before.push(h@));
                assert(plain_hosts(vs.take(i + 1), registry@) =~= plain_hosts(vs.take(i as int), registry@).push(h@));
            }
            i = i + 1;
        }
        assert(views(self.plain_http@).take(i as int) =~= views(self.plain_http@));
        let server = if str_eq(registry.as_str(), "docker.io") {
            "https://index.docker.io/v1/".to_owned()
        } else {
            resolved
        };
        Ok(RegistryAccess { registry, plain_http: hosts, credential_server: server })
    }
}

/// A layer descriptor of a pulled manifest.
#[derive(Debug)]
pub struct LayerDescriptor {
    pub media_type: String,
    pub digest: String,
    pub size: i64,
    pub annotations: StrMap<String>,
}

/// The pulled layer blobs by digest; a later blob replaces an earlier one with its digest.
pub open spec fn pulled_by_digest(pulled: Seq<Vec<u8>>) -> Map<Seq<char>, Seq<u8>>
    decreases pulled.len(),
{
    if pulled.len() == 0 {
        Map::empty()
    } else {
        pulled_by_digest(pulled.drop_last()).insert(digest_spec(pulled.last()@), pulled.last()@)
    }
}

/// The contents of a map of byte vectors.
pub open spec fn bytes_view(m: Map<Seq<char>, Vec<u8>>) -> Map<Seq<char>, Seq<u8>> {
    m.map_values(|v: Vec<u8>| v@)
}

/// Whether a descriptor names a SHA-256 blob that was pulled, with its size.
pub open spec fn descriptor_ok(d: LayerDescriptor, blobs: Map<Seq<char>, Seq<u8>>) -> bool {
    &&& crate::text::has_prefix(d.digest@, sha256_prefix())
    &&& blobs.contains_key(d.digest@)
    &&& d.size >= 0
    &&& blobs[d.digest@].len() == d.size
}

/// Whether `l` is the base layer for descriptor `d`: the pulled blob it names, with the
/// descriptor's media type and annotations.
pub open spec fn layer_for(l: BaseLayer, d: LayerDescriptor, blobs: Map<Seq<char>, Seq<u8>>) -> bool {
    &&& l.spec_media_type() == d.media_type@
    &&& l.spec_bytes() == blobs[d.digest@]
    &&& l.spec_digest() == d.digest@
    &&& l.spec_size() == d.size
    &&& l.spec_annotations() == d.annotations
}

fn duplicate_bytes(v: &Vec<u8>) -> (r: Vec<u8>)
    ensures
        r@ == v@,
{
    vstd::slice::slice_to_vec(v.as_slice())
}

/// The base layers that a pulled manifest's descriptors name, in descriptor order, each from
/// the pulled blob with its digest; an error when a descriptor is not SHA-256, names no
/// pulled blob, or gives a size other than the blob's.
pub fn resolve_layers(descriptors: Vec<LayerDescriptor>, pulled: Vec<Vec<u8>>) -> (r: Result<Vec<BaseLayer>, RegistryError>)
    ensures
        r is Ok <==> forall|i: int| 0 <= i < descriptors@.len() ==> descriptor_ok(#[trigger] descriptors@[i], pulled_by_digest(pulled@)),
        r matches Ok(ls) ==> ls@.len() == descriptors@.len() && forall|i: int| 0 <= i < descriptors@.len()
            ==> layer_for(#[trigger] ls@[i], descriptors@[i], pulled_by_digest(pulled@)),
{
    let ghost blobs = pulled_by_digest(pulled@);
    let mut by_digest: StrMap<Vec<u8>> = StrMap::new();
    let mut k: usize = 0;
    assert(pulled@.take(0) =~= Seq::<Vec<u8>>::empty());
    assert(bytes_view(by_digest.view()) =~= Map::<Seq<char>, Seq<u8>>::empty());
    while k < pulled.len()
        invariant
            k <= pulled@.len(),
            by_digest.wf(),
            bytes_view(by_digest.view()) == pulled_by_digest(pulled@.take(k as int)),
            forall|key: Seq<char>| #[trigger] by_digest.view().contains_key(key) ==> digest_spec(by_digest.view()[key]@) == key,
        decreases pulled@.len() - k,
    {
        let d = digest_of(pulled[k].as_slice());
        let ghost before = by_digest.view();
        let v = duplicate_bytes(&pulled[k]);
        by_digest.insert(d, v);
        proof {
            assert(pulled@.take(k + 1).drop_last() =~= pulled@.take(k as int));
            assert(pulled@.take(k + 1).last() == pulled@[k as int]);
            assert(bytes_view(before.insert(d@, v)) =~= bytes_view(before).insert(d@, v@));
            assert(bytes_view(by_digest.view()) =~= pulled_by_digest(pulled@.take(k + 1)));
        }
        k = k + 1;
    }
    assert(pulled@.take(k as int) =~= pulled@);
    let ghost ds = descriptors@;
    let mut layers: Vec<BaseLayer> = Vec::new();
    let mut rest = descriptors;
    let ghost mut i: int = 0;
    assert(ds.skip(0) =~= ds);
    while rest.len() > 0
        invariant
            0 <= i <= ds.len(),
            ds == descriptors@,
            blobs == pulled_by_digest(pulled@),
            rest@ == ds.skip(i),
            by_digest.wf(),
            bytes_view(by_digest.view()) == blobs,
            forall|key: Seq<char>| #[trigger] by_digest.view().contains_key(key) ==> digest_spec(by_digest.view()[key]@) == key,
            layers@.len() == i,
            forall|j: int| 0 <= j < i ==> descriptor_ok(#[trigger] ds[j], blobs),
            forall|j: int| 0 <= j < i ==> layer_for(#[trigger] layers@[j], ds[j], blobs),
        decreases rest@.len(),
    {
        let d = rest.remove(0);
        proof {
            assert(d == ds[i]);
            assert(rest@ =~= ds.skip(i + 1));
            reveal_strlit("sha256:");
            assert("sha256:"@ =~= sha256_prefix());
        }
        if !starts_with(d.digest.as_str(), "sha256:") {
            assert(!descriptor_ok(ds[i], blobs));
            let head = concat("base layer ", d.digest.as_str());
            return Err(RegistryError(concat(head.as_str(), " uses an unsupported digest algorithm")));
        }
        let data = match by_digest.get(d.digest.as_str()) {
            Some(v) => duplicate_bytes(v),
            None => {
                assert(!blobs.contains_key(d.digest@));
                assert(!descriptor_ok(ds[i], blobs));
                assert(!descriptor_ok(descriptors@[i], pulled_by_digest(pulled@)));
                return Err(RegistryError(concat("base image response omitted layer ", d.digest.as_str())));
            },
        };
        assert(blobs.contains_key(d.digest@));
        assert(data@ == blobs[d.digest@]);
        if d.size < 0 {
            assert(!descriptor_ok(ds[i], blobs));
            return Err(RegistryError("base layer has a negative size".to_owned()));
        }
        let expected: u64 = d.size as u64;
        let layer = BaseLayer::new(d.media_type.as_str(), data).with_annotations(d.annotations);
        if !str_eq(layer.digest(), d.digest.as_str()) || layer.size() != expected {
            assert(digest_spec(blobs[d.digest@]) == d.digest@);
            assert(!descriptor_ok(ds[i], blobs));
            assert(!descriptor_ok(descriptors@[i], pulled_by_digest(pulled@)));
            let head = concat("base layer ", d.digest.as_str());
            return Err(RegistryError(concat(head.as_str(), " does not match its descriptor")));
        }
        layers.push(layer);
        proof {
            i = i + 1;
        }
    }
    Ok(layers)
}

/// The manifest of a pulled image: its media type, layer descriptors and annotations.
#[derive(Debug)]
pub struct PulledManifest {
    pub media_type: Option<String>,
    pub layers: Vec<LayerDescriptor>,
    pub annotations: Option<StrMap<String>>,
}

/// The string member `key` of a JSON object, when it has one.
pub open spec fn str_member(j: Json, key: Seq<char>) -> Option<Seq<char>> {
    match j {
        Json::Object(ps) => match pairs_get(ps, key) {
            Some(Json::Str(s)) => Some(s),
            _ => None,
        },
        _ => None,
    }
}

/// Whether an image configuration is for platform `p`: its `os` and `architecture` are `p`'s.
pub open spec fn config_matches(config: Json, p: crate::platform::PlatformView) -> bool {
    str_member(config, "os"@) == Some(p.os) && str_member(config, "architecture"@) == Some(p.architecture)
}

fn member_str<'a>(config: &'a JsonValue, key: &str) -> (r: Option<&'a String>)
    ensures
        match r {
            Some(s) => str_member(jv(*config), key@) == Some(s@),
            None => str_member(jv(*config), key@) is None,
        },
{
    match config {
        JsonValue::Object(members) => match obj_get(members, key) {
            Some(JsonValue::Str(s)) => Some(s),
            _ => None,
        },
        _ => None,
    }
}

/// Whether `b` is the base image made of what was pulled: the manifest's media type (the OCI
/// one when it names none), the configuration with its media type, the layers that its
/// descriptors name, and its annotations.
pub open spec fn base_from(b: BaseImage, manifest: PulledManifest, config_media_type: Seq<char>, config: JsonValue, pulled: Seq<Vec<u8>>) -> bool {
    let blobs = pulled_by_digest(pulled);
    &&& b.manifest_media_type@ == match manifest.media_type {
        Some(m) => m@,
        None => oci_manifest_media(),
    }
    &&& b.config_media_type@ == config_media_type
    &&& b.config == config
    &&& b.layers@.len() == manifest.layers@.len()
    &&& forall|i: int| 0 <= i < manifest.layers@.len() ==> layer_for(#[trigger] b.layers@[i], manifest.layers@[i], blobs)
    &&& b.annotations.wf()
    &&& b.annotations.view() == match manifest.annotations {
        Some(a) => a.view(),
        None => Map::empty(),
    }
}

/// Declares `serde_json::Value`.
#[verifier::external_type_specification]
#[verifier::external_body]
pub struct ExSerdeJsonValue(serde_json::Value);

/// The JSON value that the text `bytes` holds, as `serde_json::from_slice` parses it, or
/// `None` when it is not JSON.
pub uninterp spec fn json_parsed(bytes: Seq<u8>) -> Option<Json>;

/// Converts a `serde_json::Value` into the library's JSON value, one variant for one, numbers
/// by their text and objects in the order `serde_json::Map` iterates them.
#[verifier::external_body]
fn json_from_value(v: serde_json::Value) -> JsonValue {
    match v {
        serde_json::Value::Null => JsonValue::Null,
        serde_json::Value::Bool(b) => JsonValue::Bool(b),
        serde_json::Value::Number(n) => JsonValue::Number(n.to_string()),
        serde_json::Value::String(t) => JsonValue::Str(t),
        serde_json::Value::Array(a) => JsonValue::Array(a.into_iter().map(json_from_value).collect()),
        serde_json::Value::Object(m) => JsonValue::Object(m.into_iter().map(|(k, x)| (k, json_from_value(x))).collect()),
    }
}

/// Parses JSON text through `serde_json::from_slice` into a `serde_json::Value`, converted by
/// `json_from_value`. Claims that the value is the one `json_parsed` names for the bytes, and
/// that it fails exactly when that name gives none; the error's text is left unsaid.
#[verifier::external_body]
pub(crate) fn parse_json_bytes(bytes: &[u8]) -> (r: Result<JsonValue, String>)
    ensures
        r matches Ok(v) ==> json_parsed(bytes@) == Some(jv(v)),
        r is Err <==> json_parsed(bytes@) is None,
{
    match serde_json::from_slice::<serde_json::Value>(bytes) {
        Ok(v) => Ok(json_from_value(v)),
        Err(e) => Err(e.to_string()),
    }
}

/// The base image for `platform` made of what pulling `image` returned: its manifest, if any,
/// its configuration's media type and raw bytes, and the layer blobs; an error when there is
/// no manifest, the configuration is not JSON or is for another platform, or the layers do not
/// match their descriptors.
pub fn base_image_from_bytes(
    image: &str,
    platform: &Platform,
    manifest: Option<PulledManifest>,
    config_media_type: String,
    config_bytes: &[u8],
    pulled: Vec<Vec<u8>>,
) -> (r: Result<BaseImage, RegistryError>)
    requires
        manifest matches Some(m) && m.annotations matches Some(a) ==> a.wf(),
    ensures
        r is Ok <==> (manifest matches Some(m) && json_parsed(config_bytes@) matches Some(c) && config_matches(c, platform@)
            && forall|i: int| 0 <= i < m.layers@.len() ==> descriptor_ok(#[trigger] m.layers@[i], pulled_by_digest(pulled@))),
        r matches Ok(b) ==> (manifest matches Some(m) && json_parsed(config_bytes@) == Some(jv(b.config))
            && base_from(b, m, config_media_type@, b.config, pulled@)),
{
    let config = parse_json_bytes(config_bytes);
    base_image(image, platform, manifest, config_media_type, config, pulled)
}

/// The base image for `platform` made of what pulling `image` returned: its manifest, if any,
/// its configuration's media type and parsed JSON (or the parse error), and the layer blobs;
/// an error when there is no manifest, the configuration is not JSON or is for another
/// platform, or the layers do not match their descriptors.
pub fn base_image(
    image: &str,
    platform: &Platform,
    manifest: Option<PulledManifest>,
    config_media_type: String,
    config: Result<JsonValue, String>,
    pulled: Vec<Vec<u8>>,
) -> (r: Result<BaseImage, RegistryError>)
    requires
        manifest matches Some(m) && m.annotations matches Some(a) ==> a.wf(),
    ensures
        r is Ok <==> (manifest matches Some(m) && config matches Ok(c) && config_matches(jv(c), platform@)
            && forall|i: int| 0 <= i < m.layers@.len() ==> descriptor_ok(#[trigger] m.layers@[i], pulled_by_digest(pulled@))),
        r matches Ok(b) ==> (manifest matches Some(m) && config matches Ok(c) && base_from(b, m, config_media_type@, c, pulled@)),
{
    let manifest = match manifest {
        Some(m) => m,
        None => {
            let head = concat("base image ", image);
            return Err(RegistryError(concat(head.as_str(), " returned no image manifest")));
        },
    };
    let config = match config {
        Ok(c) => c,
        Err(e) => {
            let head = concat("base image ", image);
            let mid = concat(head.as_str(), " has invalid config JSON: ");
            return Err(RegistryError(concat(mid.as_str(), e.as_str())));
        },
    };
    proof {
        reveal_strlit("os");
        reveal_strlit("architecture");
    }
    let os_ok = match member_str(&config, "os") {
        Some(s) => str_eq(s.as_str(), platform.os()),
        None => false,
    };
    let arch_ok = match member_str(&config, "architecture") {
        Some(s) => str_eq(s.as_str(), platform.architecture()),
        None => false,
    };
    if !os_ok || !arch_ok {
        let head = concat("base image ", image);
        let mid = concat(head.as_str(), " does not match platform ");
        return Err(RegistryError(concat(mid.as_str(), platform.to_text().as_str())));
    }
    let ghost m = manifest;
    let layers = match resolve_layers(manifest.layers, pulled) {
        Ok(ls) => ls,
        Err(e) => {
            return Err(e);
        },
    };
    proof {
        reveal_strlit("application/vnd.oci.image.manifest.v1+json");
    }
    let manifest_media_type = match manifest.media_type {
        Some(t) => t,
        None => "application/vnd.oci.image.manifest.v1+json".to_owned(),
    };
    let annotations = match manifest.annotations {
        Some(a) => a,
        None => StrMap::new(),
    };
    Ok(BaseImage { manifest_media_type, config_media_type, config, layers, annotations })
}

/// The `(image, reference)` pairs of an image set, image by image, in reference order.
pub open spec fn publications_of(images: Seq<crate::model::Image>) -> Seq<(Seq<char>, Seq<char>)>
    decreases images.len(),
{
    if images.len() == 0 {
        Seq::empty()
    } else {
        let last = images.last();
        publications_of(images.drop_last()) + views(last.references@).map_values(|r: Seq<char>| (last.name@, r))
    }
}

/// The image and reference of every reference of an image set; an error when there is none.
pub fn publications(images: &ImageSet) -> (r: Result<Vec<(String, String)>, PublishError>)
    ensures
        match r {
            Ok(v) => v@.len() > 0 && v@.map_values(|p: (String, String)| (p.0@, p.1@)) == publications_of(images.spec_images()),
            Err(e) => e is Invalid && publications_of(images.spec_images()).len() == 0,
        },
{
    let list = images.images();
    let mut out: Vec<(String, String)> = Vec::new();
    let mut i: usize = 0;
    assert(list@.take(0) =~= Seq::<crate::model::Image>::empty());
    while i < list.len()
        invariant
            list@ == images.spec_images(),
            i <= list@.len(),
            out@.map_values(|p: (String, String)| (p.0@, p.1@)) == publications_of(list@.take(i as int)),
        decreases list@.len() - i,
    {
        let image = &list[i];
        let ghost start = out@.map_values(|p: (String, String)| (p.0@, p.1@));
        let mut j: usize = 0;
        while j < image.references.len()
            invariant
                i < list@.len(),
                *image == list@[i as int],
                j <= image.references@.len(),
                out@.map_values(|p: (String, String)| (p.0@, p.1@))
                    == start + views(image.references@).take(j as int).map_values(|r: Seq<char>| (image.name@, r)),
            decreases image.references@.len() - j,
        {
            let ghost before = out@;
            out.push((image.name.clone(), image.references[j].clone()));
            proof {
                let vs = views(image.references@);
                assert(vs[j as int] == image.references@[j as int]@);
                assert(vs.take(j + 1) =~= vs.take(j as int).push(vs[j as int]));
                assert(out@.map_values(|p: (String, String)| (p.0@, p.1@)) =~= before.map_values(|p: (String, String)| (p.0@, p.1@)).push((image.name@, vs[j as int])));
                assert(out@.map_values(|p: (String, String)| (p.0@, p.1@)) =~= start + vs.take(j + 1).map_values(|r: Seq<char>| (image.name@, r)));
            }
            j = j + 1;
        }
        proof {
            let vs = views(image.references@);
            assert(vs.take(j as int) =~= vs);
            assert(list@.take(i + 1).drop_last() =~= list@.take(i as int));
            assert(list@.take(i + 1).last() == list@[i as int]);
        }
        i = i + 1;
    }
    assert(list@.take(i as int) =~= list@);
    if out.len() == 0 {
        return Err(PublishError::Invalid("image set has no references to publish".to_owned()));
    }
    Ok(out)
}

/// What each reference is published as: the digest built for its image.
pub fn publish_targets(publications: &Vec<(String, String)>, result: &BuildResult) -> (r: Vec<(String, String)>)
    requires
        result.image_digests.wf(),
        forall|i: int| 0 <= i < publications@.len() ==> result.image_digests.view().contains_key(#[trigger] publications@[i].0@),
    ensures
        r@.len() == publications@.len(),
        forall|i: int| 0 <= i < publications@.len() ==> (#[trigger] r@[i]).0@ == publications@[i].1@
            && r@[i].1@ == result.image_digests.view()[publications@[i].0@]@,
{
    let mut out: Vec<(String, String)> = Vec::new();
    let mut i: usize = 0;
    while i < publications.len()
        invariant
            result.image_digests.wf(),
            forall|k: int| 0 <= k < publications@.len() ==> result.image_digests.view().contains_key(#[trigger] publications@[k].0@),
            i <= publications@.len(),
            out@.len() == i,
            forall|k: int| 0 <= k < i ==> (#[trigger] out@[k]).0@ == publications@[k].1@
                && out@[k].1@ == result.image_digests.view()[publications@[k].0@]@,
        decreases publications@.len() - i,
    {
        assert(result.image_digests.view().contains_key(publications@[i as int].0@));
        let digest = result.image_digests.get(publications[i].0.as_str()).unwrap();
        out.push((publications[i].1.clone(), digest.clone()));
        i = i + 1;
    }
    out
}


/// A platform that an image index offers: its OS, architecture and variant, and the digest of
/// the manifest for it.
#[derive(Debug)]
pub struct IndexEntry {
    pub platform: Option<(String, String, Option<String>)>,
    pub digest: String,
}

/// Whether an index entry serves platform `p`: same OS and architecture, and the same variant
/// when `p` names one.
pub open spec fn entry_serves(e: IndexEntry, p: crate::platform::PlatformView) -> bool {
    e.platform matches Some((os, arch, variant)) && os@ == p.os && arch@ == p.architecture
        && (p.variant matches Some(v) ==> (variant matches Some(cv) && cv@ == v))
}

/// An index entry serves a platform exactly when it names the same operating system and
/// architecture and, when the platform names a variant, that same variant: an entry for
/// another variant never serves it, and one without a variant serves it only when the platform
/// names none.
pub proof fn lemma_entry_serves_same_variant(e: IndexEntry, p: crate::platform::PlatformView)
    ensures
        entry_serves(e, p) <==> (match e.platform {
            Some((os, arch, variant)) => os@ == p.os && arch@ == p.architecture && match p.variant {
                Some(v) => match variant {
                    Some(cv) => cv@ == v,
                    None => false,
                },
                None => true,
            },
            None => false,
        }),
{
}

/// The digest of the first entry of an image index that serves `platform`, if any.
pub fn matching_entry(entries: &Vec<IndexEntry>, platform: &Platform) -> (r: Option<String>)
    ensures
        r matches Some(d) ==> exists|i: int| 0 <= i < entries@.len() && d@ == (#[trigger] entries@[i]).digest@
            && match entries@[i].platform {
                Some((os, arch, variant)) => os@ == platform@.os && arch@ == platform@.architecture && match platform@.variant {
                    Some(v) => match variant {
                        Some(cv) => cv@ == v,
                        None => false,
                    },
                    None => true,
                },
                None => false,
            },
        match r {
            Some(d) => exists|i: int| 0 <= i < entries@.len() && entry_serves(#[trigger] entries@[i], platform@)
                && d@ == entries@[i].digest@ && forall|j: int| 0 <= j < i ==> !entry_serves(#[trigger] entries@[j], platform@),
            None => forall|i: int| 0 <= i < entries@.len() ==> !entry_serves(#[trigger] entries@[i], platform@),
        },
{
    let mut i: usize = 0;
    while i < entries.len()
        invariant
            i <= entries@.len(),
            forall|j: int| 0 <= j < i ==> !entry_serves(#[trigger] entries@[j], platform@),
        decreases entries@.len() - i,
    {
        let serves = match &entries[i].platform {
            Some((os, arch, variant)) => {
                str_eq(os.as_str(), platform.os()) && str_eq(arch.as_str(), platform.architecture()) && match platform.variant() {
                    Some(v) => match variant {
                        Some(cv) => str_eq(cv.as_str(), v),
                        None => false,
                    },
                    None => true,
                }
            },
            None => false,
        };
        if serves {
            assert(entry_serves(entries@[i as int], platform@));
            return Some(entries[i].digest.clone());
        }
        i = i + 1;
    }
    None
}
} // verus!
