//! OCI descriptors, manifests and indexes, and the compact JSON they are stored as.
use vstd::prelude::*;
use vstd::string::*;
use vstd::utf8::encode_utf8;

use crate::digest::{digest_of, digest_spec, hex_digit};
use crate::json::{jv, jv_items, jv_pairs, json_text, lemma_jv_pairs_len, to_json_text, Json, JsonValue};
use crate::strmap::StrMap;
use crate::text::{concat, substring};
use crate::tree::opt_view;

verus! {

pub open spec fn index_media() -> Seq<char> {
    "application/vnd.oci.image.index.v1+json"@
}

pub open spec fn oci_manifest_media() -> Seq<char> {
    "application/vnd.oci.image.manifest.v1+json"@
}

pub open spec fn oci_config_media() -> Seq<char> {
    "application/vnd.oci.image.config.v1+json"@
}

pub open spec fn oci_layer_media() -> Seq<char> {
    "application/vnd.oci.image.layer.v1.tar+gzip"@
}

pub open spec fn docker_manifest_media() -> Seq<char> {
    "application/vnd.docker.distribution.manifest.v2+json"@
}

pub open spec fn docker_layer_media() -> Seq<char> {
    "application/vnd.docker.image.rootfs.diff.tar.gzip"@
}

/// The annotation key that names an image in an OCI layout index.
pub open spec fn ref_name_key() -> Seq<char> {
    "org.opencontainers.image.ref.name"@
}

/// Decimal digits of a number, without leading zeros.
pub open spec fn decimal_spec(n: nat) -> Seq<char>
    decreases n,
{
    if n < 10 {
        seq![hex_digit(n as int)]
    } else {
        decimal_spec(n / 10) + seq![hex_digit((n % 10) as int)]
    }
}

fn digit_text(d: u64) -> (r: String)
    requires
        d < 10,
    ensures
        r@ == seq![hex_digit(d as int)],
{
    let digits = "0123456789";
    proof {
        reveal_strlit("0123456789");
        assert(digits@ =~= seq!['0', '1', '2', '3', '4', '5', '6', '7', '8', '9']);
    }
    let r = substring(digits, d as usize, d as usize + 1);
    proof {
        assert(r@ =~= seq![digits@[d as int]]);
        if d == 0 {
        } else if d == 1 {
        } else if d == 2 {
        } else if d == 3 {
        } else if d == 4 {
        } else if d == 5 {
        } else if d == 6 {
        } else if d == 7 {
        } else if d == 8 {
        } else {
        }
    }
    r
}

/// The decimal text of `n`, as JSON writes an unsigned integer.
pub fn decimal(n: u64) -> (r: String)
    ensures
        r@ == decimal_spec(n as nat),
    decreases n,
{
    if n < 10 {
        digit_text(n)
    } else {
        let high = decimal(n / 10);
        let low = digit_text(n % 10);
        concat(high.as_str(), low.as_str())
    }
}

/// The platform a manifest is for, as an index records it.
#[derive(Debug)]
pub struct OciPlatform {
    pub architecture: String,
    pub os: String,
    pub variant: Option<String>,
}

/// A reference to a blob: its media type, digest and size.
#[derive(Debug)]
pub struct Descriptor {
    pub media_type: String,
    pub digest: String,
    pub size: u64,
    pub platform: Option<OciPlatform>,
    /// Written only when not empty.
    pub annotations: StrMap<String>,
}

/// A layer blob stored by a build.
#[derive(Debug)]
pub struct LayerBlob {
    /// Digest of the compressed blob.
    pub digest: String,
    /// Size of the compressed blob.
    pub size: u64,
    /// Digest of the uncompressed archive.
    pub diff_id: String,
}

/// String-valued members for string pairs, in order.
pub open spec fn string_members(items: Seq<(String, String)>) -> Seq<(Seq<char>, Json)>
    decreases items.len(),
{
    if items.len() == 0 {
        Seq::empty()
    } else {
        string_members(items.drop_last()).push((items.last().0@, Json::Str(items.last().1@)))
    }
}

pub open spec fn platform_json(p: OciPlatform) -> Json {
    Json::Object(
        seq![("architecture"@, Json::Str(p.architecture@)), ("os"@, Json::Str(p.os@))] + match p.variant {
            Some(v) => seq![("variant"@, Json::Str(v@))],
            None => Seq::empty(),
        },
    )
}

/// A descriptor object: `mediaType`, `digest`, `size`, then `platform` when given and
/// `annotations` when not empty.
pub open spec fn desc_json(
    media_type: Seq<char>,
    digest: Seq<char>,
    size: nat,
    platform: Option<Json>,
    annotations: Seq<(Seq<char>, Json)>,
) -> Json {
    Json::Object(
        seq![
            ("mediaType"@, Json::Str(media_type)),
            ("digest"@, Json::Str(digest)),
            ("size"@, Json::Number(decimal_spec(size))),
        ] + match platform {
            Some(p) => seq![("platform"@, p)],
            None => Seq::empty(),
        } + if annotations.len() == 0 {
            Seq::empty()
        } else {
            seq![("annotations"@, Json::Object(annotations))]
        },
    )
}

pub open spec fn descriptor_json(d: Descriptor) -> Json {
    desc_json(
        d.media_type@,
        d.digest@,
        d.size as nat,
        match d.platform {
            Some(p) => Some(platform_json(p)),
            None => None,
        },
        string_members(d.annotations.items()),
    )
}

pub open spec fn descriptors_json(ds: Seq<Descriptor>) -> Seq<Json>
    decreases ds.len(),
{
    if ds.len() == 0 {
        Seq::empty()
    } else {
        descriptors_json(ds.drop_last()).push(descriptor_json(ds.last()))
    }
}

/// The abstract value of a layer blob: its digest, size and diff id.
pub open spec fn blob_view(b: LayerBlob) -> (Seq<char>, u64, Seq<char>) {
    (b.digest@, b.size, b.diff_id@)
}

pub open spec fn blob_views(bs: Seq<LayerBlob>) -> Seq<(Seq<char>, u64, Seq<char>)> {
    bs.map_values(|b: LayerBlob| blob_view(b))
}

/// The abstract value of a platform: architecture, operating system and variant.
pub open spec fn platform_view(p: OciPlatform) -> (Seq<char>, Seq<char>, Option<Seq<char>>) {
    (p.architecture@, p.os@, opt_view(p.variant))
}

/// String pairs as pairs of their characters.
pub open spec fn text_pairs(items: Seq<(String, String)>) -> Seq<(Seq<char>, Seq<char>)> {
    items.map_values(|kv: (String, String)| (kv.0@, kv.1@))
}

/// The abstract value of a descriptor: media type, digest, size, platform (architecture,
/// operating system, variant) and annotations.
pub type DescriptorView = (Seq<char>, Seq<char>, u64, Option<(Seq<char>, Seq<char>, Option<Seq<char>>)>, Seq<(Seq<char>, Seq<char>)>);

/// The abstract value of a descriptor.
pub open spec fn desc_view(d: Descriptor) -> DescriptorView {
    (
        d.media_type@,
        d.digest@,
        d.size,
        match d.platform {
            Some(p) => Some(platform_view(p)),
            None => None,
        },
        text_pairs(d.annotations.items()),
    )
}

/// String members depend on the characters of the pairs alone.
pub proof fn lemma_string_members_view(a: Seq<(String, String)>, b: Seq<(String, String)>)
    requires
        text_pairs(a) == text_pairs(b),
    ensures
        string_members(a) == string_members(b),
    decreases a.len(),
{
    assert(a.len() == text_pairs(a).len() && b.len() == text_pairs(b).len());
    if a.len() > 0 {
        assert(text_pairs(a.drop_last()) =~= text_pairs(a).drop_last());
        assert(text_pairs(b.drop_last()) =~= text_pairs(b).drop_last());
        lemma_string_members_view(a.drop_last(), b.drop_last());
        assert(text_pairs(a)[a.len() - 1] == text_pairs(b)[a.len() - 1]);
    }
}

/// A descriptor's JSON depends on its abstract value alone.
pub proof fn lemma_descriptor_json_view(a: Descriptor, b: Descriptor)
    requires
        desc_view(a) == desc_view(b),
    ensures
        descriptor_json(a) == descriptor_json(b),
{
    lemma_string_members_view(a.annotations.items(), b.annotations.items());
    match (a.platform, b.platform) {
        (Some(p), Some(q)) => {
            assert(platform_view(p) == platform_view(q));
            assert(platform_json(p) =~= platform_json(q));
        },
        _ => {},
    }
}

/// Descriptors' JSON depends on their abstract values alone.
pub proof fn lemma_descriptors_json_view(a: Seq<Descriptor>, b: Seq<Descriptor>)
    requires
        a.len() == b.len(),
        forall|i: int| 0 <= i < a.len() ==> desc_view(#[trigger] a[i]) == desc_view(b[i]),
    ensures
        descriptors_json(a) == descriptors_json(b),
    decreases a.len(),
{
    if a.len() > 0 {
        lemma_descriptors_json_view(a.drop_last(), b.drop_last());
        lemma_descriptor_json_view(a.last(), b.last());
    }
}

/// An image manifest object.
pub open spec fn manifest_json(
    media_type: Seq<char>,
    config: Json,
    layers: Seq<Json>,
    annotations: Seq<(Seq<char>, Json)>,
) -> Json {
    Json::Object(
        seq![
            ("schemaVersion"@, Json::Number(seq!['2'])),
            ("mediaType"@, Json::Str(media_type)),
            ("config"@, config),
            ("layers"@, Json::Array(layers)),
        ] + if annotations.len() == 0 {
            Seq::empty()
        } else {
            seq![("annotations"@, Json::Object(annotations))]
        },
    )
}

/// An image index object.
pub open spec fn index_json(manifests: Seq<Json>) -> Json {
    Json::Object(
        seq![
            ("schemaVersion"@, Json::Number(seq!['2'])),
            ("mediaType"@, Json::Str(index_media())),
            ("manifests"@, Json::Array(manifests)),
        ],
    )
}

/// The bytes of a JSON document: the UTF-8 encoding of its compact text.
pub open spec fn json_bytes(j: Json) -> Seq<u8> {
    encode_utf8(json_text(j))
}

/// String-valued members for a map of strings.
pub fn string_members_value(m: &StrMap<String>) -> (r: Vec<(String, JsonValue)>)
    ensures
        jv_pairs(r@) == string_members(m.items()),
{
    let mut out: Vec<(String, JsonValue)> = Vec::new();
    let n = m.len();
    let mut i: usize = 0;
    assert(m.items().take(0) =~= Seq::<(String, String)>::empty());
    while i < n
        invariant
            n == m.items().len(),
            i <= n,
            jv_pairs(out@) == string_members(m.items().take(i as int)),
        decreases n - i,
    {
        let (k, v) = m.at(i);
        let ghost before = out@;
        out.push((k.clone(), JsonValue::Str(v.clone())));
        proof {
            assert(out@.drop_last() =~= before);
            assert(out@.last().0@ == k@);
            assert(jv(out@.last().1) == Json::Str(v@));
            assert(m.items().take(i + 1).drop_last() =~= m.items().take(i as int));
            assert(m.items().take(i + 1).last() == m.items()[i as int]);
            assert(jv_pairs(out@) == jv_pairs(before).push((k@, Json::Str(v@))));
        }
        i = i + 1;
    }
    assert(m.items().take(n as int) =~= m.items());
    out
}

impl OciPlatform {
    pub fn to_json(&self) -> (r: JsonValue)
        ensures
            jv(r) == platform_json(*self),
    {
        let mut members: Vec<(String, JsonValue)> = Vec::new();
        members.push(("architecture".to_owned(), JsonValue::Str(self.architecture.clone())));
        members.push(("os".to_owned(), JsonValue::Str(self.os.clone())));
        if let Some(v) = &self.variant {
            members.push(("variant".to_owned(), JsonValue::Str(v.clone())));
        }
        proof {
            lemma_jv_pairs_len(members@);
            assert(jv_pairs(members@) =~= platform_json(*self)->Object_0);
        }
        JsonValue::Object(members)
    }

    /// A copy of this platform.
    pub fn duplicate(&self) -> (r: OciPlatform)
        ensures
            r == *self,
    {
        OciPlatform {
            architecture: self.architecture.clone(),
            os: self.os.clone(),
            variant: match &self.variant {
                Some(v) => Some(v.clone()),
                None => None,
            },
        }
    }
}

impl Descriptor {
    pub fn to_json(&self) -> (r: JsonValue)
        ensures
            jv(r) == descriptor_json(*self),
    {
        let mut members: Vec<(String, JsonValue)> = Vec::new();
        members.push(("mediaType".to_owned(), JsonValue::Str(self.media_type.clone())));
        members.push(("digest".to_owned(), JsonValue::Str(self.digest.clone())));
        members.push(("size".to_owned(), JsonValue::Number(decimal(self.size))));
        let ghost base = members@;
        if let Some(p) = &self.platform {
            members.push(("platform".to_owned(), p.to_json()));
        }
        let ghost with_platform = members@;
        if self.annotations.len() > 0 {
            let a = string_members_value(&self.annotations);
            members.push(("annotations".to_owned(), JsonValue::Object(a)));
        }
        proof {
            lemma_jv_pairs_len(members@);
            lemma_jv_pairs_len(with_platform);
            assert(jv_pairs(members@) =~= descriptor_json(*self)->Object_0);
        }
        JsonValue::Object(members)
    }

    /// This descriptor with the annotation naming it `reference` in an index.
    pub fn with_reference(self, reference: String) -> (r: Descriptor)
        requires
            self.annotations.wf(),
        ensures
            r.media_type == self.media_type,
            r.digest == self.digest,
            r.size == self.size,
            r.platform == self.platform,
            r.annotations.wf(),
            r.annotations.view() == self.annotations.view().insert(ref_name_key(), reference),
    {
        let mut d = self;
        d.annotations.insert("org.opencontainers.image.ref.name".to_owned(), reference);
        d
    }

    /// A copy of this descriptor.
    pub fn duplicate(&self) -> (r: Descriptor)
        ensures
            r.media_type == self.media_type,
            r.digest == self.digest,
            r.size == self.size,
            r.platform == self.platform,
            r.annotations.items() == self.annotations.items(),
    {
        Descriptor {
            media_type: self.media_type.clone(),
            digest: self.digest.clone(),
            size: self.size,
            platform: match &self.platform {
                Some(p) => Some(p.duplicate()),
                None => None,
            },
            annotations: self.annotations.duplicate(),
        }
    }
}

/// The JSON values of descriptors, in order.
pub fn descriptors_value(ds: &Vec<Descriptor>) -> (r: Vec<JsonValue>)
    ensures
        jv_items(r@) == descriptors_json(ds@),
{
    let mut out: Vec<JsonValue> = Vec::new();
    let mut i: usize = 0;
    while i < ds.len()
        invariant
            i <= ds@.len(),
            jv_items(out@) == descriptors_json(ds@.take(i as int)),
        decreases ds@.len() - i,
    {
        let ghost before = out@;
        out.push(ds[i].to_json());
        proof {
            assert(out@.drop_last() =~= before);
            assert(ds@.take(i + 1).drop_last() =~= ds@.take(i as int));
            assert(ds@.take(i + 1).last() == ds@[i as int]);
        }
        i = i + 1;
    }
    assert(ds@.take(i as int) =~= ds@);
    out
}

/// The stored bytes of a JSON value.
pub fn json_to_bytes(v: &JsonValue) -> (r: Vec<u8>)
    ensures
        r@ == json_bytes(jv(*v)),
{
    let text = to_json_text(v);
    vstd::slice::slice_to_vec(text.as_str().as_bytes())
}

/// Stores `bytes` under their digest, keeping an existing blob with that digest; returns
/// the digest and size.
pub fn put_blob(blobs: &mut StrMap<Vec<u8>>, bytes: Vec<u8>) -> (r: (String, u64))
    requires
        old(blobs).wf(),
    ensures
        final(blobs).wf(),
        r.0@ == digest_spec(bytes@),
        r.1 == bytes@.len(),
        final(blobs).view() == if old(blobs).view().contains_key(digest_spec(bytes@)) {
            old(blobs).view()
        } else {
            old(blobs).view().insert(digest_spec(bytes@), bytes)
        },
{
    let digest = digest_of(bytes.as_slice());
    let size = bytes.len() as u64;
    if !blobs.contains_key(digest.as_str()) {
        blobs.insert(digest.clone(), bytes);
    }
    (digest, size)
}

/// The image index for `manifests`, as stored bytes.
pub fn index_bytes(manifests: &Vec<Descriptor>) -> (r: Vec<u8>)
    ensures
        r@ == json_bytes(index_json(descriptors_json(manifests@))),
{
    let mut members: Vec<(String, JsonValue)> = Vec::new();
    members.push(("schemaVersion".to_owned(), JsonValue::Number(decimal(2))));
    members.push(("mediaType".to_owned(), JsonValue::Str("application/vnd.oci.image.index.v1+json".to_owned())));
    members.push(("manifests".to_owned(), JsonValue::Array(descriptors_value(manifests))));
    proof {
        assert(decimal_spec(2) =~= seq!['2']);
        lemma_jv_pairs_len(members@);
        assert(jv_pairs(members@) =~= index_json(descriptors_json(manifests@))->Object_0);
    }
    json_to_bytes(&JsonValue::Object(members))
}

} // verus!
