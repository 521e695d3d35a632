//! The configuration that declares images and reusable layers, and its validation.
use vstd::prelude::*;
use vstd::string::*;

use crate::oci::{decimal, decimal_spec};
use crate::platform::{platform_string_valid, Platform};
use crate::sources::{file_name, file_name_spec};
use crate::strmap::{lemma_sorted_keys, sorted_keys, StrMap};
use crate::text::{concat, str_eq, views};

verus! {

/// A configuration file format.
#[derive(Debug, Clone, Copy, PartialEq, Eq, Structural)]
pub enum Format {
    Toml,
    Json,
    Yaml,
}

/// A value shared by every platform or selected from a map keyed by OCI platform.
#[derive(Debug, Clone)]
pub enum PlatformValue {
    /// A value used for every output platform.
    Scalar(String),
    /// Values keyed by OCI platform, with an optional `default` fallback.
    Platforms(StrMap<String>),
}

/// Options for copying a local file or directory into an image layer.
#[derive(Debug, Clone)]
pub struct FileMapping {
    /// Local source path, optionally selected by OCI platform.
    pub source: PlatformValue,
    /// Absolute destination path in the image.
    pub to: String,
    /// Git-style glob patterns selecting entries of a directory source.
    pub includes: Vec<String>,
    /// Git-style glob patterns to exclude after inclusion.
    pub exclude: Vec<String>,
    /// Portable file mode as a four-digit octal string, such as `0755`.
    pub mode: Option<String>,
    /// Numeric owner in `UID` or `UID:GID` form.
    pub owner: Option<String>,
    /// Follow symlink targets instead of archiving symlinks.
    pub follow_symlinks: bool,
    /// Preserve the source path below the destination instead of copying only its contents.
    pub preserve_paths: bool,
}

/// A reusable, ordered collection of local files that produces one OCI layer.
#[derive(Debug, Clone)]
pub struct Layer {
    pub files: Vec<FileMapping>,
}

/// The external or locally configured image used as an image's base.
#[derive(Debug, Clone)]
pub enum Base {
    /// An OCI image reference, or `scratch` for an empty base.
    External(String),
    /// Another image declared in this configuration.
    Local { image: String },
}

/// An OCI image assembled from a base, named layers, local files, and runtime metadata.
#[derive(Debug, Clone)]
pub struct Image {
    pub base: Base,
    /// OCI platforms to build; inferred when empty.
    pub platforms: Vec<String>,
    /// Named layers appended in this order after all base-image layers.
    pub layers: Vec<String>,
    /// Files placed in one implicit final layer after all named layers.
    pub files: Vec<FileMapping>,
    pub entrypoint: Option<Vec<String>>,
    pub command: Option<Vec<String>>,
    pub user: Option<String>,
    pub workdir: Option<String>,
    pub stop_signal: Option<String>,
    pub expose: Option<Vec<String>>,
    pub volumes: Option<Vec<String>>,
    pub env: StrMap<String>,
    pub labels: StrMap<String>,
    pub annotations: StrMap<String>,
    /// Complete image references used when publishing.
    pub tags: Vec<String>,
    /// Combine all added layers into one new layer while preserving base layers.
    pub squash: bool,
    /// Apply the base and added layers, then emit the complete filesystem as one layer.
    pub flatten: bool,
}

/// A collection of OCI images and reusable layers to build.
#[derive(Debug, Clone)]
pub struct Config {
    /// Reusable filesystem layers keyed by layer name.
    pub layers: StrMap<Layer>,
    /// Images keyed by the name used on the command line and by local image bases.
    pub images: StrMap<Image>,
}

/// Errors of loading or validating a configuration.
#[derive(Debug)]
pub enum ConfigError {
    /// The file could not be read or parsed.
    Parse(String),
    /// The file's extension names no supported format.
    UnsupportedFormat(String),
    /// The configuration is invalid.
    Invalid(String),
}

/// A file mode as a configuration file writes it: quoted text, or a bare number.
#[derive(Debug)]
pub enum ModeValue {
    Text(String),
    Number(i64),
}

/// The decimal text of a signed number.
pub open spec fn signed_decimal(n: i64) -> Seq<char> {
    if n < 0 {
        seq!['-'] + decimal_spec((-n) as nat)
    } else {
        decimal_spec(n as nat)
    }
}

/// The mode text that a file mapping takes; a bare number is refused while the file is
/// read, as a mode is octal text such as `"0755"`.
pub fn mode_text(value: ModeValue) -> (r: Result<String, ConfigError>)
    ensures
        match value {
            ModeValue::Text(t) => r == Ok::<String, ConfigError>(t),
            ModeValue::Number(n) => r matches Err(ConfigError::Parse(m))
                && m@ == "file mode "@ + signed_decimal(n) + " must be a quoted octal string such as \"0755\""@,
        },
{
    match value {
        ModeValue::Text(t) => Ok(t),
        ModeValue::Number(n) => {
            let digits = if n < 0 {
                let magnitude: u64 = (-(n as i128)) as u64;
                concat("-", decimal(magnitude).as_str())
            } else {
                decimal(n as u64)
            };
            proof {
                reveal_strlit("-");
            }
            let head = concat("file mode ", digits.as_str());
            Err(ConfigError::Parse(concat(head.as_str(), " must be a quoted octal string such as \"0755\"")))
        },
    }
}

pub open spec fn default_key() -> Seq<char> {
    "default"@
}

/// The value of a platform-specific value for `p`: the scalar, the value for `p`, or the
/// `default` value.
pub open spec fn value_for(pv: PlatformValue, p: Seq<char>) -> Option<String> {
    match pv {
        PlatformValue::Scalar(v) => Some(v),
        PlatformValue::Platforms(m) => if m.view().contains_key(p) {
            Some(m.view()[p])
        } else if m.view().contains_key(default_key()) {
            Some(m.view()[default_key()])
        } else {
            None
        },
    }
}

pub open spec fn value_wf(pv: PlatformValue) -> bool {
    pv matches PlatformValue::Platforms(m) ==> m.wf()
}

pub open spec fn files_wf(fs: Seq<FileMapping>) -> bool {
    forall|i: int| 0 <= i < fs.len() ==> value_wf(#[trigger] fs[i].source)
}

/// Whether every map of a configuration keeps its keys in order.
pub open spec fn config_wf(c: Config) -> bool {
    &&& c.images.wf()
    &&& c.layers.wf()
    &&& forall|k: Seq<char>| #[trigger] c.images.view().contains_key(k) ==> files_wf(c.images.view()[k].files@)
    &&& forall|k: Seq<char>| #[trigger] c.layers.view().contains_key(k) ==> files_wf(c.layers.view()[k].files@)
    &&& forall|k: Seq<char>| #[trigger] c.images.view().contains_key(k) ==> image_maps_wf(c.images.view()[k])
}

/// Whether every platform-specific source of the files keeps its keys in order.
fn files_wf_exec(fs: &Vec<FileMapping>) -> (r: bool)
    ensures
        r == files_wf(fs@),
{
    let mut i: usize = 0;
    while i < fs.len()
        invariant
            i <= fs@.len(),
            forall|j: int| 0 <= j < i ==> value_wf(#[trigger] fs@[j].source),
        decreases fs@.len() - i,
    {
        if let PlatformValue::Platforms(m) = &fs[i].source {
            if !m.is_wf() {
                return false;
            }
        }
        i = i + 1;
    }
    true
}

/// Whether every map of a configuration keeps its keys in order, as every configuration built
/// through `StrMap::insert` does; what the checks of this module ask of a configuration.
pub fn config_wf_exec(c: &Config) -> (r: bool)
    ensures
        r == config_wf(*c),
{
    if !c.images.is_wf() || !c.layers.is_wf() {
        return false;
    }
    proof {
        c.images.lemma_view();
        c.layers.lemma_view();
    }
    let n = c.images.len();
    let mut i: usize = 0;
    while i < n
        invariant
            c.images.wf(),
            n == c.images.items().len(),
            i <= n,
            forall|j: int| 0 <= j < i ==> files_wf(c.images.view()[(#[trigger] c.images.items()[j]).0@].files@)
                && image_maps_wf(c.images.view()[c.images.items()[j].0@]),
        decreases n - i,
    {
        let (name, image) = c.images.at(i);
        proof {
            c.images.lemma_view();
            assert(c.images.view()[name@] == *image);
        }
        if !files_wf_exec(&image.files) || !image.env.is_wf() || !image.labels.is_wf() || !image.annotations.is_wf() {
            proof {
                assert(c.images.key_seq()[i as int] == name@);
                assert(c.images.view().contains_key(name@));
            }
            return false;
        }
        i = i + 1;
    }
    proof {
        lemma_forall_keys(c.images, |k: Seq<char>| files_wf(c.images.view()[k].files@) && image_maps_wf(c.images.view()[k]));
    }
    let m = c.layers.len();
    let mut i: usize = 0;
    while i < m
        invariant
            c.layers.wf(),
            m == c.layers.items().len(),
            i <= m,
            forall|j: int| 0 <= j < i ==> files_wf(c.layers.view()[(#[trigger] c.layers.items()[j]).0@].files@),
        decreases m - i,
    {
        let (name, layer) = c.layers.at(i);
        proof {
            c.layers.lemma_view();
            assert(c.layers.view()[name@] == *layer);
        }
        if !files_wf_exec(&layer.files) {
            proof {
                assert(c.layers.key_seq()[i as int] == name@);
                assert(c.layers.view().contains_key(name@));
            }
            return false;
        }
        i = i + 1;
    }
    proof {
        lemma_forall_keys(c.layers, |k: Seq<char>| files_wf(c.layers.view()[k].files@));
    }
    true
}

/// Whether the maps of a configured image keep their keys in order.
pub open spec fn image_maps_wf(i: Image) -> bool {
    i.env.wf() && i.labels.wf() && i.annotations.wf()
}

impl PlatformValue {
    /// The value for `platform`, or the `default` value.
    pub fn for_platform(&self, platform: &str) -> (r: Option<&String>)
        requires
            value_wf(*self),
        ensures
            match r {
                Some(v) => value_for(*self, platform@) == Some(*v),
                None => value_for(*self, platform@) is None,
            },
    {
        match self {
            PlatformValue::Scalar(value) => Some(value),
            PlatformValue::Platforms(values) => match values.get(platform) {
                Some(v) => Some(v),
                None => values.get("default"),
            },
        }
    }
}

/// The images of the base chain from `name`: itself, then each local base in turn, ending at
/// an external base; `None` when an image is missing or repeats.
pub open spec fn chain_from(images: Map<Seq<char>, Image>, name: Seq<char>, visited: Seq<Seq<char>>, fuel: nat) -> Option<Seq<Seq<char>>>
    decreases fuel,
{
    if fuel == 0 || !images.contains_key(name) || visited.contains(name) {
        None
    } else {
        match images[name].base {
            Base::External(_) => Some(visited.push(name)),
            Base::Local { image } => chain_from(images, image@, visited.push(name), (fuel - 1) as nat),
        }
    }
}

pub open spec fn base_chain(images: Map<Seq<char>, Image>, name: Seq<char>) -> Option<Seq<Seq<char>>> {
    chain_from(images, name, Seq::empty(), images.dom().len() + 1)
}

/// The platforms that the platform-specific sources of `files` name, other than `default`,
/// added to `acc`.
pub open spec fn file_platforms(acc: Set<Seq<char>>, files: Seq<FileMapping>) -> Set<Seq<char>>
    decreases files.len(),
{
    if files.len() == 0 {
        acc
    } else {
        let prev = file_platforms(acc, files.drop_last());
        match files.last().source {
            PlatformValue::Platforms(m) => prev.union(m.view().dom().remove(default_key())),
            PlatformValue::Scalar(_) => prev,
        }
    }
}

/// The platforms named by the files of the existing layers among `names`, added to `acc`.
pub open spec fn layer_platforms(acc: Set<Seq<char>>, layers: Map<Seq<char>, Layer>, names: Seq<String>) -> Set<Seq<char>>
    decreases names.len(),
{
    if names.len() == 0 {
        acc
    } else {
        let prev = layer_platforms(acc, layers, names.drop_last());
        if layers.contains_key(names.last()@) {
            file_platforms(prev, layers[names.last()@].files@)
        } else {
            prev
        }
    }
}

/// The platforms named by the sources of the images of a chain and of their layers.
pub open spec fn chain_platforms(c: Config, chain: Seq<Seq<char>>) -> Set<Seq<char>>
    decreases chain.len(),
{
    if chain.len() == 0 {
        Set::empty()
    } else {
        let img = c.images.view()[chain.last()];
        layer_platforms(file_platforms(chain_platforms(c, chain.drop_last()), img.files@), c.layers.view(), img.layers@)
    }
}

/// Whether a file's source names platform `p` among its platform-specific values.
pub open spec fn names_platform(f: FileMapping, p: Seq<char>) -> bool {
    f.source matches PlatformValue::Platforms(m) && m.view().contains_key(p) && p != default_key()
}

proof fn lemma_file_platforms(acc: Set<Seq<char>>, files: Seq<FileMapping>)
    ensures
        acc.subset_of(file_platforms(acc, files)),
        acc.finite() && files_wf(files) ==> file_platforms(acc, files).finite(),
        forall|f: int, p: Seq<char>| 0 <= f < files.len() && #[trigger] names_platform(files[f], p)
            ==> file_platforms(acc, files).contains(p),
    decreases files.len(),
{
    if files.len() > 0 {
        let init = files.drop_last();
        lemma_file_platforms(acc, init);
        let prev = file_platforms(acc, init);
        if files_wf(files) {
            assert(files_wf(init)) by {
                assert forall|i: int| 0 <= i < init.len() implies value_wf(#[trigger] init[i].source) by {
                    assert(init[i] == files[i]);
                }
            }
            assert(value_wf(files[files.len() - 1].source));
            if let PlatformValue::Platforms(m) = files.last().source {
                m.lemma_view();
            }
        }
        assert forall|f: int, p: Seq<char>| 0 <= f < files.len() && #[trigger] names_platform(files[f], p)
            implies file_platforms(acc, files).contains(p) by {
            if f < files.len() - 1 {
                assert(init[f] == files[f]);
            }
        }
    }
}

proof fn lemma_layer_platforms(acc: Set<Seq<char>>, layers: Map<Seq<char>, Layer>, names: Seq<String>)
    ensures
        acc.subset_of(layer_platforms(acc, layers, names)),
        acc.finite() && (forall|k: Seq<char>| #[trigger] layers.contains_key(k) ==> files_wf(layers[k].files@))
            ==> layer_platforms(acc, layers, names).finite(),
        forall|l: int, f: int, p: Seq<char>| 0 <= l < names.len() && layers.contains_key(names[l]@)
            && 0 <= f < layers[names[l]@].files@.len() && #[trigger] names_platform(layers[names[l]@].files@[f], p)
            ==> layer_platforms(acc, layers, names).contains(p),
    decreases names.len(),
{
    if names.len() > 0 {
        let init = names.drop_last();
        lemma_layer_platforms(acc, layers, init);
        let prev = layer_platforms(acc, layers, init);
        let last = names.last()@;
        if layers.contains_key(last) {
            lemma_file_platforms(prev, layers[last].files@);
        }
        assert forall|l: int, f: int, p: Seq<char>| 0 <= l < names.len() && layers.contains_key(names[l]@)
            && 0 <= f < layers[names[l]@].files@.len() && #[trigger] names_platform(layers[names[l]@].files@[f], p)
            implies layer_platforms(acc, layers, names).contains(p) by {
            if l < names.len() - 1 {
                assert(init[l] == names[l]);
                assert(prev.contains(p));
            } else {
                assert(names[l] == names.last());
            }
        }
    }
}

proof fn lemma_chain_platforms(c: Config, chain: Seq<Seq<char>>)
    requires
        config_wf(c),
        forall|k: int| 0 <= k < chain.len() ==> c.images.view().contains_key(#[trigger] chain[k]),
    ensures
        chain_platforms(c, chain).finite(),
        forall|k: int, f: int, p: Seq<char>| 0 <= k < chain.len() && 0 <= f < c.images.view()[chain[k]].files@.len()
            && #[trigger] names_platform(c.images.view()[chain[k]].files@[f], p)
            ==> chain_platforms(c, chain).contains(p),
        forall|k: int, l: int, f: int, p: Seq<char>| 0 <= k < chain.len()
            && 0 <= l < c.images.view()[chain[k]].layers@.len()
            && c.layers.view().contains_key(c.images.view()[chain[k]].layers@[l]@)
            && 0 <= f < c.layers.view()[c.images.view()[chain[k]].layers@[l]@].files@.len()
            && #[trigger] names_platform(c.layers.view()[c.images.view()[chain[k]].layers@[l]@].files@[f], p)
            ==> chain_platforms(c, chain).contains(p),
    decreases chain.len(),
{
    if chain.len() > 0 {
        let init = chain.drop_last();
        assert forall|k: int| 0 <= k < init.len() implies c.images.view().contains_key(#[trigger] init[k]) by {
            assert(init[k] == chain[k]);
        }
        lemma_chain_platforms(c, init);
        let img = c.images.view()[chain.last()];
        assert(c.images.view().contains_key(chain[chain.len() - 1]));
        let prev = chain_platforms(c, init);
        lemma_file_platforms(prev, img.files@);
        let mid = file_platforms(prev, img.files@);
        lemma_layer_platforms(mid, c.layers.view(), img.layers@);
        assert(chain_platforms(c, chain) == layer_platforms(mid, c.layers.view(), img.layers@));
        assert forall|k: int, f: int, p: Seq<char>| 0 <= k < chain.len() && 0 <= f < c.images.view()[chain[k]].files@.len()
            && #[trigger] names_platform(c.images.view()[chain[k]].files@[f], p)
            implies chain_platforms(c, chain).contains(p) by {
            if k < chain.len() - 1 {
                assert(init[k] == chain[k]);
                assert(prev.contains(p));
            } else {
                assert(chain[k] == chain.last());
                assert(mid.contains(p));
            }
        }
        assert forall|k: int, l: int, f: int, p: Seq<char>| 0 <= k < chain.len()
            && 0 <= l < c.images.view()[chain[k]].layers@.len()
            && c.layers.view().contains_key(c.images.view()[chain[k]].layers@[l]@)
            && 0 <= f < c.layers.view()[c.images.view()[chain[k]].layers@[l]@].files@.len()
            && #[trigger] names_platform(c.layers.view()[c.images.view()[chain[k]].layers@[l]@].files@[f], p)
            implies chain_platforms(c, chain).contains(p) by {
            if k < chain.len() - 1 {
                assert(init[k] == chain[k]);
                assert(prev.contains(p));
            } else {
                assert(chain[k] == chain.last());
                let nm = img.layers@[l];
                assert(names_platform(c.layers.view()[nm@].files@[f], p));
            }
        }
    }
}

/// Whether a source of the images of a chain, or of the files of their named layers, names `p`.
pub open spec fn chain_names_platform(c: Config, chain: Seq<Seq<char>>, p: Seq<char>) -> bool {
    exists|k: int| 0 <= k < chain.len() && {
        let img = c.images.view()[#[trigger] chain[k]];
        ||| exists|f: int| 0 <= f < img.files@.len() && #[trigger] names_platform(img.files@[f], p)
        ||| exists|l: int, f: int| 0 <= l < img.layers@.len() && c.layers.view().contains_key(img.layers@[l]@)
            && 0 <= f < c.layers.view()[img.layers@[l]@].files@.len()
            && #[trigger] names_platform(c.layers.view()[img.layers@[l]@].files@[f], p)
    }
}

proof fn lemma_file_platforms_from(acc: Set<Seq<char>>, files: Seq<FileMapping>, p: Seq<char>)
    ensures
        file_platforms(acc, files).contains(p) ==> acc.contains(p)
            || exists|f: int| 0 <= f < files.len() && #[trigger] names_platform(files[f], p),
    decreases files.len(),
{
    if files.len() > 0 {
        let init = files.drop_last();
        lemma_file_platforms_from(acc, init, p);
        if file_platforms(acc, files).contains(p) && !file_platforms(acc, init).contains(p) {
            assert(names_platform(files[files.len() - 1], p));
        } else if file_platforms(acc, init).contains(p) && !acc.contains(p) {
            let f = choose|f: int| 0 <= f < init.len() && #[trigger] names_platform(init[f], p);
            assert(files[f] == init[f]);
        }
    }
}

proof fn lemma_layer_platforms_from(acc: Set<Seq<char>>, layers: Map<Seq<char>, Layer>, names: Seq<String>, p: Seq<char>)
    ensures
        layer_platforms(acc, layers, names).contains(p) ==> acc.contains(p)
            || exists|l: int, f: int| 0 <= l < names.len() && layers.contains_key(names[l]@)
                && 0 <= f < layers[names[l]@].files@.len() && #[trigger] names_platform(layers[names[l]@].files@[f], p),
    decreases names.len(),
{
    if names.len() > 0 {
        let init = names.drop_last();
        lemma_layer_platforms_from(acc, layers, init, p);
        let prev = layer_platforms(acc, layers, init);
        let last = names.last()@;
        if layer_platforms(acc, layers, names).contains(p) && !acc.contains(p) {
            if prev.contains(p) {
                let (l, f) = choose|l: int, f: int| 0 <= l < init.len() && layers.contains_key(init[l]@)
                    && 0 <= f < layers[init[l]@].files@.len() && #[trigger] names_platform(layers[init[l]@].files@[f], p);
                assert(names[l] == init[l]);
            } else {
                assert(layers.contains_key(last));
                lemma_file_platforms_from(prev, layers[last].files@, p);
                let f = choose|f: int| 0 <= f < layers[last].files@.len() && #[trigger] names_platform(layers[last].files@[f], p);
                assert(names[names.len() - 1]@ == last);
            }
        }
    }
}

proof fn lemma_chain_platforms_from(c: Config, chain: Seq<Seq<char>>, p: Seq<char>)
    ensures
        chain_platforms(c, chain).contains(p) ==> chain_names_platform(c, chain, p),
    decreases chain.len(),
{
    if chain.len() > 0 {
        let init = chain.drop_last();
        lemma_chain_platforms_from(c, init, p);
        let img = c.images.view()[chain.last()];
        let prev = chain_platforms(c, init);
        let mid = file_platforms(prev, img.files@);
        lemma_layer_platforms_from(mid, c.layers.view(), img.layers@, p);
        lemma_file_platforms_from(prev, img.files@, p);
        if chain_platforms(c, chain).contains(p) {
            let k_last = chain.len() - 1;
            assert(chain[k_last] == chain.last());
            if prev.contains(p) {
                let k = choose|k: int| 0 <= k < init.len() && {
                    let im = c.images.view()[#[trigger] init[k]];
                    ||| exists|f: int| 0 <= f < im.files@.len() && #[trigger] names_platform(im.files@[f], p)
                    ||| exists|l: int, f: int| 0 <= l < im.layers@.len() && c.layers.view().contains_key(im.layers@[l]@)
                        && 0 <= f < c.layers.view()[im.layers@[l]@].files@.len()
                        && #[trigger] names_platform(c.layers.view()[im.layers@[l]@].files@[f], p)
                };
                assert(chain[k] == init[k]);
            } else if mid.contains(p) {
                let f = choose|f: int| 0 <= f < img.files@.len() && #[trigger] names_platform(img.files@[f], p);
                assert(c.images.view()[chain[k_last]] == img);
            } else {
                let (l, f) = choose|l: int, f: int| 0 <= l < img.layers@.len() && c.layers.view().contains_key(img.layers@[l]@)
                    && 0 <= f < c.layers.view()[img.layers@[l]@].files@.len()
                    && #[trigger] names_platform(c.layers.view()[img.layers@[l]@].files@[f], p);
                assert(c.images.view()[chain[k_last]] == img);
            }
        }
    }
}

/// An image without explicit platforms whose base chain's sources name platforms is built for
/// exactly those platforms, in order: each named one is returned, and each returned one is named by a
/// source of an image of the chain or of a file of one of their named layers.
pub proof fn lemma_inferred_platforms_are_named(c: Config, name: Seq<char>, host: Seq<char>)
    requires
        config_wf(c),
        c.images.view().contains_key(name),
        c.images.view()[name].platforms@.len() == 0,
        base_chain(c.images.view(), name) matches Some(chain) && exists|q: Seq<char>| #[trigger] chain_names_platform(c, chain, q),
    ensures
        platforms_spec(c, name, host) matches Some(ps) && crate::strmap::strictly_sorted(ps) && forall|p: Seq<char>|
            #[trigger] ps.contains(p) <==> chain_names_platform(c, base_chain(c.images.view(), name).unwrap(), p),
{
    let images = c.images.view();
    let chain = base_chain(images, name).unwrap();
    lemma_chain_members(images, name, Seq::empty(), images.dom().len() + 1);
    lemma_chain_platforms(c, chain);
    let found = chain_platforms(c, chain);
    let q = choose|q: Seq<char>| #[trigger] chain_names_platform(c, chain, q);
    assert(found.contains(q)) by {
        let k = choose|k: int| 0 <= k < chain.len() && {
            let img = c.images.view()[#[trigger] chain[k]];
            ||| exists|f: int| 0 <= f < img.files@.len() && #[trigger] names_platform(img.files@[f], q)
            ||| exists|l: int, f: int| 0 <= l < img.layers@.len() && c.layers.view().contains_key(img.layers@[l]@)
                && 0 <= f < c.layers.view()[img.layers@[l]@].files@.len()
                && #[trigger] names_platform(c.layers.view()[img.layers@[l]@].files@[f], q)
        };
        let img = images[chain[k]];
        if exists|f: int| 0 <= f < img.files@.len() && #[trigger] names_platform(img.files@[f], q) {
            let f = choose|f: int| 0 <= f < img.files@.len() && #[trigger] names_platform(img.files@[f], q);
        } else {
            let (l, f) = choose|l: int, f: int| 0 <= l < img.layers@.len() && c.layers.view().contains_key(img.layers@[l]@)
                && 0 <= f < c.layers.view()[img.layers@[l]@].files@.len()
                && #[trigger] names_platform(c.layers.view()[img.layers@[l]@].files@[f], q);
        }
    }
    assert(found.len() > 0) by {
        if found.len() == 0 {
            assert(found =~= Set::<Seq<char>>::empty());
        }
    }
    lemma_sorted_keys(found);
    let ps = sorted_keys(found);
    assert forall|p: Seq<char>| #[trigger] ps.contains(p) <==> chain_names_platform(c, chain, p) by {
        lemma_chain_platforms_from(c, chain, p);
        if ps.contains(p) {
            assert(ps.to_set().contains(p));
        }
        if chain_names_platform(c, chain, p) {
            let k = choose|k: int| 0 <= k < chain.len() && {
                let img = c.images.view()[#[trigger] chain[k]];
                ||| exists|f: int| 0 <= f < img.files@.len() && #[trigger] names_platform(img.files@[f], p)
                ||| exists|l: int, f: int| 0 <= l < img.layers@.len() && c.layers.view().contains_key(img.layers@[l]@)
                    && 0 <= f < c.layers.view()[img.layers@[l]@].files@.len()
                    && #[trigger] names_platform(c.layers.view()[img.layers@[l]@].files@[f], p)
            };
            let img = images[chain[k]];
            if exists|f: int| 0 <= f < img.files@.len() && #[trigger] names_platform(img.files@[f], p) {
                let f = choose|f: int| 0 <= f < img.files@.len() && #[trigger] names_platform(img.files@[f], p);
            } else {
                let (l, f) = choose|l: int, f: int| 0 <= l < img.layers@.len() && c.layers.view().contains_key(img.layers@[l]@)
                    && 0 <= f < c.layers.view()[img.layers@[l]@].files@.len()
                    && #[trigger] names_platform(c.layers.view()[img.layers@[l]@].files@[f], p);
            }
            assert(found.contains(p));
        }
    }
}

/// An image without explicit platforms is built for every platform that the sources of its base
/// chain name: those of the images' own files and those of the files of their named layers.
pub proof fn lemma_sources_name_platforms(c: Config, name: Seq<char>, host: Seq<char>, p: Seq<char>)
    requires
        config_wf(c),
        c.images.view().contains_key(name),
        c.images.view()[name].platforms@.len() == 0,
        base_chain(c.images.view(), name) matches Some(chain) && exists|k: int| 0 <= k < chain.len() && {
            let img = c.images.view()[#[trigger] chain[k]];
            ||| exists|f: int| 0 <= f < img.files@.len() && #[trigger] names_platform(img.files@[f], p)
            ||| exists|l: int, f: int| 0 <= l < img.layers@.len() && c.layers.view().contains_key(img.layers@[l]@)
                && 0 <= f < c.layers.view()[img.layers@[l]@].files@.len()
                && #[trigger] names_platform(c.layers.view()[img.layers@[l]@].files@[f], p)
        },
    ensures
        platforms_spec(c, name, host) matches Some(ps) && ps.contains(p),
{
    let images = c.images.view();
    let chain = base_chain(images, name).unwrap();
    lemma_chain_members(images, name, Seq::empty(), images.dom().len() + 1);
    lemma_chain_platforms(c, chain);
    let k = choose|k: int| 0 <= k < chain.len() && {
        let img = c.images.view()[#[trigger] chain[k]];
        ||| exists|f: int| 0 <= f < img.files@.len() && #[trigger] names_platform(img.files@[f], p)
        ||| exists|l: int, f: int| 0 <= l < img.layers@.len() && c.layers.view().contains_key(img.layers@[l]@)
            && 0 <= f < c.layers.view()[img.layers@[l]@].files@.len()
            && #[trigger] names_platform(c.layers.view()[img.layers@[l]@].files@[f], p)
    };
    let img = images[chain[k]];
    let found = chain_platforms(c, chain);
    if exists|f: int| 0 <= f < img.files@.len() && #[trigger] names_platform(img.files@[f], p) {
        let f = choose|f: int| 0 <= f < img.files@.len() && #[trigger] names_platform(img.files@[f], p);
        assert(found.contains(p));
    } else {
        let (l, f) = choose|l: int, f: int| 0 <= l < img.layers@.len() && c.layers.view().contains_key(img.layers@[l]@)
            && 0 <= f < c.layers.view()[img.layers@[l]@].files@.len()
            && #[trigger] names_platform(c.layers.view()[img.layers@[l]@].files@[f], p);
        assert(found.contains(p));
    }
    assert(found.len() > 0) by {
        if found.len() == 0 {
            assert(found =~= Set::<Seq<char>>::empty());
        }
    }
    lemma_sorted_keys(found);
}

/// The explicit platforms of the first image of a chain that lists any.
pub open spec fn first_explicit(images: Map<Seq<char>, Image>, chain: Seq<Seq<char>>) -> Option<Seq<Seq<char>>>
    decreases chain.len(),
{
    if chain.len() == 0 {
        None
    } else if images[chain[0]].platforms@.len() > 0 {
        Some(views(images[chain[0]].platforms@))
    } else {
        first_explicit(images, chain.drop_first())
    }
}

/// The platforms of an image: its explicit ones; else those its chain's sources name, in
/// order; else the first explicit ones along the chain; else `host`.
pub open spec fn platforms_spec(c: Config, name: Seq<char>, host: Seq<char>) -> Option<Seq<Seq<char>>> {
    let images = c.images.view();
    if !images.contains_key(name) {
        None
    } else if images[name].platforms@.len() > 0 {
        Some(views(images[name].platforms@))
    } else {
        match base_chain(images, name) {
            None => None,
            Some(chain) => {
                let found = chain_platforms(c, chain);
                if found.len() == 0 {
                    match first_explicit(images, chain) {
                        Some(p) => Some(p),
                        None => Some(seq![host]),
                    }
                } else {
                    Some(sorted_keys(found))
                }
            },
        }
    }
}

/// The base chain from `name`: itself, then each local base in turn.
pub fn chain_of(images: &StrMap<Image>, name: &str) -> (r: Option<Vec<String>>)
    requires
        images.wf(),
    ensures
        match r {
            Some(v) => base_chain(images.view(), name@) == Some(views(v@)),
            None => base_chain(images.view(), name@) is None,
        },
{
    proof {
        images.lemma_view();
    }
    let mut visited: Vec<String> = Vec::new();
    let mut current: String = name.to_owned();
    let mut remaining: usize = images.len();
    assert(views(visited@) =~= Seq::<Seq<char>>::empty());
    loop
        invariant
            images.wf(),
            base_chain(images.view(), name@) == chain_from(images.view(), current@, views(visited@), (remaining + 1) as nat),
        decreases remaining,
    {
        if !images.contains_key(current.as_str()) {
            return None;
        }
        if crate::text::contains_str(&visited, current.as_str()) {
            return None;
        }
        let image = images.get(current.as_str()).unwrap();
        let ghost before = visited@;
        match &image.base {
            Base::External(_) => {
                visited.push(current);
                proof {
                    crate::text::lemma_views_push(before, visited@.last());
                }
                return Some(visited);
            },
            Base::Local { image: parent } => {
                let next = parent.clone();
                let ghost old_cur = current@;
                visited.push(current);
                proof {
                    crate::text::lemma_views_push(before, visited@.last());
                    assert(images.view()[old_cur].base == Base::Local { image: next });
                    assert(chain_from(images.view(), old_cur, views(before), (remaining + 1) as nat)
                        == chain_from(images.view(), next@, views(visited@), remaining as nat));
                }
                current = next;
                if remaining == 0 {
                    return None;
                }
                remaining = remaining - 1;
            },
        }
    }
}

/// Adds the platforms that the platform-specific sources of `files` name, other than
/// `default`.
fn collect_file_platforms(set: &mut StrMap<bool>, files: &Vec<FileMapping>)
    requires
        old(set).wf(),
        files_wf(files@),
    ensures
        final(set).wf(),
        final(set).view().dom() == file_platforms(old(set).view().dom(), files@),
{
    let ghost start = set.view().dom();
    let mut i: usize = 0;
    assert(files@.take(0) =~= Seq::<FileMapping>::empty());
    while i < files.len()
        invariant
            i <= files@.len(),
            set.wf(),
            files_wf(files@),
            set.view().dom() == file_platforms(start, files@.take(i as int)),
        decreases files@.len() - i,
    {
        proof {
            assert(files@.take(i + 1).drop_last() =~= files@.take(i as int));
            assert(files@.take(i + 1).last() == files@[i as int]);
        }
        match &files[i].source {
            PlatformValue::Platforms(m) => {
                assert(value_wf(files@[i as int].source));
                let ghost prev = set.view().dom();
                let n = m.len();
                let mut j: usize = 0;
                proof {
                    m.lemma_view();
                }
                while j < n
                    invariant
                        m.wf(),
                        n == m.items().len(),
                        j <= n,
                        set.wf(),
                        set.view().dom() == prev.union(crate::text::views_keys(m.items().take(j as int)).remove("default"@)),
                    decreases n - j,
                {
                    let (k, _) = m.at(j);
                    let ghost before = set.view().dom();
                    if !str_eq(k.as_str(), "default") {
                        set.insert(k.clone(), true);
                    }
                    proof {
                        let t1 = m.items().take(j + 1);
                        let t0 = m.items().take(j as int);
                        assert forall|q: Seq<char>| crate::text::views_keys(t1).contains(q) <==> crate::text::views_keys(t0).insert(m.items()[j as int].0@).contains(q) by {
                            if crate::text::views_keys(t1).contains(q) {
                                let t = choose|t: int| 0 <= t < t1.len() && t1[t].0@ == q;
                                if t < j {
                                    assert(t0[t] == t1[t]);
                                }
                            }
                            if crate::text::views_keys(t0).contains(q) {
                                let t = choose|t: int| 0 <= t < t0.len() && t0[t].0@ == q;
                                assert(t1[t] == t0[t]);
                            }
                            if q == m.items()[j as int].0@ {
                                assert(t1[j as int] == m.items()[j as int]);
                            }
                        }
                        assert(crate::text::views_keys(m.items().take(j + 1)) =~= crate::text::views_keys(m.items().take(j as int)).insert(m.items()[j as int].0@));
                        assert(set.view().dom() =~= prev.union(crate::text::views_keys(m.items().take(j + 1)).remove("default"@)));
                    }
                    j = j + 1;
                }
                proof {
                    assert(m.items().take(n as int) =~= m.items());
                    assert forall|k: Seq<char>| crate::text::views_keys(m.items()).contains(k) <==> m.view().dom().contains(k) by {
                        if crate::text::views_keys(m.items()).contains(k) {
                            let t = choose|t: int| 0 <= t < m.items().len() && m.items()[t].0@ == k;
                            assert(m.key_seq()[t] == k);
                        }
                        if m.view().dom().contains(k) {
                            assert(m.key_seq().contains(k));
                            let t = choose|t: int| 0 <= t < m.key_seq().len() && m.key_seq()[t] == k;
                            assert(m.items()[t].0@ == k);
                        }
                    }
                    assert(crate::text::views_keys(m.items()) =~= m.view().dom());
                }
            },
            PlatformValue::Scalar(_) => {},
        }
        i = i + 1;
    }
    assert(files@.take(i as int) =~= files@);
}

/// Adds the platforms named by the files of the existing layers among `names`.
fn add_layer_platforms(set: &mut StrMap<bool>, c: &Config, names: &Vec<String>)
    requires
        old(set).wf(),
        config_wf(*c),
    ensures
        final(set).wf(),
        final(set).view().dom() == layer_platforms(old(set).view().dom(), c.layers.view(), names@),
{
    let ghost start = set.view().dom();
    let mut i: usize = 0;
    assert(names@.take(0) =~= Seq::<String>::empty());
    while i < names.len()
        invariant
            i <= names@.len(),
            set.wf(),
            config_wf(*c),
            set.view().dom() == layer_platforms(start, c.layers.view(), names@.take(i as int)),
        decreases names@.len() - i,
    {
        proof {
            assert(names@.take(i + 1).drop_last() =~= names@.take(i as int));
            assert(names@.take(i + 1).last() == names@[i as int]);
        }
        match c.layers.get(names[i].as_str()) {
            Some(layer) => {
                assert(c.layers.view().contains_key(names@[i as int]@));
                collect_file_platforms(set, &layer.files);
            },
            None => {},
        }
        i = i + 1;
    }
    assert(names@.take(i as int) =~= names@);
}

/// The first explicit platforms along a chain.
fn first_explicit_of(c: &Config, chain: &Vec<String>) -> (r: Option<Vec<String>>)
    requires
        c.images.wf(),
        forall|k: int| 0 <= k < chain@.len() ==> c.images.view().contains_key(#[trigger] chain@[k]@),
    ensures
        match r {
            Some(v) => first_explicit(c.images.view(), views(chain@)) == Some(views(v@)),
            None => first_explicit(c.images.view(), views(chain@)) is None,
        },
{
    let mut i: usize = 0;
    assert(views(chain@).skip(0) =~= views(chain@));
    while i < chain.len()
        invariant
            c.images.wf(),
            forall|k: int| 0 <= k < chain@.len() ==> c.images.view().contains_key(#[trigger] chain@[k]@),
            i <= chain@.len(),
            first_explicit(c.images.view(), views(chain@)) == first_explicit(c.images.view(), views(chain@).skip(i as int)),
        decreases chain@.len() - i,
    {
        assert(c.images.view().contains_key(chain@[i as int]@));
        let image = c.images.get(chain[i].as_str()).unwrap();
        let ghost rest = views(chain@).skip(i as int);
        assert(rest[0] == chain@[i as int]@);
        if image.platforms.len() > 0 {
            let mut v: Vec<String> = Vec::new();
            let mut j: usize = 0;
            while j < image.platforms.len()
                invariant
                    j <= image.platforms@.len(),
                    views(v@) == views(image.platforms@).take(j as int),
                decreases image.platforms@.len() - j,
            {
                let ghost before = v@;
                v.push(image.platforms[j].clone());
                proof {
                    crate::text::lemma_views_push(before, image.platforms@[j as int]);
                    assert(views(image.platforms@).take(j + 1) =~= views(image.platforms@).take(j as int).push(image.platforms@[j as int]@));
                }
                j = j + 1;
            }
            assert(views(image.platforms@).take(j as int) =~= views(image.platforms@));
            return Some(v);
        }
        assert(rest.drop_first() =~= views(chain@).skip(i + 1));
        i = i + 1;
    }
    None
}

/// The base of an image that names none: `scratch`.
pub fn default_base() -> (r: Base)
    ensures
        r matches Base::External(s) && s@ == "scratch"@,
{
    Base::External("scratch".to_owned())
}

/// A copy of a list of strings.
pub fn copy_vec(v: &Vec<String>) -> (r: Vec<String>)
    ensures
        r@ == v@,
{
    copy_strings(v)
}

/// A copy of a list of strings.
fn copy_strings(v: &Vec<String>) -> (r: Vec<String>)
    ensures
        r@ == v@,
{
    let mut out: Vec<String> = Vec::new();
    let mut i: usize = 0;
    while i < v.len()
        invariant
            i <= v@.len(),
            out@ == v@.take(i as int),
        decreases v@.len() - i,
    {
        out.push(v[i].clone());
        assert(out@ =~= v@.take(i + 1));
        i = i + 1;
    }
    assert(v@.take(i as int) =~= v@);
    out
}

/// Every image of a chain is configured.
proof fn lemma_chain_members(images: Map<Seq<char>, Image>, name: Seq<char>, visited: Seq<Seq<char>>, fuel: nat)
    requires
        forall|k: int| 0 <= k < visited.len() ==> images.contains_key(#[trigger] visited[k]),
        chain_from(images, name, visited, fuel) is Some,
    ensures
        forall|k: int| 0 <= k < chain_from(images, name, visited, fuel).unwrap().len()
            ==> images.contains_key(#[trigger] chain_from(images, name, visited, fuel).unwrap()[k]),
        chain_from(images, name, visited, fuel).unwrap().len() > visited.len(),
        chain_from(images, name, visited, fuel).unwrap()[visited.len() as int] == name,
        forall|k: int| 0 <= k < visited.len() ==> chain_from(images, name, visited, fuel).unwrap()[k] == visited[k],
    decreases fuel,
{
    let v2 = visited.push(name);
    assert(forall|k: int| 0 <= k < v2.len() ==> images.contains_key(#[trigger] v2[k]));
    match images[name].base {
        Base::External(_) => {},
        Base::Local { image } => {
            lemma_chain_members(images, image@, v2, (fuel - 1) as nat);
            assert(v2[visited.len() as int] == name);
            assert forall|k: int| 0 <= k < visited.len() implies chain_from(images, name, visited, fuel).unwrap()[k] == visited[k] by {
                assert(v2[k] == visited[k]);
            }
        },
    }
}

impl Config {
    /// Returns the platforms configured or inferred for an image, `None` when it is not
    /// configured or its base chain is broken. Explicit platforms take precedence; otherwise
    /// the platforms that the sources of the image and its base chain name; otherwise those
    /// listed along the chain; otherwise `host_platform`, the host's.
    pub fn platforms_for_image(&self, image_name: &str, host_platform: &str) -> (r: Option<Vec<String>>)
        requires
            config_wf(*self),
        ensures
            match r {
                Some(v) => platforms_spec(*self, image_name@, host_platform@) == Some(views(v@)),
                None => platforms_spec(*self, image_name@, host_platform@) is None,
            },
    {
        let image = match self.images.get(image_name) {
            Some(i) => i,
            None => {
                return None;
            },
        };
        if image.platforms.len() > 0 {
            return Some(copy_strings(&image.platforms));
        }
        let chain = match chain_of(&self.images, image_name) {
            Some(c) => c,
            None => {
                return None;
            },
        };
        proof {
            lemma_chain_members(self.images.view(), image_name@, Seq::empty(), self.images.view().dom().len() + 1);
            assert forall|k: int| 0 <= k < chain@.len() implies self.images.view().contains_key(#[trigger] chain@[k]@) by {
                assert(views(chain@)[k] == chain@[k]@);
            }
        }
        let mut set: StrMap<bool> = StrMap::new();
        let mut i: usize = 0;
        assert(views(chain@).take(0) =~= Seq::<Seq<char>>::empty());
        assert(set.view().dom() =~= Set::<Seq<char>>::empty());
        while i < chain.len()
            invariant
                config_wf(*self),
                i <= chain@.len(),
                set.wf(),
                forall|k: int| 0 <= k < chain@.len() ==> self.images.view().contains_key(#[trigger] chain@[k]@),
                set.view().dom() == chain_platforms(*self, views(chain@).take(i as int)),
            decreases chain@.len() - i,
        {
            assert(self.images.view().contains_key(chain@[i as int]@));
            let member = self.images.get(chain[i].as_str()).unwrap();
            proof {
                assert(views(chain@).take(i + 1).drop_last() =~= views(chain@).take(i as int));
                assert(views(chain@).take(i + 1).last() == chain@[i as int]@);
                assert(files_wf(member.files@));
            }
            collect_file_platforms(&mut set, &member.files);
            add_layer_platforms(&mut set, self, &member.layers);
            i = i + 1;
        }
        assert(views(chain@).take(i as int) =~= views(chain@));
        proof {
            set.lemma_view();
            set.lemma_items_are_map_pairs();
        }
        if set.len() == 0 {
            match first_explicit_of(self, &chain) {
                Some(v) => Some(v),
                None => {
                    let mut v: Vec<String> = Vec::new();
                    v.push(host_platform.to_owned());
                    assert(views(v@) =~= seq![host_platform@]);
                    Some(v)
                },
            }
        } else {
            Some(set.keys())
        }
    }
}

/// A portable mode: four octal digits, the first `0`.
pub open spec fn mode_valid(m: Seq<char>) -> bool {
    &&& m.len() == 4
    &&& m[0] == '0'
    &&& forall|i: int| 0 <= i < 4 ==> 48 <= (#[trigger] m[i]) as u32 <= 55
}

/// Whether a file mapping's options are valid: a non-empty platform map whose keys are
/// platforms or `default`, a portable mode, and an absolute destination.
pub open spec fn file_options_valid(f: FileMapping) -> bool {
    &&& f.source matches PlatformValue::Platforms(m) ==> {
        &&& m.items().len() > 0
        &&& forall|k: Seq<char>| #[trigger] m.view().contains_key(k) && k != default_key() ==> platform_string_valid(k)
    }
    &&& f.mode matches Some(md) ==> mode_valid(md@)
    &&& f.to@.len() > 0 && f.to@[0] == '/'
}

pub open spec fn files_valid(fs: Seq<FileMapping>) -> bool {
    forall|i: int| 0 <= i < fs.len() ==> file_options_valid(#[trigger] fs[i])
}

/// Valid platform strings, none repeated.
pub open spec fn platforms_valid(ps: Seq<Seq<char>>) -> bool {
    &&& forall|i: int| 0 <= i < ps.len() ==> platform_string_valid(#[trigger] ps[i])
    &&& forall|i: int, j: int| 0 <= i < j < ps.len() ==> #[trigger] ps[i] != #[trigger] ps[j]
}

/// Whether every file has a source for every platform.
pub open spec fn files_cover(fs: Seq<FileMapping>, platforms: Seq<Seq<char>>) -> bool {
    forall|i: int, j: int| 0 <= i < fs.len() && 0 <= j < platforms.len() ==> value_for(#[trigger] fs[i].source, #[trigger] platforms[j]) is Some
}

/// Whether the images of a chain serve `platforms`: each base that lists platforms lists all of
/// them, and the files of each image and of its layers have sources for all of them.
pub open spec fn chain_files_ok(c: Config, chain: Seq<Seq<char>>, platforms: Seq<Seq<char>>) -> bool {
    forall|k: int| 0 <= k < chain.len() ==> {
        let img = #[trigger] c.images.view()[chain[k]];
        &&& (k > 0 && img.platforms@.len() > 0) ==> forall|p: int| 0 <= p < platforms.len() ==> views(img.platforms@).contains(#[trigger] platforms[p])
        &&& forall|l: int| 0 <= l < img.layers@.len() ==> c.layers.view().contains_key(#[trigger] img.layers@[l]@)
            && files_cover(c.layers.view()[img.layers@[l]@].files@, platforms)
        &&& files_cover(img.files@, platforms)
    }
}

/// Whether the images of a chain serve the platform `p`.
pub open spec fn serves(c: Config, chain: Seq<Seq<char>>, p: Seq<char>) -> bool {
    chain_files_ok(c, chain, seq![p])
}

/// Files of which one has no source for `p` do not cover `p`.
proof fn lemma_uncovered(fs: Seq<FileMapping>, a: int, p: Seq<char>)
    requires
        0 <= a < fs.len(),
        value_for(fs[a].source, p) is None,
    ensures
        !files_cover(fs, seq![p]),
{
    assert(seq![p][0] == p);
}

/// Whether the text `m` holds `p`.
pub open spec fn mentions(m: Seq<char>, p: Seq<char>) -> bool {
    exists|i: int| 0 <= i && i + p.len() <= m.len() && #[trigger] m.subrange(i, i + p.len()) == p
}

/// `a + p + b` holds `p`.
proof fn lemma_mentions(a: Seq<char>, p: Seq<char>, b: Seq<char>)
    ensures
        mentions(a + p + b, p),
{
    let m = a + p + b;
    assert(m.subrange(a.len() as int, (a.len() + p.len()) as int) =~= p);
}

/// Whether every layer that the images of a chain use is configured.
pub open spec fn chain_layers_known(c: Config, chain: Seq<Seq<char>>) -> bool {
    forall|k: int, l: int| 0 <= k < chain.len() && 0 <= l < c.images.view()[chain[k]].layers@.len()
        ==> c.layers.view().contains_key(#[trigger] c.images.view()[chain[k]].layers@[l]@)
}

/// Whether a configuration passes every check but that the file sources and base images serve
/// each image's platforms.
pub open spec fn valid_but_coverage(c: Config, host: Seq<char>) -> bool {
    let images = c.images.view();
    &&& images.dom().len() > 0
    &&& bases_known(images)
    &&& acyclic(images)
    &&& forall|k: Seq<char>| #[trigger] images.contains_key(k) ==> {
        let img = images[k];
        &&& !(img.squash && img.flatten)
        &&& platforms_valid(views(img.platforms@))
        &&& forall|l: int| 0 <= l < img.layers@.len() ==> c.layers.view().contains_key(#[trigger] img.layers@[l]@)
        &&& files_valid(img.files@)
    }
    &&& forall|k: Seq<char>| #[trigger] c.layers.view().contains_key(k) ==> files_valid(c.layers.view()[k].files@)
}

pub open spec fn bases_known(images: Map<Seq<char>, Image>) -> bool {
    forall|k: Seq<char>| #[trigger] images.contains_key(k) ==> (images[k].base matches Base::Local { image } ==> images.contains_key(image@))
}

pub open spec fn acyclic(images: Map<Seq<char>, Image>) -> bool {
    forall|k: Seq<char>| #[trigger] images.contains_key(k) ==> base_chain(images, k) is Some
}

/// Whether a configured image is valid: not both squashed and flattened, valid distinct
/// platforms, known layers, valid files, and a base chain that serves its platforms.
pub open spec fn image_ok(c: Config, name: Seq<char>, host: Seq<char>) -> bool {
    let img = c.images.view()[name];
    &&& !(img.squash && img.flatten)
    &&& platforms_valid(views(img.platforms@))
    &&& forall|l: int| 0 <= l < img.layers@.len() ==> c.layers.view().contains_key(#[trigger] img.layers@[l]@)
    &&& files_valid(img.files@)
    &&& chain_files_ok(c, base_chain(c.images.view(), name).unwrap(), platforms_spec(c, name, host).unwrap())
}

/// Whether a configuration is valid, with `host` as the host platform.
pub open spec fn valid_config(c: Config, host: Seq<char>) -> bool {
    let images = c.images.view();
    &&& images.dom().len() > 0
    &&& bases_known(images)
    &&& acyclic(images)
    &&& forall|k: Seq<char>| #[trigger] images.contains_key(k) ==> image_ok(c, k, host)
    &&& forall|k: Seq<char>| #[trigger] c.layers.view().contains_key(k) ==> files_valid(c.layers.view()[k].files@)
}

fn invalid(what: &str, name: &str) -> (r: ConfigError)
    ensures
        r is Invalid,
{
    ConfigError::Invalid(concat(what, name))
}

/// Whether a mode is portable: four octal digits, the first `0`.
pub fn mode_is_valid(mode: &str) -> (r: bool)
    ensures
        r == mode_valid(mode@),
{
    let cs = crate::text::chars_of(mode);
    if cs.len() != 4 || cs[0] != '0' {
        return false;
    }
    let mut i: usize = 0;
    while i < 4
        invariant
            cs@ == mode@,
            cs@.len() == 4,
            cs@[0] == '0',
            i <= 4,
            forall|j: int| 0 <= j < i ==> 48 <= (#[trigger] cs@[j]) as u32 <= 55,
        decreases 4 - i,
    {
        let d = cs[i] as u32;
        if d < 48 || d > 55 {
            return false;
        }
        i = i + 1;
    }
    true
}

/// Checks the options of one file mapping of `owner`.
pub fn validate_file_options(owner: &str, options: &FileMapping) -> (r: Result<(), ConfigError>)
    requires
        value_wf(options.source),
    ensures
        r is Ok <==> file_options_valid(*options),
        r matches Err(e) ==> e is Invalid,
{
    if let PlatformValue::Platforms(values) = &options.source {
        if values.len() == 0 {
            return Err(invalid("file source platform map cannot be empty in ", owner));
        }
        proof {
            values.lemma_view();
        }
        let n = values.len();
        let mut i: usize = 0;
        while i < n
            invariant
                options.source == PlatformValue::Platforms(*values),
                values.wf(),
                n == values.items().len(),
                i <= n,
                forall|j: int| 0 <= j < i ==> values.items()[j].0@ != default_key() ==> platform_string_valid(#[trigger] values.items()[j].0@),
            decreases n - i,
        {
            let (k, _) = values.at(i);
            if !str_eq(k.as_str(), "default") && Platform::parse(k.as_str()).is_err() {
                proof {
                    values.lemma_view();
                    assert(values.key_seq()[i as int] == k@);
                    assert(values.key_seq().contains(k@));
                    assert(values.view().contains_key(k@));
                }
                return Err(invalid("invalid OCI platform in ", owner));
            }
            i = i + 1;
        }
        assert forall|k: Seq<char>| #[trigger] values.view().contains_key(k) && k != default_key() implies platform_string_valid(k) by {
            assert(values.key_seq().contains(k));
            let t = choose|t: int| 0 <= t < values.key_seq().len() && values.key_seq()[t] == k;
            assert(values.items()[t].0@ == k);
        }
    }
    if let Some(mode) = &options.mode {
        if !mode_is_valid(mode.as_str()) {
            return Err(invalid("invalid file mode; expected a quoted octal mode such as \"0755\" in ", owner));
        }
    }
    if !crate::text::starts_with(options.to.as_str(), "/") {
        proof {
            reveal_strlit("/");
            assert("/"@ =~= seq!['/']);
            if options.to@.len() > 0 && options.to@[0] == '/' {
                assert(options.to@.take(1) =~= "/"@);
            }
        }
        return Err(invalid("file destination must be absolute in ", owner));
    }
    proof {
        reveal_strlit("/");
        assert("/"@ =~= seq!['/']);
        assert(options.to@.take(1)[0] == options.to@[0]);
    }
    Ok(())
}

/// Checks the options of every file mapping of `owner`.
pub fn validate_files(owner: &str, files: &Vec<FileMapping>) -> (r: Result<(), ConfigError>)
    requires
        files_wf(files@),
    ensures
        r is Ok <==> files_valid(files@),
        r matches Err(e) ==> e is Invalid,
{
    let mut i: usize = 0;
    while i < files.len()
        invariant
            files_wf(files@),
            i <= files@.len(),
            forall|j: int| 0 <= j < i ==> file_options_valid(#[trigger] files@[j]),
        decreases files@.len() - i,
    {
        assert(value_wf(files@[i as int].source));
        match validate_file_options(owner, &files[i]) {
            Ok(()) => {},
            Err(e) => {
                return Err(e);
            },
        }
        i = i + 1;
    }
    Ok(())
}

/// Checks that an image's platforms are valid and distinct.
pub fn validate_platforms(image: &str, platforms: &Vec<String>) -> (r: Result<(), ConfigError>)
    ensures
        r is Ok <==> platforms_valid(views(platforms@)),
        r matches Err(e) ==> e is Invalid,
{
    let mut i: usize = 0;
    while i < platforms.len()
        invariant
            i <= platforms@.len(),
            forall|j: int| 0 <= j < i ==> platform_string_valid(#[trigger] views(platforms@)[j]),
            forall|a: int, b: int| 0 <= a < b < i ==> #[trigger] views(platforms@)[a] != #[trigger] views(platforms@)[b],
        decreases platforms@.len() - i,
    {
        if Platform::parse(platforms[i].as_str()).is_err() {
            assert(views(platforms@)[i as int] == platforms@[i as int]@);
            return Err(invalid("invalid OCI platform in image ", image));
        }
        let mut j: usize = 0;
        while j < i
            invariant
                i < platforms@.len(),
                j <= i,
                forall|a: int| 0 <= a < j ==> views(platforms@)[a] != views(platforms@)[i as int],
                forall|a: int| 0 <= a < platforms@.len() ==> #[trigger] views(platforms@)[a] == platforms@[a]@,
            decreases i - j,
        {
            if str_eq(platforms[j].as_str(), platforms[i].as_str()) {
                assert(views(platforms@)[j as int] == views(platforms@)[i as int]);
                return Err(invalid("duplicate OCI platform in image ", image));
            }
            j = j + 1;
        }
        i = i + 1;
    }
    Ok(())
}

/// Checks that every file has a source for every platform.
pub fn validate_files_for_platforms(image: &str, files: &Vec<FileMapping>, platforms: &Vec<String>) -> (r: Result<(), ConfigError>)
    requires
        files_wf(files@),
    ensures
        r is Ok <==> files_cover(files@, views(platforms@)),
        r matches Err(e) ==> e is Invalid,
        r matches Err(ConfigError::Invalid(m)) ==> exists|a: int, b: int|
            0 <= a < files@.len() && 0 <= b < platforms@.len() && value_for(#[trigger] files@[a].source, #[trigger] platforms@[b]@) is None
                && m@ == "file source in image "@ + image@ + " has no value for platform "@ + platforms@[b]@
                && mentions(m@, platforms@[b]@),
{
    let mut i: usize = 0;
    while i < files.len()
        invariant
            files_wf(files@),
            i <= files@.len(),
            forall|a: int, b: int| 0 <= a < i && 0 <= b < platforms@.len() ==> value_for(#[trigger] files@[a].source, #[trigger] views(platforms@)[b]) is Some,
        decreases files@.len() - i,
    {
        assert(value_wf(files@[i as int].source));
        let mut j: usize = 0;
        while j < platforms.len()
            invariant
                files_wf(files@),
                i < files@.len(),
                value_wf(files@[i as int].source),
                j <= platforms@.len(),
                forall|b: int| 0 <= b < j ==> value_for(files@[i as int].source, #[trigger] views(platforms@)[b]) is Some,
            decreases platforms@.len() - j,
        {
            if files[i].source.for_platform(platforms[j].as_str()).is_none() {
                assert(!files_cover(files@, views(platforms@))) by {
                    assert(views(platforms@)[j as int] == platforms@[j as int]@);
                }
                let head = concat("file source in image ", image);
                let mid = concat(head.as_str(), " has no value for platform ");
                let message = concat(mid.as_str(), platforms[j].as_str());
                assert(value_for(files@[i as int].source, platforms@[j as int]@) is None);
                proof {
                    lemma_mentions(mid@, platforms@[j as int]@, Seq::empty());
                    assert(mid@ + platforms@[j as int]@ + Seq::<char>::empty() =~= message@);
                }
                return Err(ConfigError::Invalid(message));
            }
            j = j + 1;
        }
        i = i + 1;
    }
    Ok(())
}

/// A property of every key of a map follows from the property of every item's key.
proof fn lemma_forall_keys<V>(m: StrMap<V>, p: spec_fn(Seq<char>) -> bool)
    requires
        m.wf(),
        forall|j: int| 0 <= j < m.items().len() ==> #[trigger] p(m.items()[j].0@),
    ensures
        forall|k: Seq<char>| #[trigger] m.view().contains_key(k) ==> p(k),
{
    m.lemma_view();
    assert forall|k: Seq<char>| #[trigger] m.view().contains_key(k) implies p(k) by {
        assert(m.key_seq().contains(k));
        let t = choose|t: int| 0 <= t < m.key_seq().len() && m.key_seq()[t] == k;
        assert(m.items()[t].0@ == k);
    }
}

/// Checks that the images of a chain serve `platforms`.
fn validate_chain_files(image_name: &str, c: &Config, chain: &Vec<String>, platforms: &Vec<String>) -> (r: Result<(), ConfigError>)
    requires
        config_wf(*c),
        forall|k: int| 0 <= k < chain@.len() ==> c.images.view().contains_key(#[trigger] chain@[k]@),
    ensures
        r is Ok <==> chain_files_ok(*c, views(chain@), views(platforms@)),
        r matches Err(e) ==> e is Invalid,
        r matches Err(ConfigError::Invalid(m)) ==> (chain_layers_known(*c, views(chain@))
            ==> exists|p: int| 0 <= p < platforms@.len() && !serves(*c, views(chain@), platforms@[p]@)
                && mentions(m@, #[trigger] platforms@[p]@)),
{
    let mut k: usize = 0;
    while k < chain.len()
        invariant
            config_wf(*c),
            forall|x: int| 0 <= x < chain@.len() ==> c.images.view().contains_key(#[trigger] chain@[x]@),
            k <= chain@.len(),
            forall|x: int| 0 <= x < k ==> {
                let img = #[trigger] c.images.view()[views(chain@)[x]];
                &&& (x > 0 && img.platforms@.len() > 0) ==> forall|p: int| 0 <= p < views(platforms@).len() ==> views(img.platforms@).contains(#[trigger] views(platforms@)[p])
                &&& forall|l: int| 0 <= l < img.layers@.len() ==> c.layers.view().contains_key(#[trigger] img.layers@[l]@)
                    && files_cover(c.layers.view()[img.layers@[l]@].files@, views(platforms@))
                &&& files_cover(img.files@, views(platforms@))
            },
        decreases chain@.len() - k,
    {
        assert(c.images.view().contains_key(chain@[k as int]@));
        assert(views(chain@)[k as int] == chain@[k as int]@);
        let img = c.images.get(chain[k].as_str()).unwrap();
        let ghost key = chain@[k as int]@;
        assert(c.images.view()[views(chain@)[k as int]] == *img);
        if k > 0 && img.platforms.len() > 0 {
            let mut p: usize = 0;
            while p < platforms.len()
                invariant
                    k < chain@.len(),
                    k > 0,
                    img.platforms@.len() > 0,
                    c.images.view()[views(chain@)[k as int]] == *img,
                    p <= platforms@.len(),
                    forall|q: int| 0 <= q < p ==> views(img.platforms@).contains(#[trigger] views(platforms@)[q]),
                decreases platforms@.len() - p,
            {
                if !crate::text::contains_str(&img.platforms, platforms[p].as_str()) {
                    proof {
                        assert(views(platforms@)[p as int] == platforms@[p as int]@);
                        assert(!chain_files_ok(*c, views(chain@), views(platforms@))) by {
                            assert(c.images.view()[views(chain@)[k as int]] == *img);
                        }
                    }
                    let head = concat("base image ", chain[k].as_str());
                    let mid = concat(head.as_str(), " does not provide platform ");
                    let tail = concat(mid.as_str(), platforms[p].as_str());
                    let tail2 = concat(tail.as_str(), " required by ");
                    let message = concat(tail2.as_str(), image_name);
                    proof {
                        lemma_mentions(mid@, platforms@[p as int]@, " required by "@ + image_name@);
                        assert(mid@ + platforms@[p as int]@ + (" required by "@ + image_name@) =~= message@);
                        assert(!serves(*c, views(chain@), platforms@[p as int]@)) by {
                            assert(seq![platforms@[p as int]@][0] == platforms@[p as int]@);
                            assert(c.images.view()[views(chain@)[k as int]] == *img);
                        }
                    }
                    return Err(ConfigError::Invalid(message));
                }
                p = p + 1;
            }
        }
        let mut l: usize = 0;
        while l < img.layers.len()
            invariant
                config_wf(*c),
                k < chain@.len(),
                c.images.view()[views(chain@)[k as int]] == *img,
                l <= img.layers@.len(),
                forall|x: int| 0 <= x < l ==> c.layers.view().contains_key(#[trigger] img.layers@[x]@)
                    && files_cover(c.layers.view()[img.layers@[x]@].files@, views(platforms@)),
            decreases img.layers@.len() - l,
        {
            match c.layers.get(img.layers[l].as_str()) {
                Some(layer) => {
                    assert(c.layers.view().contains_key(img.layers@[l as int]@));
                    match validate_files_for_platforms(image_name, &layer.files, platforms) {
                        Ok(()) => {},
                        Err(e) => {
                            proof {
                                assert(!chain_files_ok(*c, views(chain@), views(platforms@))) by {
                                    assert(c.images.view()[views(chain@)[k as int]] == *img);
                                }
                                let m = e->Invalid_0;
                                let (a, b) = choose|a: int, b: int| 0 <= a < layer.files@.len() && 0 <= b < platforms@.len()
                                    && value_for(#[trigger] layer.files@[a].source, #[trigger] platforms@[b]@) is None
                                    && m@ == "file source in image "@ + image_name@ + " has no value for platform "@ + platforms@[b]@
                                    && mentions(m@, platforms@[b]@);
                                lemma_uncovered(layer.files@, a, platforms@[b]@);
                                assert(c.layers.view()[img.layers@[l as int]@] == *layer);
                                assert(!serves(*c, views(chain@), platforms@[b]@)) by {
                                    assert(c.images.view()[views(chain@)[k as int]] == *img);
                                }
                            }
                            return Err(e);
                        },
                    }
                },
                None => {
                    proof {
                        assert(!chain_files_ok(*c, views(chain@), views(platforms@))) by {
                            assert(c.images.view()[views(chain@)[k as int]] == *img);
                        }
                        assert(!c.layers.view().contains_key(c.images.view()[views(chain@)[k as int]].layers@[l as int]@));
                    }
                    return Err(invalid("a base image references an unknown layer, required by ", image_name));
                },
            }
            l = l + 1;
        }
        match validate_files_for_platforms(image_name, &img.files, platforms) {
            Ok(()) => {},
            Err(e) => {
                proof {
                    assert(!chain_files_ok(*c, views(chain@), views(platforms@))) by {
                        assert(c.images.view()[views(chain@)[k as int]] == *img);
                    }
                    let m = e->Invalid_0;
                    let (a, b) = choose|a: int, b: int| 0 <= a < img.files@.len() && 0 <= b < platforms@.len()
                        && value_for(#[trigger] img.files@[a].source, #[trigger] platforms@[b]@) is None
                        && m@ == "file source in image "@ + image_name@ + " has no value for platform "@ + platforms@[b]@
                        && mentions(m@, platforms@[b]@);
                    lemma_uncovered(img.files@, a, platforms@[b]@);
                    assert(!serves(*c, views(chain@), platforms@[b]@)) by {
                        assert(c.images.view()[views(chain@)[k as int]] == *img);
                    }
                }
                return Err(e);
            },
        }
        assert(c.images.view()[views(chain@)[k as int]] == *img);
        k = k + 1;
    }
    Ok(())
}

/// Checks a parsed configuration, with `host_platform` as the platform of the host; returns it
/// when it is valid.
pub fn validate(config: Config, host_platform: &str) -> (r: Result<Config, ConfigError>)
    requires
        config_wf(config),
    ensures
        r is Ok <==> valid_config(config, host_platform@),
        r matches Ok(c) ==> c == config,
        r matches Err(e) ==> e is Invalid,
        r matches Err(ConfigError::Invalid(m)) ==> (valid_but_coverage(config, host_platform@) ==> exists|n: Seq<char>, p: Seq<char>|
            config.images.view().contains_key(n) && (platforms_spec(config, n, host_platform@) matches Some(ps) && ps.contains(p))
                && !serves(config, base_chain(config.images.view(), n).unwrap(), p) && mentions(m@, p)),
{
    let images = &config.images;
    proof {
        images.lemma_view();
    }
    if images.len() == 0 {
        return Err(ConfigError::Invalid("config must define at least one image".to_owned()));
    }
    let n = images.len();
    let mut i: usize = 0;
    while i < n
        invariant
            config_wf(config),
            images == &config.images,
            n == images.items().len(),
            i <= n,
            forall|j: int| 0 <= j < i ==> ((#[trigger] images.items()[j]).1.base matches Base::Local { image } ==> images.view().contains_key(image@)),
        decreases n - i,
    {
        let (name, image) = images.at(i);
        if let Base::Local { image: base } = &image.base {
            if !images.contains_key(base.as_str()) {
                proof {
                    images.lemma_view();
                    assert(images.view()[name@] == *image);
                    assert(images.key_seq()[i as int] == name@);
                    assert(images.view().contains_key(name@));
                }
                return Err(invalid("an image references an unknown base image: ", name.as_str()));
            }
        }
        i = i + 1;
    }
    proof {
        images.lemma_view();
        assert forall|k: Seq<char>| #[trigger] images.view().contains_key(k) implies (images.view()[k].base matches Base::Local { image } ==> images.view().contains_key(image@)) by {
            assert(images.key_seq().contains(k));
            let t = choose|t: int| 0 <= t < images.key_seq().len() && images.key_seq()[t] == k;
            assert(images.items()[t].0@ == k);
            assert(images.view()[images.items()[t].0@] == images.items()[t].1);
        }
    }
    let mut i: usize = 0;
    while i < n
        invariant
            config_wf(config),
            images == &config.images,
            n == images.items().len(),
            i <= n,
            forall|j: int| 0 <= j < i ==> base_chain(images.view(), (#[trigger] images.items()[j]).0@) is Some,
        decreases n - i,
    {
        let (name, _) = images.at(i);
        if chain_of(images, name.as_str()).is_none() {
            proof {
                images.lemma_view();
                assert(images.key_seq()[i as int] == name@);
                assert(images.view().contains_key(name@));
            }
            return Err(invalid("configured-image base cycle includes ", name.as_str()));
        }
        i = i + 1;
    }
    proof {
        lemma_forall_keys(*images, |k: Seq<char>| base_chain(images.view(), k) is Some);
    }
    let mut i: usize = 0;
    while i < n
        invariant
            config_wf(config),
            images == &config.images,
            n == images.items().len(),
            i <= n,
            acyclic(images.view()),
            forall|j: int| 0 <= j < i ==> image_ok(config, (#[trigger] images.items()[j]).0@, host_platform@),
        decreases n - i,
    {
        let (name, image) = images.at(i);
        proof {
            images.lemma_view();
            assert(images.key_seq()[i as int] == name@);
            assert(images.view().contains_key(name@));
            assert(images.view()[name@] == *image);
            assert(files_wf(image.files@));
        }
        if image.squash && image.flatten {
            return Err(invalid("an image cannot enable both squash and flatten: ", name.as_str()));
        }
        match validate_platforms(name.as_str(), &image.platforms) {
            Ok(()) => {},
            Err(e) => {
                return Err(e);
            },
        }
        let targets = config.platforms_for_image(name.as_str(), host_platform).unwrap();
        let mut l: usize = 0;
        while l < image.layers.len()
            invariant
                config_wf(config),
                images == &config.images,
                images.view().contains_key(name@),
                images.view()[name@] == *image,
                l <= image.layers@.len(),
                forall|x: int| 0 <= x < l ==> config.layers.view().contains_key(#[trigger] image.layers@[x]@),
            decreases image.layers@.len() - l,
        {
            if !config.layers.contains_key(image.layers[l].as_str()) {
                assert(!image_ok(config, name@, host_platform@));
                return Err(invalid("an image references an unknown layer: ", name.as_str()));
            }
            l = l + 1;
        }
        match validate_files(name.as_str(), &image.files) {
            Ok(()) => {},
            Err(e) => {
                return Err(e);
            },
        }
        let chain = chain_of(images, name.as_str()).unwrap();
        proof {
            lemma_chain_members(images.view(), name@, Seq::empty(), images.view().dom().len() + 1);
            assert forall|k: int| 0 <= k < chain@.len() implies images.view().contains_key(#[trigger] chain@[k]@) by {
                assert(views(chain@)[k] == chain@[k]@);
            }
        }
        match validate_chain_files(name.as_str(), &config, &chain, &targets) {
            Ok(()) => {},
            Err(e) => {
                proof {
                    if valid_but_coverage(config, host_platform@) {
                        let cv = views(chain@);
                        assert forall|k: int, l: int| 0 <= k < cv.len() && 0 <= l < config.images.view()[cv[k]].layers@.len()
                            implies config.layers.view().contains_key(#[trigger] config.images.view()[cv[k]].layers@[l]@) by {
                            assert(cv[k] == chain@[k]@);
                            assert(images.view().contains_key(cv[k]));
                        }
                        assert(chain_layers_known(config, cv));
                        let m = e->Invalid_0;
                        let p = choose|p: int| 0 <= p < targets@.len() && !serves(config, cv, targets@[p]@)
                            && mentions(m@, #[trigger] targets@[p]@);
                        assert(views(targets@)[p] == targets@[p]@);
                        assert(views(targets@).contains(targets@[p]@));
                        assert(platforms_spec(config, name@, host_platform@) == Some(views(targets@)));
                    }
                }
                return Err(e);
            },
        }
        i = i + 1;
    }
    proof {
        lemma_forall_keys(*images, |k: Seq<char>| image_ok(config, k, host_platform@));
    }
    let layers = &config.layers;
    let m = layers.len();
    let mut i: usize = 0;
    while i < m
        invariant
            config_wf(config),
            layers == &config.layers,
            m == layers.items().len(),
            i <= m,
            forall|j: int| 0 <= j < i ==> files_valid(layers.view()[(#[trigger] layers.items()[j]).0@].files@),
        decreases m - i,
    {
        let (name, layer) = layers.at(i);
        proof {
            layers.lemma_view();
            assert(layers.key_seq()[i as int] == name@);
            assert(layers.view().contains_key(name@));
            assert(layers.view()[name@] == *layer);
        }
        match validate_files(name.as_str(), &layer.files) {
            Ok(()) => {},
            Err(e) => {
                return Err(e);
            },
        }
        i = i + 1;
    }
    proof {
        lemma_forall_keys(*layers, |k: Seq<char>| files_valid(layers.view()[k].files@));
        images.lemma_view();
    }
    Ok(config)
}

/// The position of the last `.` of a name.
pub open spec fn last_dot(n: Seq<char>) -> Option<int>
    decreases n.len(),
{
    if n.len() == 0 {
        None
    } else if n.last() == '.' {
        Some(n.len() - 1)
    } else {
        last_dot(n.drop_last())
    }
}

/// The extension of a path, as `Path::extension` gives it: what follows the last `.` of its
/// file name, unless that `.` starts the name.
pub open spec fn extension_spec(path: Seq<char>) -> Option<Seq<char>> {
    match file_name_spec(path) {
        None => None,
        Some(n) => match last_dot(n) {
            Some(i) => if i > 0 {
                Some(n.skip(i + 1))
            } else {
                None
            },
            None => None,
        },
    }
}

/// The configuration format an extension names.
pub open spec fn format_spec(ext: Seq<char>) -> Option<Format> {
    if ext == "toml"@ {
        Some(Format::Toml)
    } else if ext == "json"@ {
        Some(Format::Json)
    } else if ext == "yaml"@ || ext == "yml"@ {
        Some(Format::Yaml)
    } else {
        None
    }
}

/// The extension of a path.
pub fn extension(path: &str) -> (r: Option<String>)
    ensures
        match r {
            Some(e) => extension_spec(path@) == Some(e@),
            None => extension_spec(path@) is None,
        },
{
    let name = match file_name(path) {
        Some(n) => n,
        None => {
            return None;
        },
    };
    let cs = crate::text::chars_of(name.as_str());
    let mut i: usize = cs.len();
    assert(name@.take(i as int) =~= name@);
    while i > 0
        invariant
            file_name_spec(path@) == Some(name@),
            cs@ == name@,
            i <= cs@.len(),
            last_dot(name@) == last_dot(name@.take(i as int)),
        decreases i,
    {
        assert(name@.take(i as int).drop_last() =~= name@.take(i - 1));
        assert(name@.take(i as int).last() == cs@[i - 1]);
        if cs[i - 1] == '.' {
            if i - 1 == 0 {
                return None;
            }
            let r = crate::text::substring(name.as_str(), i, cs.len());
            assert(r@ =~= name@.skip(i as int));
            return Some(r);
        }
        i = i - 1;
    }
    None
}

/// The configuration format of a file, by its extension.
pub fn format_for_path(path: &str) -> (r: Result<Format, ConfigError>)
    ensures
        match r {
            Ok(f) => extension_spec(path@) matches Some(e) && format_spec(e) == Some(f),
            Err(e) => (extension_spec(path@) matches Some(x) ==> format_spec(x) is None) && (e matches ConfigError::UnsupportedFormat(p) && p@ == path@),
        },
{
    match extension(path) {
        Some(e) => {
            if str_eq(e.as_str(), "toml") {
                Ok(Format::Toml)
            } else if str_eq(e.as_str(), "json") {
                Ok(Format::Json)
            } else if str_eq(e.as_str(), "yaml") || str_eq(e.as_str(), "yml") {
                Ok(Format::Yaml)
            } else {
                Err(ConfigError::UnsupportedFormat(path.to_owned()))
            }
        },
        None => Err(ConfigError::UnsupportedFormat(path.to_owned())),
    }
}

} // verus!
