//! The `uniko` configuration file: its model, the choice of format, and validation.
use vstd::prelude::*;
use vstd::set_lib::lemma_len_subset;
use vstd::string::*;

use crate::config::{extension, extension_spec};
use crate::oci::decimal;
use crate::strmap::StrMap;
use crate::text::{concat, contains_char, contains_str, has_prefix, split_once, split_once_spec, starts_with, str_eq, views};

verus! {

/// The configuration version this program reads.
pub const CONFIG_VERSION: u32 = 1;

/// A configuration: its version, reusable layers and images.
#[derive(Debug)]
pub struct Config {
    pub containerless: u32,
    pub layers: StrMap<Layer>,
    pub images: StrMap<Image>,
}

/// The formats a configuration file can be written in.
#[derive(Debug, Clone, Copy, PartialEq, Eq, Structural)]
pub enum ConfigFormat {
    Toml,
    Json,
}

/// A reusable layer of files.
#[derive(Debug)]
pub struct Layer {
    pub files: Vec<FileMapping>,
}

/// A configured image.
#[derive(Debug)]
pub struct Image {
    pub base: Base,
    pub layers: Vec<String>,
    pub files: Vec<FileMapping>,
    pub entrypoint: Option<Vec<String>>,
    pub command: Option<Vec<String>>,
    pub user: Option<String>,
    pub workdir: Option<String>,
    pub stop_signal: Option<String>,
    pub ports: Option<Vec<String>>,
    pub volumes: Option<Vec<String>>,
    pub env: StrMap<String>,
    pub labels: StrMap<String>,
    pub annotations: StrMap<String>,
    /// `None` inherits repositories from a configured-image base; an empty list clears them.
    pub repositories: Option<Vec<String>>,
    pub tags: Vec<String>,
    pub squash: bool,
    pub flatten: bool,
}

/// The base of an image: an external image, or another configured image.
#[derive(Debug)]
pub enum Base {
    External(String),
    Local { image: String },
}

/// The base of an image that names none: `scratch`.
pub fn default_base() -> (r: Base)
    ensures
        r matches Base::External(s) && s@ == "scratch"@,
{
    Base::External("scratch".to_owned())
}

/// A file of a layer: `SOURCE:DESTINATION`, or the detailed options.
#[derive(Debug)]
pub enum FileMapping {
    Shorthand(String),
    Detailed(FileOptions),
}

/// The detailed options of a file.
#[derive(Debug)]
pub struct FileOptions {
    pub source: PlatformValue<String>,
    pub to: String,
    pub includes: Vec<String>,
    pub exclude: Vec<String>,
    pub mode: Option<Mode>,
    pub owner: Option<String>,
    pub follow_symlinks: bool,
    pub parents: bool,
}

/// A value for every platform, or one value per platform with an optional `default`.
#[derive(Debug)]
pub enum PlatformValue<T> {
    Scalar(T),
    Platforms(StrMap<T>),
}

/// A file mode: an octal string or a number.
#[derive(Debug)]
pub enum Mode {
    String(String),
    Integer(u32),
}

/// An error of loading or validating a configuration.
#[derive(Debug)]
pub enum ConfigError {
    /// The file could not be parsed; the parser's message.
    Parse(String),
    /// The file's extension names no supported format.
    UnsupportedFormat(String),
    /// The configuration is invalid.
    Invalid(String),
}

impl ConfigError {
    /// The message of the error.
    pub fn message(&self) -> (r: String)
        ensures
            match self {
                ConfigError::Parse(m) => r@ == m@,
                ConfigError::UnsupportedFormat(p) => r@ == "unsupported config format for "@ + p@ + "; expected .toml or .json"@,
                ConfigError::Invalid(m) => r@ == m@,
            },
    {
        match self {
            ConfigError::Parse(m) => m.clone(),
            ConfigError::UnsupportedFormat(p) => {
                let head = concat("unsupported config format for ", p.as_str());
                concat(head.as_str(), "; expected .toml or .json")
            },
            ConfigError::Invalid(m) => m.clone(),
        }
    }
}

/// Whether a platform value's map keeps its keys in order.
pub open spec fn value_wf<T>(v: PlatformValue<T>) -> bool {
    v matches PlatformValue::Platforms(m) ==> m.wf()
}

/// The value of a platform value for `platform`: the scalar, the platform's value, or the
/// `default` value.
pub open spec fn value_for<T>(v: PlatformValue<T>, platform: Seq<char>) -> Option<T> {
    match v {
        PlatformValue::Scalar(x) => Some(x),
        PlatformValue::Platforms(m) => if m.view().contains_key(platform) {
            Some(m.view()[platform])
        } else if m.view().contains_key("default"@) {
            Some(m.view()["default"@])
        } else {
            None
        },
    }
}

impl<T> PlatformValue<T> {
    /// The value for `platform`, or the `default` value.
    pub fn resolve(&self, platform: &str) -> (r: Option<&T>)
        requires
            value_wf(*self),
        ensures
            match r {
                Some(x) => value_for(*self, platform@) == Some(*x),
                None => value_for(*self, platform@) is None,
            },
    {
        match self {
            PlatformValue::Scalar(x) => Some(x),
            PlatformValue::Platforms(values) => match values.get(platform) {
                Some(x) => Some(x),
                None => values.get("default"),
            },
        }
    }
}

/// The format a configuration file is read in, by its extension.
pub open spec fn format_of(path: Seq<char>) -> Option<ConfigFormat> {
    match extension_spec(path) {
        Some(e) => if e == "toml"@ {
            Some(ConfigFormat::Toml)
        } else if e == "json"@ {
            Some(ConfigFormat::Json)
        } else {
            None
        },
        None => None,
    }
}

/// The format of the configuration file at `path`; an error when its extension is neither
/// `toml` nor `json`.
pub fn format_for_path(path: &str) -> (r: Result<ConfigFormat, ConfigError>)
    ensures
        match format_of(path@) {
            Some(f) => r == Ok::<ConfigFormat, ConfigError>(f),
            None => r matches Err(ConfigError::UnsupportedFormat(p)) && p@ == path@,
        },
{
    match extension(path) {
        Some(e) => {
            if str_eq(e.as_str(), "toml") {
                Ok(ConfigFormat::Toml)
            } else if str_eq(e.as_str(), "json") {
                Ok(ConfigFormat::Json)
            } else {
                Err(ConfigError::UnsupportedFormat(path.to_owned()))
            }
        },
        None => Err(ConfigError::UnsupportedFormat(path.to_owned())),
    }
}

/// `directory` joined with a file name.
pub open spec fn in_directory(directory: Seq<char>, name: Seq<char>) -> Seq<char> {
    crate::paths::path_join(directory, name)
}

/// The default configuration file of a directory, given whether `containerless.toml` and
/// `containerless.json` are files in it: the one that is; none when neither is; an error when
/// both are.
pub fn discover(directory: &str, toml_is_file: bool, json_is_file: bool) -> (r: Result<Option<String>, ConfigError>)
    ensures
        toml_is_file && json_is_file ==> r matches Err(ConfigError::Invalid(_)),
        toml_is_file && !json_is_file ==> (r matches Ok(Some(p)) && p@ == in_directory(directory@, "containerless.toml"@)),
        !toml_is_file && json_is_file ==> (r matches Ok(Some(p)) && p@ == in_directory(directory@, "containerless.json"@)),
        !toml_is_file && !json_is_file ==> r matches Ok(None),
{
    let toml = crate::paths::path_join_exec(directory, "containerless.toml");
    let json = crate::paths::path_join_exec(directory, "containerless.json");
    if toml_is_file && json_is_file {
        let head = concat("multiple config files found: ", toml.as_str());
        let mid = concat(head.as_str(), ", ");
        Err(ConfigError::Invalid(concat(mid.as_str(), json.as_str())))
    } else if toml_is_file {
        Ok(Some(toml))
    } else if json_is_file {
        Ok(Some(json))
    } else {
        Ok(None)
    }
}

/// Whether a file is valid: a shorthand splits at its first `:` into a non-empty source and
/// destination; a detailed file's platform map is not empty and names only `default` and
/// platforms (names with a `/`); and the destination is absolute.
pub open spec fn file_ok(f: FileMapping) -> bool {
    match f {
        FileMapping::Shorthand(m) => split_once_spec(m@, ':') matches Some((s, d)) && s.len() > 0 && d.len() > 0
            && has_prefix(d, "/"@),
        FileMapping::Detailed(o) => {
            &&& o.source matches PlatformValue::Platforms(vs) ==> {
                &&& vs.items().len() > 0
                &&& forall|k: Seq<char>| #[trigger] vs.view().contains_key(k) ==> k == "default"@ || k.contains('/')
            }
            &&& has_prefix(o.to@, "/"@)
        },
    }
}

pub open spec fn files_ok(fs: Seq<FileMapping>) -> bool {
    forall|i: int| 0 <= i < fs.len() ==> file_ok(#[trigger] fs[i])
}

/// Whether every platform map of the files keeps its keys in order.
pub open spec fn files_wf(fs: Seq<FileMapping>) -> bool {
    forall|i: int| 0 <= i < fs.len() ==> ((#[trigger] fs[i]) matches FileMapping::Detailed(o) ==> value_wf(o.source))
}

fn invalid_in(what: &str, owner: &str, rest: &str) -> (r: ConfigError)
    ensures
        r is Invalid,
{
    let head = concat(what, owner);
    ConfigError::Invalid(concat(head.as_str(), rest))
}

/// Checks the files of `owner`.
pub fn validate_files(owner: &str, files: &Vec<FileMapping>) -> (r: Result<(), ConfigError>)
    requires
        files_wf(files@),
    ensures
        r is Ok <==> files_ok(files@),
        r matches Err(e) ==> e is Invalid,
{
    proof {
        reveal_strlit("/");
        reveal_strlit("default");
    }
    let mut i: usize = 0;
    while i < files.len()
        invariant
            files_wf(files@),
            i <= files@.len(),
            forall|j: int| 0 <= j < i ==> file_ok(#[trigger] files@[j]),
        decreases files@.len() - i,
    {
        let destination: &str = match &files[i] {
            FileMapping::Shorthand(mapping) => {
                match split_once(mapping.as_str(), ':') {
                    Some((source, destination)) => {
                        if source.as_str().is_empty() || destination.as_str().is_empty() {
                            assert(!file_ok(files@[i as int]));
                            return Err(invalid_in("invalid file mapping ", mapping.as_str(), "; expected SOURCE:DESTINATION"));
                        }
                        if !starts_with(destination.as_str(), "/") {
                            assert(!file_ok(files@[i as int]));
                            return Err(invalid_in("file destination must be absolute: ", destination.as_str(), ""));
                        }
                        assert(file_ok(files@[i as int]));
                        i = i + 1;
                        continue;
                    },
                    None => {
                        assert(!file_ok(files@[i as int]));
                        return Err(invalid_in("invalid file mapping ", mapping.as_str(), "; expected SOURCE:DESTINATION"));
                    },
                }
            },
            FileMapping::Detailed(options) => {
                if let PlatformValue::Platforms(values) = &options.source {
                    assert(value_wf(options.source));
                    proof {
                        values.lemma_view();
                    }
                    if values.len() == 0 {
                        assert(!file_ok(files@[i as int]));
                        return Err(invalid_in("file source platform map cannot be empty in ", owner, ""));
                    }
                    let mut k: usize = 0;
                    while k < values.len()
                        invariant
                            files_wf(files@),
                            i < files@.len(),
                            files@[i as int] matches FileMapping::Detailed(o) && o.source == PlatformValue::Platforms(*values),
                            values.wf(),
                            k <= values.items().len(),
                            forall|j: int| 0 <= j < k ==> (#[trigger] values.items()[j]).0@ == "default"@ || values.items()[j].0@.contains('/'),
                        decreases values.items().len() - k,
                    {
                        let (platform, _) = values.at(k);
                        if !str_eq(platform.as_str(), "default") && !contains_char(platform.as_str(), '/') {
                            proof {
                                values.lemma_view();
                                assert(values.key_seq()[k as int] == platform@);
                                assert(values.view().contains_key(platform@));
                            }
                            assert(!file_ok(files@[i as int]));
                            return Err(invalid_in("invalid OCI platform ", platform.as_str(), ""));
                        }
                        k = k + 1;
                    }
                    proof {
                        values.lemma_view();
                        assert forall|key: Seq<char>| #[trigger] values.view().contains_key(key) implies key == "default"@ || key.contains('/') by {
                            let j = choose|j: int| 0 <= j < values.key_seq().len() && values.key_seq()[j] == key;
                            assert(values.items()[j].0@ == key);
                        }
                    }
                }
                options.to.as_str()
            },
        };
        if !starts_with(destination, "/") {
            assert(!file_ok(files@[i as int]));
            return Err(invalid_in("file destination must be absolute: ", destination, ""));
        }
        assert(file_ok(files@[i as int]));
        i = i + 1;
    }
    Ok(())
}

/// Whether the chain of bases from `name` reaches an image with an external base within `k`
/// images.
pub open spec fn reaches_external(images: Map<Seq<char>, Image>, name: Seq<char>, k: nat) -> bool
    decreases k,
{
    k > 0 && images.contains_key(name) && match images[name].base {
        Base::External(_) => true,
        Base::Local { image } => reaches_external(images, image@, (k - 1) as nat),
    }
}

/// Whether the chain of bases from `name` ends at an external base, with no cycle.
pub open spec fn acyclic_from(images: Map<Seq<char>, Image>, name: Seq<char>) -> bool {
    exists|k: nat| reaches_external(images, name, k)
}

/// Whether every configured base image is configured.
pub open spec fn bases_known(images: Map<Seq<char>, Image>) -> bool {
    forall|n: Seq<char>| #[trigger] images.contains_key(n) ==> (images[n].base matches Base::Local { image } ==> images.contains_key(image@))
}

/// Whether an image is valid: not both squashed and flattened, its layers and base configured,
/// and its files valid.
pub open spec fn image_ok(c: Config, name: Seq<char>) -> bool {
    let img = c.images.view()[name];
    &&& !(img.squash && img.flatten)
    &&& forall|l: int| 0 <= l < img.layers@.len() ==> c.layers.view().contains_key(#[trigger] img.layers@[l]@)
    &&& img.base matches Base::Local { image } ==> c.images.view().contains_key(image@)
    &&& files_ok(img.files@)
}

/// Whether a configuration is valid: the supported version, at least one image, valid images
/// and layers, and no cycle of configured-image bases.
pub open spec fn valid(c: Config) -> bool {
    &&& c.containerless == CONFIG_VERSION
    &&& c.images.view().dom().len() > 0
    &&& forall|n: Seq<char>| #[trigger] c.images.view().contains_key(n) ==> image_ok(c, n)
    &&& forall|n: Seq<char>| #[trigger] c.layers.view().contains_key(n) ==> files_ok(c.layers.view()[n].files@)
    &&& forall|n: Seq<char>| #[trigger] c.images.view().contains_key(n) ==> acyclic_from(c.images.view(), n)
}

/// Whether the maps of a configuration keep their keys in order.
pub open spec fn config_wf(c: Config) -> bool {
    &&& c.images.wf()
    &&& c.layers.wf()
    &&& forall|n: Seq<char>| #[trigger] c.images.view().contains_key(n) ==> files_wf(c.images.view()[n].files@)
    &&& forall|n: Seq<char>| #[trigger] c.layers.view().contains_key(n) ==> files_wf(c.layers.view()[n].files@)
}

proof fn lemma_distinct_bound(s: Seq<Seq<char>>, d: Set<Seq<char>>)
    requires
        d.finite(),
        s.no_duplicates(),
        forall|i: int| 0 <= i < s.len() ==> d.contains(#[trigger] s[i]),
    ensures
        s.len() <= d.len(),
{
    s.unique_seq_to_set();
    assert(s.to_set().subset_of(d));
    lemma_len_subset(s.to_set(), d);
}

/// A walk of bases: each image of `path` has a configured base, the next image of the path,
/// and the last one's base is `next`.
pub open spec fn base_walk(images: Map<Seq<char>, Image>, path: Seq<Seq<char>>, next: Seq<char>) -> bool {
    &&& forall|t: int| 0 <= t < path.len() ==> images.contains_key(#[trigger] path[t])
    &&& forall|t: int| 0 <= t < path.len() ==> (images[#[trigger] path[t]].base matches Base::Local { image }
        && image@ == if t + 1 < path.len() { path[t + 1] } else { next })
}

/// When the walk's next image reaches an external base, so does every image of the walk.
proof fn lemma_walk_reaches(images: Map<Seq<char>, Image>, path: Seq<Seq<char>>, next: Seq<char>, k: nat, t: int)
    requires
        base_walk(images, path, next),
        reaches_external(images, next, k),
        0 <= t <= path.len(),
    ensures
        t < path.len() ==> reaches_external(images, path[t], (k + path.len() - t) as nat),
    decreases path.len() - t,
{
    if t < path.len() {
        if t + 1 < path.len() {
            lemma_walk_reaches(images, path, next, k, t + 1);
        }
        assert(images[path[t]].base matches Base::Local { image } && image@ == if t + 1 < path.len() { path[t + 1] } else { next });
    }
}

/// When the walk comes back to one of its images, none of its images reaches an external
/// base.
proof fn lemma_walk_cycle(images: Map<Seq<char>, Image>, path: Seq<Seq<char>>, next: Seq<char>, k: nat)
    requires
        base_walk(images, path, next),
        path.contains(next),
    ensures
        forall|t: int| 0 <= t < path.len() ==> !reaches_external(images, #[trigger] path[t], k),
    decreases k,
{
    if k > 0 {
        lemma_walk_cycle(images, path, next, (k - 1) as nat);
        assert forall|t: int| 0 <= t < path.len() implies !reaches_external(images, #[trigger] path[t], k) by {
            assert(images[path[t]].base matches Base::Local { image } && image@ == if t + 1 < path.len() { path[t + 1] } else { next });
            if t + 1 < path.len() {
                assert(!reaches_external(images, path[t + 1], (k - 1) as nat));
            } else {
                let j = choose|j: int| 0 <= j < path.len() && path[j] == next;
                assert(!reaches_external(images, path[j], (k - 1) as nat));
            }
        }
    }
}

/// Appends the images of `path` to `complete`, all of them acyclic.
fn record_acyclic(complete: &mut Vec<String>, path: &Vec<String>, images: &StrMap<Image>)
    requires
        forall|j: int| 0 <= j < old(complete)@.len() ==> acyclic_from(images.view(), #[trigger] old(complete)@[j]@),
        forall|t: int| 0 <= t < path@.len() ==> acyclic_from(images.view(), #[trigger] path@[t]@),
    ensures
        views(final(complete)@) == views(old(complete)@) + views(path@),
        forall|j: int| 0 <= j < final(complete)@.len() ==> acyclic_from(images.view(), #[trigger] final(complete)@[j]@),
{
    let mut n: usize = 0;
    assert(views(path@).take(0) =~= Seq::<Seq<char>>::empty());
    assert(views(old(complete)@) + views(path@).take(0) =~= views(old(complete)@));
    while n < path.len()
        invariant
            forall|t: int| 0 <= t < path@.len() ==> acyclic_from(images.view(), #[trigger] path@[t]@),
            forall|j: int| 0 <= j < complete@.len() ==> acyclic_from(images.view(), #[trigger] complete@[j]@),
            n <= path@.len(),
            views(complete@) == views(old(complete)@) + views(path@).take(n as int),
        decreases path@.len() - n,
    {
        assert(acyclic_from(images.view(), path@[n as int]@));
        let ghost before = complete@;
        complete.push(path[n].clone());
        proof {
            crate::text::lemma_views_push(before, path@[n as int]);
            assert(views(path@).take(n + 1) =~= views(path@).take(n as int).push(path@[n as int]@));
            assert(views(complete@) =~= views(old(complete)@) + views(path@).take(n + 1));
        }
        n = n + 1;
    }
    assert(views(path@).take(n as int) =~= views(path@));
}

/// When the walk's next image is acyclic, so is every image of the walk.
proof fn lemma_walk_acyclic(images: Map<Seq<char>, Image>, path: Seq<String>, next: Seq<char>)
    requires
        base_walk(images, views(path), next),
        acyclic_from(images, next),
    ensures
        forall|t: int| 0 <= t < path.len() ==> acyclic_from(images, #[trigger] path[t]@),
{
    let k = choose|k: nat| reaches_external(images, next, k);
    assert forall|t: int| 0 <= t < path.len() implies acyclic_from(images, #[trigger] path[t]@) by {
        lemma_walk_reaches(images, views(path), next, k, t);
        assert(views(path)[t] == path[t]@);
        assert(reaches_external(images, path[t]@, (k + path.len() - t) as nat));
    }
}

/// A walk extends by an image whose base is the next image.
proof fn lemma_walk_push(images: Map<Seq<char>, Image>, path: Seq<Seq<char>>, cur: Seq<char>, next: Seq<char>)
    requires
        base_walk(images, path, cur),
        images.contains_key(cur),
        images[cur].base matches Base::Local { image } && image@ == next,
    ensures
        base_walk(images, path.push(cur), next),
{
    let p2 = path.push(cur);
    assert forall|t: int| 0 <= t < p2.len() implies (images[#[trigger] p2[t]].base matches Base::Local { image }
        && image@ == if t + 1 < p2.len() { p2[t + 1] } else { next }) by {
        if t < path.len() {
            assert(p2[t] == path[t]);
            if t + 1 < path.len() {
                assert(p2[t + 1] == path[t + 1]);
            }
        }
    }
}

/// When the walk ends at an image with an external base, every image of the walk and that
/// image are acyclic.
proof fn lemma_walk_external(images: Map<Seq<char>, Image>, path: Seq<String>, cur: String)
    requires
        base_walk(images, views(path), cur@),
        images.contains_key(cur@),
        images[cur@].base is External,
    ensures
        forall|t: int| 0 <= t < path.push(cur).len() ==> acyclic_from(images, #[trigger] path.push(cur)[t]@),
{
    assert(reaches_external(images, cur@, 1));
    lemma_walk_acyclic(images, path, cur@);
    assert forall|t: int| 0 <= t < path.push(cur).len() implies acyclic_from(images, #[trigger] path.push(cur)[t]@) by {
        if t < path.len() {
            assert(path.push(cur)[t] == path[t]);
        }
    }
}

/// Follows the bases from `name`, and records each image whose chain ends at an external base
/// in `complete`; an error when the chain comes back to an image.
fn validate_base_cycle(name: &str, images: &StrMap<Image>, complete: &mut Vec<String>) -> (r: Result<(), ConfigError>)
    requires
        images.wf(),
        bases_known(images.view()),
        images.view().contains_key(name@),
        forall|j: int| 0 <= j < old(complete)@.len() ==> acyclic_from(images.view(), #[trigger] old(complete)@[j]@),
    ensures
        r is Ok <==> acyclic_from(images.view(), name@),
        r matches Err(e) ==> e is Invalid,
        forall|j: int| 0 <= j < final(complete)@.len() ==> acyclic_from(images.view(), #[trigger] final(complete)@[j]@),
{
    let ghost m = images.view();
    proof {
        images.lemma_view();
    }
    let mut path: Vec<String> = Vec::new();
    let mut cur: String = name.to_owned();
    loop
        invariant
            images.wf(),
            m == images.view(),
            m.dom().finite(),
            m.dom().len() == images.items().len(),
            bases_known(m),
            m.contains_key(cur@),
            forall|j: int| 0 <= j < complete@.len() ==> acyclic_from(m, #[trigger] complete@[j]@),
            base_walk(m, views(path@), cur@),
            views(path@).no_duplicates(),
            path@.len() == 0 ==> cur@ == name@,
            path@.len() > 0 ==> views(path@)[0] == name@,
        decreases images.items().len() - path@.len(),
    {
        if contains_str(complete, cur.as_str()) {
            proof {
                let j = choose|j: int| 0 <= j < complete@.len() && views(complete@)[j] == cur@;
                assert(views(complete@)[j] == complete@[j]@);
                lemma_walk_acyclic(m, path@, cur@);
                if path@.len() > 0 {
                    assert(path@[0]@ == views(path@)[0]);
                }
            }
            record_acyclic(complete, &path, images);
            return Ok(());
        }
        if contains_str(&path, cur.as_str()) {
            proof {
                assert forall|k: nat| !reaches_external(m, name@, k) by {
                    lemma_walk_cycle(m, views(path@), cur@, k);
                }
            }
            return Err(invalid_in("configured-image base cycle includes ", cur.as_str(), ""));
        }
        proof {
            lemma_distinct_bound(views(path@).push(cur@), m.dom());
            assert(views(path@).push(cur@).no_duplicates());
        }
        let img = images.get(cur.as_str()).unwrap();
        let ghost before = path@;
        match &img.base {
            Base::External(_) => {
                proof {
                    lemma_walk_external(m, before, cur);
                }
                path.push(cur.clone());
                proof {
                    assert(path@ == before.push(cur));
                    assert(path@[0]@ == name@) by {
                        if before.len() > 0 {
                            assert(views(before)[0] == before[0]@);
                        }
                    }
                }
                record_acyclic(complete, &path, images);
                return Ok(());
            },
            Base::Local { image } => {
                proof {
                    lemma_walk_push(m, views(before), cur@, image@);
                    assert(views(before.push(cur)) =~= views(before).push(cur@));
                }
                path.push(cur.clone());
                cur = image.clone();
            },
        }
    }
}

/// Checks a configuration and returns it: the supported version, at least one image, no image
/// both squashed and flattened, configured layers and bases, valid files, and no cycle of
/// configured-image bases.
pub fn validate(config: Config) -> (r: Result<Config, ConfigError>)
    requires
        config_wf(config),
    ensures
        r is Ok <==> valid(config),
        r matches Ok(c) ==> c == config,
        r matches Err(e) ==> e is Invalid,
{
    if config.containerless != CONFIG_VERSION {
        let head = concat("unsupported containerless version ", decimal(config.containerless as u64).as_str());
        return Err(ConfigError::Invalid(concat(head.as_str(), "; expected 1")));
    }
    let images = &config.images;
    proof {
        images.lemma_view();
        config.layers.lemma_view();
    }
    if images.len() == 0 {
        return Err(ConfigError::Invalid("config must define at least one image".to_owned()));
    }
    let n = images.len();
    let mut i: usize = 0;
    while i < n
        invariant
            config_wf(config),
            n == images.items().len(),
            images == &config.images,
            i <= n,
            forall|j: int| 0 <= j < i ==> image_ok(config, #[trigger] images.items()[j].0@),
        decreases n - i,
    {
        proof {
            images.lemma_view();
        }
        let (name, image) = images.at(i);
        assert(images.view()[name@] == *image);
        assert(images.view().contains_key(name@)) by {
            assert(images.key_seq()[i as int] == name@);
        }
        if image.squash && image.flatten {
            return Err(invalid_in("image cannot enable both squash and flatten: ", name.as_str(), ""));
        }
        let mut l: usize = 0;
        while l < image.layers.len()
            invariant
                config_wf(config),
                config.layers.wf(),
                images == &config.images,
                images.view().contains_key(name@),
                images.view()[name@] == *image,
                l <= image.layers@.len(),
                forall|x: int| 0 <= x < l ==> config.layers.view().contains_key(#[trigger] image.layers@[x]@),
            decreases image.layers@.len() - l,
        {
            if !config.layers.contains_key(image.layers[l].as_str()) {
                return Err(invalid_in("image references unknown layer ", image.layers[l].as_str(), ""));
            }
            l = l + 1;
        }
        if let Base::Local { image: base } = &image.base {
            if !images.contains_key(base.as_str()) {
                return Err(invalid_in("image references unknown base image ", base.as_str(), ""));
            }
        }
        assert(files_wf(image.files@));
        match validate_files(name.as_str(), &image.files) {
            Ok(()) => {},
            Err(e) => {
                return Err(e);
            },
        }
        i = i + 1;
    }
    let layers = &config.layers;
    let ln = layers.len();
    let mut i: usize = 0;
    while i < ln
        invariant
            config_wf(config),
            ln == layers.items().len(),
            layers == &config.layers,
            i <= ln,
            forall|j: int| 0 <= j < i ==> files_ok(#[trigger] layers.view()[layers.items()[j].0@].files@),
        decreases ln - i,
    {
        proof {
            layers.lemma_view();
        }
        let (name, layer) = layers.at(i);
        assert(layers.view()[name@] == *layer);
        assert(layers.view().contains_key(name@)) by {
            assert(layers.key_seq()[i as int] == name@);
        }
        match validate_files(name.as_str(), &layer.files) {
            Ok(()) => {},
            Err(e) => {
                return Err(e);
            },
        }
        i = i + 1;
    }
    proof {
        images.lemma_view();
        layers.lemma_view();
        assert forall|k: Seq<char>| #[trigger] images.view().contains_key(k) implies image_ok(config, k) by {
            let j = choose|j: int| 0 <= j < images.key_seq().len() && images.key_seq()[j] == k;
            assert(images.items()[j].0@ == k);
        }
        assert forall|k: Seq<char>| #[trigger] layers.view().contains_key(k) implies files_ok(layers.view()[k].files@) by {
            let j = choose|j: int| 0 <= j < layers.key_seq().len() && layers.key_seq()[j] == k;
            assert(layers.items()[j].0@ == k);
        }
        assert(bases_known(images.view()));
    }
    let mut complete: Vec<String> = Vec::new();
    let mut i: usize = 0;
    while i < n
        invariant
            config_wf(config),
            images == &config.images,
            n == images.items().len(),
            i <= n,
            bases_known(images.view()),
            forall|j: int| 0 <= j < complete@.len() ==> acyclic_from(images.view(), #[trigger] complete@[j]@),
            forall|j: int| 0 <= j < i ==> acyclic_from(images.view(), #[trigger] images.items()[j].0@),
        decreases n - i,
    {
        proof {
            images.lemma_view();
        }
        let (name, _) = images.at(i);
        assert(images.view().contains_key(name@)) by {
            assert(images.key_seq()[i as int] == name@);
        }
        match validate_base_cycle(name.as_str(), images, &mut complete) {
            Ok(()) => {},
            Err(e) => {
                return Err(e);
            },
        }
        i = i + 1;
    }
    proof {
        images.lemma_view();
        assert forall|k: Seq<char>| #[trigger] images.view().contains_key(k) implies acyclic_from(images.view(), k) by {
            let j = choose|j: int| 0 <= j < images.key_seq().len() && images.key_seq()[j] == k;
            assert(images.items()[j].0@ == k);
        }
    }
    Ok(config)
}

} // verus!
