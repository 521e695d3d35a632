//! Command-line values, and the checks and parsing done on them before a build.
use std::str::FromStr;
use vstd::prelude::*;
use vstd::string::*;

use crate::platform::{platform_of, platform_string_valid, platform_text, Platform};
use crate::strmap::StrMap;
use crate::text::{concat, has_prefix, split_once, split_once_spec, starts_with, str_eq, views};

verus! {

/// The format written by `--output`.
#[derive(Debug, Clone, Copy, PartialEq, Eq, Structural)]
pub enum OutputFormat {
    /// An OCI archive.
    Oci,
    /// An unpacked OCI layout directory.
    OciDirectory,
}

impl Default for OutputFormat {
    fn default() -> (r: Self)
        ensures
            r == OutputFormat::Oci,
    {
        OutputFormat::Oci
    }
}

/// A local source copied to a destination in the image.
#[derive(Debug)]
pub struct CopyInput {
    pub source: String,
    pub destination: String,
}

/// A `KEY=VALUE` assignment.
#[derive(Debug)]
pub struct KeyValue {
    pub key: String,
    pub value: String,
}

/// The images a command processes.
#[derive(Debug)]
pub struct ImageSelection {
    /// Images to process.
    pub targets: Vec<String>,
    /// Select every configured image.
    pub all: bool,
}

/// Options shared by building and publishing.
#[derive(Debug)]
pub struct BuildOptions {
    /// Local sources copied into the image.
    pub copies: Vec<CopyInput>,
    /// Build only these OCI platforms.
    pub platforms: Vec<String>,
    /// Read tags and labels from Docker Metadata Action JSON.
    pub metadata_from: Option<String>,
    /// Write structured build result metadata.
    pub metadata_file: Option<String>,
    /// Write the top-level image digest.
    pub digest_file: Option<String>,
    /// Image labels.
    pub labels: Vec<KeyValue>,
    /// OCI annotations.
    pub annotations: Vec<KeyValue>,
    /// Combine layers added by the build into one layer.
    pub squash: bool,
    /// Emit the complete resulting filesystem as one layer.
    pub flatten: bool,
    /// Full image references to publish, optionally scoped as `IMAGE=REFERENCE`.
    pub tags: Vec<String>,
    /// Registry hosts reached over plain HTTP.
    pub plain_http: Vec<String>,
}

impl Default for BuildOptions {
    fn default() -> (r: Self)
        ensures
            r.copies@.len() == 0,
            r.platforms@.len() == 0,
            r.metadata_from is None,
            r.metadata_file is None,
            r.digest_file is None,
            r.labels@.len() == 0,
            r.annotations@.len() == 0,
            !r.squash,
            !r.flatten,
            r.tags@.len() == 0,
            r.plain_http@.len() == 0,
    {
        BuildOptions {
            copies: Vec::new(),
            platforms: Vec::new(),
            metadata_from: None,
            metadata_file: None,
            digest_file: None,
            labels: Vec::new(),
            annotations: Vec::new(),
            squash: false,
            flatten: false,
            tags: Vec::new(),
            plain_http: Vec::new(),
        }
    }
}

/// Build images and write them to outputs.
#[derive(Debug)]
pub struct BuildCommand {
    pub selection: ImageSelection,
    pub options: BuildOptions,
    /// Push to the configured or supplied references.
    pub push: bool,
    /// Write an OCI archive or another selected format to this path.
    pub output: Option<String>,
    /// Format written by `output`.
    pub format: Option<OutputFormat>,
}

/// Build images and publish them to registries.
#[derive(Debug)]
pub struct PublishCommand {
    pub selection: ImageSelection,
    pub options: BuildOptions,
    /// Package one local file without a configuration file.
    pub source: Option<String>,
}

/// Resolve images and print what would be built.
#[derive(Debug)]
pub struct InspectCommand {
    pub selection: ImageSelection,
    /// Resolve only these OCI platforms.
    pub platforms: Vec<String>,
    /// Print the image definition as JSON.
    pub json: bool,
}

pub open spec fn platform_copy_message() -> Seq<char> {
    "platform-specific copies belong in the configuration file; use --platform to select output platforms"@
}

/// What a `SOURCE:DESTINATION` copy value gives: the source and destination, or the message of
/// the error.
pub open spec fn copy_spec(v: Seq<char>) -> Result<(Seq<char>, Seq<char>), Seq<char>> {
    if has_prefix(v, "platform="@) {
        Err(platform_copy_message())
    } else {
        match split_once_spec(v, ':') {
            None => Err("copy mapping must be SOURCE:DESTINATION"@),
            Some(parts) => if parts.0.len() == 0 {
                Err("copy source cannot be empty"@)
            } else if !has_prefix(parts.1, "/"@) {
                Err("copy destination must be an absolute path"@)
            } else {
                Ok(parts)
            },
        }
    }
}

impl CopyInput {
    /// Parses `SOURCE:DESTINATION`, split at the first `:`; the destination must be absolute.
    pub fn parse(value: &str) -> (r: Result<CopyInput, String>)
        ensures
            match copy_spec(value@) {
                Ok(parts) => r matches Ok(c) && c.source@ == parts.0 && c.destination@ == parts.1,
                Err(m) => r matches Err(e) && e@ == m,
            },
    {
        if starts_with(value, "platform=") {
            return Err("platform-specific copies belong in the configuration file; use --platform to select output platforms".to_owned());
        }
        let (source, destination) = match split_once(value, ':') {
            Some(parts) => parts,
            None => {
                return Err("copy mapping must be SOURCE:DESTINATION".to_owned());
            },
        };
        if source.as_str().is_empty() {
            return Err("copy source cannot be empty".to_owned());
        }
        if !starts_with(destination.as_str(), "/") {
            return Err("copy destination must be an absolute path".to_owned());
        }
        Ok(CopyInput { source, destination })
    }
}

impl FromStr for CopyInput {
    type Err = String;

    fn from_str(value: &str) -> (r: Result<Self, Self::Err>)
        ensures
            match copy_spec(value@) {
                Ok(parts) => r matches Ok(c) && c.source@ == parts.0 && c.destination@ == parts.1,
                Err(m) => r matches Err(e) && e@ == m,
            },
    {
        CopyInput::parse(value)
    }
}

/// What a `KEY=VALUE` assignment gives: the key and value, split at the first `=`, or the
/// message of the error.
pub open spec fn assignment_spec(v: Seq<char>) -> Result<(Seq<char>, Seq<char>), Seq<char>> {
    match split_once_spec(v, '=') {
        None => Err("assignment must be KEY=VALUE"@),
        Some(parts) => if parts.0.len() == 0 {
            Err("assignment key cannot be empty"@)
        } else {
            Ok(parts)
        },
    }
}

impl KeyValue {
    /// Parses `KEY=VALUE`, split at the first `=`; the key cannot be empty.
    pub fn parse(value: &str) -> (r: Result<KeyValue, String>)
        ensures
            match assignment_spec(value@) {
                Ok(parts) => r matches Ok(kv) && kv.key@ == parts.0 && kv.value@ == parts.1,
                Err(m) => r matches Err(e) && e@ == m,
            },
    {
        let (key, v) = match split_once(value, '=') {
            Some(parts) => parts,
            None => {
                return Err("assignment must be KEY=VALUE".to_owned());
            },
        };
        if key.as_str().is_empty() {
            return Err("assignment key cannot be empty".to_owned());
        }
        Ok(KeyValue { key, value: v })
    }
}

impl FromStr for KeyValue {
    type Err = String;

    fn from_str(value: &str) -> (r: Result<Self, Self::Err>)
        ensures
            match assignment_spec(value@) {
                Ok(parts) => r matches Ok(kv) && kv.key@ == parts.0 && kv.value@ == parts.1,
                Err(m) => r matches Err(e) && e@ == m,
            },
    {
        KeyValue::parse(value)
    }
}

/// Parses an OCI platform and writes it in normal form.
pub fn parse_platform(value: &str) -> (r: Result<String, String>)
    ensures
        match r {
            Ok(p) => platform_string_valid(value@) && p@ == platform_text(platform_of(value@)),
            Err(_) => !platform_string_valid(value@),
        },
{
    match Platform::parse(value) {
        Ok(p) => Ok(p.to_text()),
        Err(e) => Err(e.message()),
    }
}

/// Tags and labels read from Docker Metadata Action JSON.
pub struct DockerMetadata {
    pub tags: Vec<String>,
    pub labels: MetadataValues,
    pub annotations: MetadataValues,
}

/// Labels or annotations as a map, a list of `KEY=VALUE` strings, or absent.
pub enum MetadataValues {
    Table(StrMap<String>),
    List(Vec<String>),
    Empty,
}

/// The assignments of a list of `KEY=VALUE` strings, or the message of the first error.
pub open spec fn list_assignments(v: Seq<String>) -> Result<Seq<(Seq<char>, Seq<char>)>, Seq<char>>
    decreases v.len(),
{
    if v.len() == 0 {
        Ok(Seq::empty())
    } else {
        match list_assignments(v.drop_last()) {
            Err(m) => Err(m),
            Ok(prev) => match assignment_spec(v.last()@) {
                Err(m) => Err(m),
                Ok(kv) => Ok(prev.push(kv)),
            },
        }
    }
}

pub open spec fn kv_views(v: Seq<KeyValue>) -> Seq<(Seq<char>, Seq<char>)> {
    v.map_values(|kv: KeyValue| (kv.key@, kv.value@))
}

pub open spec fn pair_views(v: Seq<(String, String)>) -> Seq<(Seq<char>, Seq<char>)> {
    v.map_values(|kv: (String, String)| (kv.0@, kv.1@))
}

/// The assignments that metadata values give: a map's entries in key order, each string of a
/// list parsed in order, or none.
pub open spec fn metadata_assignments(m: MetadataValues) -> Result<Seq<(Seq<char>, Seq<char>)>, Seq<char>> {
    match m {
        MetadataValues::Table(values) => Ok(pair_views(values.items())),
        MetadataValues::List(values) => list_assignments(values@),
        MetadataValues::Empty => Ok(Seq::empty()),
    }
}

impl MetadataValues {
    /// The `KEY=VALUE` assignments these values give.
    pub fn assignments(self) -> (r: Result<Vec<KeyValue>, String>)
        ensures
            match metadata_assignments(self) {
                Ok(kvs) => r matches Ok(v) && kv_views(v@) == kvs,
                Err(m) => r matches Err(e) && e@ == m,
            },
    {
        match self {
            MetadataValues::Table(values) => {
                let items = values.into_items();
                let mut out: Vec<KeyValue> = Vec::new();
                let mut i: usize = 0;
                assert(kv_views(out@) =~= pair_views(items@).take(0));
                while i < items.len()
                    invariant
                        i <= items@.len(),
                        out@.len() == i,
                        kv_views(out@) == pair_views(items@).take(i as int),
                    decreases items@.len() - i,
                {
                    let kv = KeyValue { key: items[i].0.clone(), value: items[i].1.clone() };
                    let ghost before = out@;
                    out.push(kv);
                    proof {
                        assert(out@ == before.push(kv));
                        assert(kv_views(out@) =~= kv_views(before).push((kv.key@, kv.value@)));
                        assert(pair_views(items@).take(i + 1) =~= pair_views(items@).take(i as int).push((items@[i as int].0@, items@[i as int].1@)));
                    }
                    i = i + 1;
                }
                assert(pair_views(items@).take(i as int) =~= pair_views(items@));
                Ok(out)
            },
            MetadataValues::List(values) => {
                let mut out: Vec<KeyValue> = Vec::new();
                let mut i: usize = 0;
                assert(values@.take(0) =~= Seq::<String>::empty());
                assert(kv_views(out@) =~= Seq::<(Seq<char>, Seq<char>)>::empty());
                while i < values.len()
                    invariant
                        metadata_assignments(self) == list_assignments(values@),
                        i <= values@.len(),
                        list_assignments(values@.take(i as int)) == Ok::<Seq<(Seq<char>, Seq<char>)>, Seq<char>>(kv_views(out@)),
                    decreases values@.len() - i,
                {
                    proof {
                        assert(values@.take(i + 1).drop_last() =~= values@.take(i as int));
                        assert(values@.take(i + 1).last() == values@[i as int]);
                    }
                    match KeyValue::parse(values[i].as_str()) {
                        Ok(kv) => {
                            let ghost before = out@;
                            out.push(kv);
                            assert(kv_views(out@) =~= kv_views(before).push((kv.key@, kv.value@)));
                        },
                        Err(e) => {
                            proof {
                                assert(assignment_spec(values@[i as int]@) is Err);
                                assert(list_assignments(values@.take(i + 1)) == Err::<Seq<(Seq<char>, Seq<char>)>, Seq<char>>(e@));
                                lemma_list_assignments_stop(values@, i as int + 1);
                            }
                            return Err(e);
                        },
                    }
                    i = i + 1;
                }
                assert(values@.take(i as int) =~= values@);
                Ok(out)
            },
            MetadataValues::Empty => {
                let out: Vec<KeyValue> = Vec::new();
                assert(kv_views(out@) =~= Seq::<(Seq<char>, Seq<char>)>::empty());
                Ok(out)
            },
        }
    }
}

/// Once a list entry fails to parse, the list fails with its message.
proof fn lemma_list_assignments_stop(v: Seq<String>, k: int)
    requires
        0 < k <= v.len(),
        list_assignments(v.take(k)) is Err,
    ensures
        list_assignments(v) == list_assignments(v.take(k)),
    decreases v.len() - k,
{
    if k < v.len() {
        assert(v.take(k + 1).drop_last() =~= v.take(k));
        lemma_list_assignments_stop(v, k + 1);
    } else {
        assert(v.take(k) =~= v);
    }
}

pub open spec fn is_digit(c: char) -> bool {
    48 <= (c as u32) <= 57
}

/// The decimal value of a string of digits.
pub open spec fn digits_value(s: Seq<char>) -> nat
    decreases s.len(),
{
    if s.len() == 0 {
        0
    } else {
        digits_value(s.drop_last()) * 10 + ((s.last() as u32) - 48) as nat
    }
}

pub open spec fn all_digits(s: Seq<char>) -> bool {
    forall|i: int| 0 <= i < s.len() ==> is_digit(#[trigger] s[i])
}

/// The unsigned integer a string denotes, as `u64::from_str` reads it: an optional `+`, then
/// one or more decimal digits whose value fits 64 bits.
pub open spec fn u64_text(s: Seq<char>) -> Option<u64> {
    let body = if s.len() > 0 && s[0] == '+' {
        s.drop_first()
    } else {
        s
    };
    if body.len() > 0 && all_digits(body) && digits_value(body) <= u64::MAX {
        Some(digits_value(body) as u64)
    } else {
        None
    }
}

/// The value of digits does not shrink as digits are appended.
proof fn lemma_digits_grow(s: Seq<char>, k: int)
    requires
        0 <= k <= s.len(),
        all_digits(s),
    ensures
        digits_value(s.take(k)) <= digits_value(s),
    decreases s.len() - k,
{
    if k < s.len() {
        lemma_digits_grow(s, k + 1);
        assert(s.take(k + 1).drop_last() =~= s.take(k));
        assert(is_digit(s[k]));
    } else {
        assert(s.take(k) =~= s);
    }
}

/// Parses an unsigned integer as `u64::from_str` does.
pub fn parse_u64(text: &str) -> (r: Option<u64>)
    ensures
        r == u64_text(text@),
{
    let cs = crate::text::chars_of(text);
    let start: usize = if cs.len() > 0 && cs[0] == '+' {
        1
    } else {
        0
    };
    let ghost body = if text@.len() > 0 && text@[0] == '+' {
        text@.drop_first()
    } else {
        text@
    };
    assert(body =~= text@.skip(start as int));
    if start == cs.len() {
        return None;
    }
    let mut acc: u64 = 0;
    let mut i: usize = start;
    assert(body.take(0) =~= Seq::<char>::empty());
    while i < cs.len()
        invariant
            cs@ == text@,
            start <= i <= cs@.len(),
            start < cs@.len(),
            body == text@.skip(start as int),
            body == (if text@.len() > 0 && text@[0] == '+' { text@.drop_first() } else { text@ }),
            all_digits(body.take(i - start)),
            acc as nat == digits_value(body.take(i - start)),
        decreases cs@.len() - i,
    {
        let c = cs[i];
        let ghost k: int = i - start;
        proof {
            assert(body[k] == c);
            assert(body.take(k + 1).drop_last() =~= body.take(k));
            assert(body.take(k + 1).last() == c);
        }
        let code = c as u32;
        if code < 48 || code > 57 {
            proof {
                assert(!is_digit(body[k]));
                assert(!all_digits(body));
            }
            return None;
        }
        let d: u64 = (code - 48) as u64;
        let next = match acc.checked_mul(10) {
            Some(x) => x.checked_add(d),
            None => None,
        };
        match next {
            Some(v) => {
                acc = v;
            },
            None => {
                proof {
                    assert(digits_value(body.take(k + 1)) == acc * 10 + d);
                    if all_digits(body) {
                        lemma_digits_grow(body, k + 1);
                    }
                }
                return None;
            },
        }
        proof {
            assert forall|j: int| 0 <= j < k + 1 implies is_digit(#[trigger] body.take(k + 1)[j]) by {
                if j < k {
                    assert(body.take(k + 1)[j] == body.take(k)[j]);
                }
            }
        }
        i = i + 1;
    }
    assert(body.take(i - start) =~= body);
    Some(acc)
}

/// Reads `SOURCE_DATE_EPOCH`: zero when unset, else a non-negative integer.
pub fn parse_epoch(value: Option<&str>) -> (r: Result<u64, String>)
    ensures
        match value {
            None => r == Ok::<u64, String>(0),
            Some(v) => match u64_text(v@) {
                Some(n) => r == Ok::<u64, String>(n),
                None => r is Err,
            },
        },
{
    match value {
        None => Ok(0),
        Some(v) => match parse_u64(v) {
            Some(n) => Ok(n),
            None => Err("SOURCE_DATE_EPOCH must be a non-negative integer".to_owned()),
        },
    }
}

/// An output path as given and as resolved against its directory.
pub struct OutputPath {
    /// The path as given.
    pub shown: String,
    /// The path with its parent directory made canonical.
    pub normalized: String,
}

pub open spec fn same_file(a: Option<&OutputPath>, b: Option<&OutputPath>) -> bool {
    a matches Some(x) && b matches Some(y) && x.normalized@ == y.normalized@
}

/// Checks that the digest and metadata files differ from each other and from the output.
pub fn check_sidecars(output: Option<&OutputPath>, digest_file: Option<&OutputPath>, metadata_file: Option<&OutputPath>) -> (r: Result<(), String>)
    ensures
        r is Ok <==> !same_file(digest_file, metadata_file) && !same_file(output, digest_file) && !same_file(output, metadata_file),
        same_file(digest_file, metadata_file) ==> (r matches Err(e) && e@ == "--digest-file and --metadata-file must be different files"@),
{
    if let (Some(d), Some(m)) = (digest_file, metadata_file) {
        if str_eq(d.normalized.as_str(), m.normalized.as_str()) {
            return Err("--digest-file and --metadata-file must be different files".to_owned());
        }
    }
    let out = match output {
        Some(o) => o,
        None => {
            return Ok(());
        },
    };
    if let Some(d) = digest_file {
        if str_eq(d.normalized.as_str(), out.normalized.as_str()) {
            return Err(sidecar_message(out, d));
        }
    }
    if let Some(m) = metadata_file {
        if str_eq(m.normalized.as_str(), out.normalized.as_str()) {
            return Err(sidecar_message(out, m));
        }
    }
    Ok(())
}

/// The message for a sidecar file that is the output itself.
pub open spec fn sidecar_message_spec(output: Seq<char>, sidecar: Seq<char>) -> Seq<char> {
    "output "@ + output + " and sidecar "@ + sidecar + " must be different files"@
}

fn sidecar_message(output: &OutputPath, sidecar: &OutputPath) -> (r: String)
    ensures
        r@ == sidecar_message_spec(output.shown@, sidecar.shown@),
{
    let a = concat("output ", output.shown.as_str());
    let b = concat(a.as_str(), " and sidecar ");
    let c = concat(b.as_str(), sidecar.shown.as_str());
    concat(c.as_str(), " must be different files")
}

impl BuildOptions {
    /// Puts the tags, labels and annotations of Docker metadata before the ones given.
    pub fn apply_metadata(&mut self, metadata: DockerMetadata) -> (r: Result<(), String>)
        ensures
            r is Ok <==> metadata_assignments(metadata.labels) is Ok && metadata_assignments(metadata.annotations) is Ok,
            metadata_assignments(metadata.labels) matches Err(m) ==> (r matches Err(e) && e@ == m),
            r is Ok ==> {
                &&& final(self).tags@ == metadata.tags@ + old(self).tags@
                &&& metadata_assignments(metadata.labels) matches Ok(l) && kv_views(final(self).labels@) == l + kv_views(old(self).labels@)
                &&& metadata_assignments(metadata.annotations) matches Ok(a) && kv_views(final(self).annotations@) == a + kv_views(old(self).annotations@)
                &&& final(self).copies == old(self).copies
                &&& final(self).platforms == old(self).platforms
                &&& final(self).squash == old(self).squash
                &&& final(self).flatten == old(self).flatten
            },
    {
        let DockerMetadata { tags, labels, annotations } = metadata;
        let mut new_tags = tags;
        let mut old_tags: Vec<String> = Vec::new();
        std::mem::swap(&mut old_tags, &mut self.tags);
        new_tags.append(&mut old_tags);
        self.tags = new_tags;
        let mut new_labels = match labels.assignments() {
            Ok(v) => v,
            Err(e) => {
                return Err(e);
            },
        };
        let mut ol: Vec<KeyValue> = Vec::new();
        std::mem::swap(&mut ol, &mut self.labels);
        let ghost l0 = new_labels@;
        let ghost l1 = ol@;
        new_labels.append(&mut ol);
        assert(kv_views(new_labels@) =~= kv_views(l0) + kv_views(l1));
        self.labels = new_labels;
        let mut new_annotations = match annotations.assignments() {
            Ok(v) => v,
            Err(e) => {
                return Err(e);
            },
        };
        let mut oa: Vec<KeyValue> = Vec::new();
        std::mem::swap(&mut oa, &mut self.annotations);
        let ghost a0 = new_annotations@;
        let ghost a1 = oa@;
        new_annotations.append(&mut oa);
        assert(kv_views(new_annotations@) =~= kv_views(a0) + kv_views(a1));
        self.annotations = new_annotations;
        Ok(())
    }
}

} // verus!
