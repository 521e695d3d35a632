//! The images that a build produces, described as plain values.
use vstd::prelude::*;

use crate::digest::{digest_of, digest_spec};
use crate::json::JsonValue;
use crate::platform::Platform;
use crate::strmap::StrMap;

verus! {

/// A compressed layer and descriptor inherited from a base image.
#[derive(Debug, Clone)]
pub struct BaseLayer {
    media_type: String,
    digest: String,
    size: u64,
    data: Vec<u8>,
    annotations: StrMap<String>,
}

impl BaseLayer {
    pub closed spec fn spec_media_type(&self) -> Seq<char> {
        self.media_type@
    }

    pub closed spec fn spec_digest(&self) -> Seq<char> {
        self.digest@
    }

    pub closed spec fn spec_size(&self) -> u64 {
        self.size
    }

    pub closed spec fn spec_bytes(&self) -> Seq<u8> {
        self.data@
    }

    pub closed spec fn spec_annotations(&self) -> StrMap<String> {
        self.annotations
    }

    /// Creates a base layer descriptor from its exact compressed blob bytes.
    pub fn new(media_type: &str, data: Vec<u8>) -> (r: Self)
        ensures
            r.spec_media_type() == media_type@,
            r.spec_bytes() == data@,
            r.spec_digest() == digest_spec(data@),
            r.spec_size() == data@.len(),
            r.spec_annotations().wf(),
            r.spec_annotations().view() == Map::<Seq<char>, String>::empty(),
    {
        let digest = digest_of(data.as_slice());
        let size = data.len() as u64;
        BaseLayer { media_type: media_type.to_owned(), digest, size, data, annotations: StrMap::new() }
    }

    /// Attaches descriptor annotations to the layer.
    pub fn with_annotations(self, annotations: StrMap<String>) -> (r: Self)
        ensures
            r.spec_media_type() == self.spec_media_type(),
            r.spec_bytes() == self.spec_bytes(),
            r.spec_digest() == self.spec_digest(),
            r.spec_size() == self.spec_size(),
            r.spec_annotations() == annotations,
    {
        BaseLayer { annotations, ..self }
    }

    /// Returns the OCI layer media type.
    pub fn media_type(&self) -> (r: &str)
        ensures
            r@ == self.spec_media_type(),
    {
        self.media_type.as_str()
    }

    /// Returns the digest of the compressed blob.
    pub fn digest(&self) -> (r: &str)
        ensures
            r@ == self.spec_digest(),
    {
        self.digest.as_str()
    }

    /// Returns the compressed blob size.
    pub fn size(&self) -> (r: u64)
        ensures
            r == self.spec_size(),
    {
        self.size
    }

    /// Returns the exact compressed blob bytes.
    pub fn bytes(&self) -> (r: &[u8])
        ensures
            r@ == self.spec_bytes(),
    {
        self.data.as_slice()
    }

    /// Returns descriptor annotations attached to the layer.
    pub fn annotations(&self) -> (r: &StrMap<String>)
        ensures
            *r == self.spec_annotations(),
    {
        &self.annotations
    }
}


/// A local source copied into an image layer.
#[derive(Debug, Clone)]
pub struct FileMapping {
    /// Local source path.
    pub source: String,
    /// Absolute destination path in the image.
    pub destination: String,
    /// Globs selecting entries of a directory source, relative to it.
    pub includes: Vec<String>,
    /// Exclude globs evaluated after inclusion.
    pub exclude: Vec<String>,
    /// Optional mode applied to every copied entry.
    pub mode: Option<u32>,
    /// Numeric user ID applied to every copied entry.
    pub uid: u64,
    /// Numeric group ID applied to every copied entry.
    pub gid: u64,
    /// Whether symlink targets should be copied instead of symlinks.
    pub follow_symlinks: bool,
    /// Whether the source basename is retained below the destination.
    pub preserve_paths: bool,
}

impl FileMapping {
    /// Creates a root-owned mapping with no filters or metadata overrides.
    pub fn new(source: &str, destination: &str) -> (r: Self)
        ensures
            r.source@ == source@,
            r.destination@ == destination@,
            r.includes@.len() == 0,
            r.exclude@.len() == 0,
            r.mode is None,
            r.uid == 0,
            r.gid == 0,
            !r.follow_symlinks,
            !r.preserve_paths,
    {
        FileMapping {
            source: source.to_owned(),
            destination: destination.to_owned(),
            includes: Vec::new(),
            exclude: Vec::new(),
            mode: None,
            uid: 0,
            gid: 0,
            follow_symlinks: false,
            preserve_paths: false,
        }
    }
}

/// A filesystem layer assembled from ordered local file mappings.
#[derive(Debug, Clone)]
pub struct Layer {
    /// Mappings applied in order. Later mappings replace earlier paths.
    pub files: Vec<FileMapping>,
}

/// An image used as the base for one target platform.
#[derive(Debug, Clone)]
pub struct BaseImage {
    /// Media type used for the child manifest.
    pub manifest_media_type: String,
    /// Media type used for the image configuration.
    pub config_media_type: String,
    /// Original image configuration, including unknown extension fields.
    pub config: JsonValue,
    /// Existing compressed filesystem layers.
    pub layers: Vec<BaseLayer>,
    /// Annotations inherited from the selected base manifest.
    pub annotations: StrMap<String>,
}

/// Runtime overrides applied to an OCI image configuration.
#[derive(Debug, Clone)]
pub struct RuntimeConfig {
    /// Entrypoint executable and fixed arguments.
    pub entrypoint: Option<Vec<String>>,
    /// Default command or entrypoint arguments.
    pub command: Option<Vec<String>>,
    /// Runtime user and optional group.
    pub user: Option<String>,
    /// Runtime working directory.
    pub workdir: Option<String>,
    /// Runtime stop signal.
    pub stop_signal: Option<String>,
    /// Exposed ports. `None` inherits from the base and an empty list clears them.
    pub expose: Option<Vec<String>>,
    /// Declared volumes. `None` inherits from the base and an empty list clears them.
    pub volumes: Option<Vec<String>>,
    /// Environment variables merged by name with inherited values.
    pub env: StrMap<String>,
    /// Image labels merged by name with inherited values.
    pub labels: StrMap<String>,
}

impl RuntimeConfig {
    /// No overrides.
    pub fn new() -> (r: Self)
        ensures
            r.entrypoint is None,
            r.command is None,
            r.user is None,
            r.workdir is None,
            r.stop_signal is None,
            r.expose is None,
            r.volumes is None,
            r.env.wf() && r.env.items().len() == 0,
            r.labels.wf() && r.labels.items().len() == 0,
    {
        RuntimeConfig {
            entrypoint: None,
            command: None,
            user: None,
            workdir: None,
            stop_signal: None,
            expose: None,
            volumes: None,
            env: StrMap::new(),
            labels: StrMap::new(),
        }
    }
}

impl Default for RuntimeConfig {
    fn default() -> (r: Self)
        ensures
            r.entrypoint is None,
            r.command is None,
            r.user is None,
            r.workdir is None,
            r.stop_signal is None,
            r.expose is None,
            r.volumes is None,
            r.env.wf() && r.env.items().len() == 0,
            r.labels.wf() && r.labels.items().len() == 0,
    {
        RuntimeConfig::new()
    }
}

/// Image contents and runtime settings for one target platform.
#[derive(Debug, Clone)]
pub struct PlatformImage {
    /// OCI operating system and architecture.
    pub platform: Platform,
    /// Base image, or `None` for scratch.
    pub base: Option<BaseImage>,
    /// Filesystem layers in base-to-child order.
    pub layers: Vec<Layer>,
    /// Runtime configuration embedded in the image.
    pub runtime_config: RuntimeConfig,
    /// OCI manifest annotations.
    pub annotations: StrMap<String>,
    /// Emit the complete resulting filesystem as one layer.
    pub flatten: bool,
}

impl PlatformImage {
    /// Creates an empty scratch image for a platform.
    pub fn scratch(platform: Platform) -> (r: Self)
        ensures
            r.platform == platform,
            r.base is None,
            r.layers@.len() == 0,
            r.runtime_config.entrypoint is None,
            r.runtime_config.command is None,
            r.runtime_config.user is None,
            r.runtime_config.workdir is None,
            r.runtime_config.stop_signal is None,
            r.runtime_config.expose is None,
            r.runtime_config.volumes is None,
            r.runtime_config.env.wf() && r.runtime_config.env.items().len() == 0,
            r.runtime_config.labels.wf() && r.runtime_config.labels.items().len() == 0,
            r.annotations.wf() && r.annotations.items().len() == 0,
            !r.flatten,
    {
        PlatformImage {
            platform,
            base: None,
            layers: Vec::new(),
            runtime_config: RuntimeConfig::new(),
            annotations: StrMap::new(),
            flatten: false,
        }
    }
}

/// A named image for one or more target platforms.
#[derive(Debug, Clone)]
pub struct Image {
    /// Name used to select the image in an OCI layout.
    pub name: String,
    /// References attached to the image in the OCI layout.
    pub references: Vec<String>,
    /// Platform-specific image definitions.
    pub platforms: Vec<PlatformImage>,
}

impl Image {
    /// Creates an image without attached references.
    pub fn new(name: &str, platforms: Vec<PlatformImage>) -> (r: Self)
        ensures
            r.name@ == name@,
            r.references@.len() == 0,
            r.platforms == platforms,
    {
        Image { name: name.to_owned(), references: Vec::new(), platforms }
    }
}

/// A collection of images built together as one OCI output.
#[derive(Debug, Clone)]
pub struct ImageSet {
    pub(crate) images: Vec<Image>,
    pub(crate) source_date_epoch: u64,
}

impl ImageSet {
    pub closed spec fn spec_images(&self) -> Seq<Image> {
        self.images@
    }

    pub closed spec fn spec_source_date_epoch(&self) -> u64 {
        self.source_date_epoch
    }

    /// Creates an image set with deterministic timestamp zero.
    pub fn new(images: Vec<Image>) -> (r: Self)
        ensures
            r.spec_images() == images@,
            r.spec_source_date_epoch() == 0,
    {
        ImageSet { images, source_date_epoch: 0 }
    }

    /// Sets the Unix timestamp applied to generated archive entries.
    pub fn with_source_date_epoch(self, source_date_epoch: u64) -> (r: Self)
        ensures
            r.spec_images() == self.spec_images(),
            r.spec_source_date_epoch() == source_date_epoch,
    {
        ImageSet { images: self.images, source_date_epoch }
    }

    /// Returns the images in this set.
    pub fn images(&self) -> (r: &[Image])
        ensures
            r@ == self.spec_images(),
    {
        self.images.as_slice()
    }

    /// Returns the number of images in this set.
    pub fn len(&self) -> (r: usize)
        ensures
            r == self.spec_images().len(),
    {
        self.images.len()
    }

    /// Returns whether this set contains no images.
    pub fn is_empty(&self) -> (r: bool)
        ensures
            r == (self.spec_images().len() == 0),
    {
        self.images.len() == 0
    }

    /// Returns the Unix timestamp applied to generated archive entries.
    pub fn source_date_epoch(&self) -> (r: u64)
        ensures
            r == self.spec_source_date_epoch(),
    {
        self.source_date_epoch
    }
}

/// OCI output representation.
#[derive(Debug, Clone)]
pub enum OciOutput {
    /// An unpacked OCI image layout.
    Layout(String),
    /// A tar archive containing an OCI image layout.
    Archive(String),
}

impl OciOutput {
    /// Returns the destination path.
    pub fn path(&self) -> (r: &str)
        ensures
            r@ == match self {
                OciOutput::Layout(p) => p@,
                OciOutput::Archive(p) => p@,
            },
    {
        match self {
            OciOutput::Layout(path) => path.as_str(),
            OciOutput::Archive(path) => path.as_str(),
        }
    }
}

/// Digests produced by a completed build.
#[derive(Debug, Clone)]
pub struct BuildResult {
    /// Digest of the top-level OCI index.
    pub index_digest: String,
    /// Digests of named image manifests or indexes.
    pub image_digests: StrMap<String>,
}

} // verus!
