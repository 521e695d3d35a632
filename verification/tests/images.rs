use std::io::Read;

use containerless::model::{
    BaseImage, BaseLayer, FileMapping, Image, ImageSet, Layer, OciOutput, PlatformImage, RuntimeConfig,
};
use containerless::output::OutputFiles;
use containerless::json::JsonValue;
use containerless::pipeline::Layout;
use containerless::platform::Platform;
use containerless::sources::{SourceItem, SourceKind, SourceListing};
use containerless::strmap::StrMap;
use flate2::read::GzDecoder;
use flate2::write::GzEncoder;
use flate2::Compression;
use serde_json::Value;
use sha2::{Digest, Sha256};
use tar::{Builder, EntryType, Header};

fn digest(bytes: &[u8]) -> String {
    format!("sha256:{}", hex::encode(Sha256::digest(bytes)))
}

fn image() -> Image {
    let mut mapping = FileMapping::new("/work/app", "/usr/bin/app");
    mapping.mode = Some(0o755);
    let mut runtime = RuntimeConfig::new();
    runtime.entrypoint = Some(vec!["/usr/bin/app".to_owned()]);
    runtime.env.insert("MODE".to_owned(), "production".to_owned());
    let mut platform = PlatformImage::scratch(Platform::parse("linux/amd64").unwrap());
    platform.layers = vec![Layer { files: vec![mapping] }];
    platform.runtime_config = runtime;
    let mut image = Image::new("app", vec![platform]);
    image.references = vec!["app".to_owned(), "example.com/app:v1".to_owned()];
    image
}

fn listing(kind: SourceKind) -> Vec<Vec<Vec<Vec<SourceListing>>>> {
    vec![vec![vec![vec![SourceListing {
        root: SourceItem {
            path: "/work/app".to_owned(),
            relative: String::new(),
            kind,
            permissions: 0o644,
        },
        walked: Vec::new(),
        walk_error: None,
    }]]]]
}

fn blob<'a>(layout: &'a Layout, digest: &str) -> &'a Vec<u8> {
    layout.blobs.get(digest).unwrap()
}

fn blob_json(layout: &Layout, digest: &str) -> Value {
    serde_json::from_slice(blob(layout, digest)).unwrap()
}

fn file<'a>(files: &'a [(String, Vec<u8>)], path: &str) -> &'a Vec<u8> {
    &files.iter().find(|(name, _)| name == path).unwrap().1
}

fn read_blob<'a>(files: &'a [(String, Vec<u8>)], digest: &str) -> &'a Vec<u8> {
    file(files, &format!("blobs/sha256/{}", digest.strip_prefix("sha256:").unwrap()))
}

fn read_blob_json(files: &[(String, Vec<u8>)], digest: &str) -> Value {
    serde_json::from_slice(read_blob(files, digest)).unwrap()
}

#[test]
fn builds_a_valid_oci_layout() {
    let output = OciOutput::Layout("layout".to_owned());
    let (result, files) = image()
        .build(listing(SourceKind::File(b"hello image\n".to_vec())).remove(0), &output, false)
        .unwrap();
    let OutputFiles::Directory(files) = files else {
        panic!("a layout output gives directory files");
    };
    assert_eq!(digest(file(&files, "index.json")), result.index_digest);
    assert_eq!(
        String::from_utf8(file(&files, "oci-layout").clone()).unwrap(),
        "{\"imageLayoutVersion\":\"1.0.0\"}\n"
    );

    let index: Value = serde_json::from_slice(file(&files, "index.json")).unwrap();
    assert_eq!(index["manifests"].as_array().unwrap().len(), 2);
    assert_eq!(
        index["manifests"][1]["annotations"]["org.opencontainers.image.ref.name"],
        "example.com/app:v1"
    );
    let descriptor = &index["manifests"][0];
    assert_eq!(descriptor["annotations"]["org.opencontainers.image.ref.name"], "app");
    let manifest = read_blob_json(&files, descriptor["digest"].as_str().unwrap());
    let config = read_blob_json(&files, manifest["config"]["digest"].as_str().unwrap());
    assert_eq!(config["architecture"], "amd64");
    assert_eq!(config["os"], "linux");
    assert_eq!(config["config"]["Entrypoint"][0], "/usr/bin/app");
    assert_eq!(config["config"]["Env"][0], "MODE=production");

    let layer = &manifest["layers"][0];
    let layer_bytes = read_blob(&files, layer["digest"].as_str().unwrap());
    assert_eq!(digest(layer_bytes), layer["digest"]);
    assert_eq!(layer_bytes.len() as u64, layer["size"]);
    let mut archive = tar::Archive::new(GzDecoder::new(layer_bytes.as_slice()));
    let mut entries = archive.entries().unwrap();
    let mut app = entries
        .find(|entry| entry.as_ref().unwrap().path().unwrap().to_str() == Some("usr/bin/app"))
        .unwrap()
        .unwrap();
    assert_eq!(app.header().mode().unwrap(), 0o755);
    let mut contents = String::new();
    app.read_to_string(&mut contents).unwrap();
    assert_eq!(contents, "hello image\n");
}

#[test]
fn builds_deterministic_oci_archives() {
    let output = OciOutput::Archive("first.tar".to_owned());
    let (first_result, first) = image()
        .build(listing(SourceKind::File(b"deterministic\n".to_vec())).remove(0), &output, false)
        .unwrap();
    let (second_result, second) = image()
        .build(listing(SourceKind::File(b"deterministic\n".to_vec())).remove(0), &output, false)
        .unwrap();
    let (OutputFiles::Archive(first), OutputFiles::Archive(second)) = (first, second) else {
        panic!("an archive output gives archive bytes");
    };
    assert_eq!(first, second);
    assert_eq!(first_result.index_digest, second_result.index_digest);
}

#[test]
fn building_into_an_existing_destination_fails() {
    let output = OciOutput::Layout("out".to_owned());
    assert!(image().build(listing(SourceKind::File(b"x".to_vec())).remove(0), &output, true).is_err());
    let (result, files) = image().build(listing(SourceKind::File(b"x".to_vec())).remove(0), &output, false).unwrap();
    let OutputFiles::Directory(files) = files else {
        panic!("a layout output gives directory files");
    };
    let index = files.iter().find(|(path, _)| path == "index.json").unwrap();
    assert_eq!(digest(&index.1), result.index_digest);
}

#[test]
fn builds_a_directly_mapped_dangling_symlink() {
    let layout = ImageSet::new(vec![image()])
        .assemble(listing(SourceKind::Symlink("/runtime/app".to_owned())))
        .unwrap();
    let index: Value = serde_json::from_slice(&layout.index).unwrap();
    let manifest = blob_json(&layout, index["manifests"][0]["digest"].as_str().unwrap());
    let layer_bytes = blob(&layout, manifest["layers"][0]["digest"].as_str().unwrap());
    let mut archive = tar::Archive::new(GzDecoder::new(layer_bytes.as_slice()));
    let entry = archive.entries().unwrap().next().unwrap().unwrap();
    assert_eq!(entry.path().unwrap().to_str(), Some("usr/bin/app"));
    assert_eq!(entry.link_name().unwrap().unwrap().to_str(), Some("/runtime/app"));
}

fn set_metadata(header: &mut Header) {
    header.set_mode(0o644);
    header.set_uid(0);
    header.set_gid(0);
    header.set_mtime(0);
}

fn append_file<W: std::io::Write>(archive: &mut Builder<W>, path: &str, data: &[u8]) {
    let mut header = Header::new_gnu();
    header.set_entry_type(EntryType::Regular);
    set_metadata(&mut header);
    header.set_size(data.len() as u64);
    header.set_cksum();
    archive.append_data(&mut header, path, data).unwrap();
}

fn gzip_layer(write: impl FnOnce(&mut Builder<GzEncoder<Vec<u8>>>)) -> BaseLayer {
    let mut archive = Builder::new(GzEncoder::new(Vec::new(), Compression::default()));
    write(&mut archive);
    archive.finish().unwrap();
    let data = archive.into_inner().unwrap().finish().unwrap();
    BaseLayer::new("application/vnd.oci.image.layer.v1.tar+gzip", data)
}

fn scratch_config() -> JsonValue {
    JsonValue::Object(vec![
        ("architecture".to_owned(), JsonValue::Str("amd64".to_owned())),
        ("os".to_owned(), JsonValue::Str("linux".to_owned())),
        (
            "rootfs".to_owned(),
            JsonValue::Object(vec![
                ("diff_ids".to_owned(), JsonValue::Array(Vec::new())),
                ("type".to_owned(), JsonValue::Str("layers".to_owned())),
            ]),
        ),
    ])
}

#[test]
fn preserves_hard_link_contents_when_target_is_removed() {
    let base_layers = vec![
        gzip_layer(|archive| {
            append_file(archive, "target", b"contents");
            let mut header = Header::new_gnu();
            header.set_entry_type(EntryType::Link);
            set_metadata(&mut header);
            header.set_size(0);
            header.set_cksum();
            archive.append_link(&mut header, "link", "target").unwrap();
        }),
        gzip_layer(|archive| append_file(archive, ".wh.target", b"")),
    ];
    let mut platform = PlatformImage::scratch(Platform::parse("linux/amd64").unwrap());
    platform.base = Some(BaseImage {
        manifest_media_type: "application/vnd.oci.image.manifest.v1+json".to_owned(),
        config_media_type: "application/vnd.oci.image.config.v1+json".to_owned(),
        config: scratch_config(),
        layers: base_layers,
        annotations: StrMap::new(),
    });
    platform.flatten = true;
    let mut store = StrMap::new();
    let descriptor = platform.build(Vec::new(), 0, &mut store).unwrap();
    let manifest: Value = serde_json::from_slice(store.get(&descriptor.digest).unwrap()).unwrap();
    let layers = manifest["layers"].as_array().unwrap();
    assert_eq!(layers.len(), 1);
    let compressed = store.get(layers[0]["digest"].as_str().unwrap()).unwrap();
    let mut archive = tar::Archive::new(GzDecoder::new(compressed.as_slice()));
    let mut link = archive
        .entries()
        .unwrap()
        .find(|entry| entry.as_ref().unwrap().path().unwrap().to_str() == Some("link"))
        .unwrap()
        .unwrap();
    assert!(link.header().entry_type().is_file());
    let mut contents = String::new();
    link.read_to_string(&mut contents).unwrap();
    assert_eq!(contents, "contents");
}

#[test]
fn reads_docker_gzip_layers() {
    let layer = gzip_layer(|archive| append_file(archive, "file", b"contents"));
    let layer = BaseLayer::new("application/vnd.docker.image.rootfs.diff.tar.gzip", layer.bytes().to_vec());
    let mut entries = StrMap::new();
    containerless::archive::apply_base_layer(&layer, &mut entries).unwrap();
    assert_eq!(entries.get("file").unwrap().data.as_deref(), Some(b"contents".as_slice()));
}

#[test]
fn reads_oci_zstd_layers() {
    let mut archive = Builder::new(Vec::new());
    append_file(&mut archive, "file", b"contents");
    archive.finish().unwrap();
    let tar = archive.into_inner().unwrap();
    let layer = BaseLayer::new(
        "application/vnd.oci.image.layer.v1.tar+zstd",
        zstd::encode_all(tar.as_slice(), 0).unwrap(),
    );
    let mut entries = StrMap::new();
    containerless::archive::apply_base_layer(&layer, &mut entries).unwrap();
    assert_eq!(entries.get("file").unwrap().data.as_deref(), Some(b"contents".as_slice()));
}

#[test]
fn checks_that_listings_fit_the_images() {
    let set = ImageSet::new(vec![image()]);
    assert!(set.ready_for(&listing(SourceKind::File(b"x".to_vec()))));
    assert!(!set.ready_for(&Vec::new()));
    assert!(!set.ready_for(&vec![vec![vec![Vec::new()]]]));
    let mut map = StrMap::new();
    map.insert("b".to_owned(), 1u8);
    map.insert("a".to_owned(), 2u8);
    assert!(map.is_wf());
}

#[test]
fn reads_layers_as_they_decode_and_stops_at_the_archive_end() {
    let layer = gzip_layer(|archive| append_file(archive, "file", b"contents"));
    let mut bytes = layer.bytes().to_vec();
    let n = bytes.len();
    for byte in &mut bytes[n - 8..] {
        *byte ^= 0xff;
    }
    let damaged = BaseLayer::new("application/vnd.oci.image.layer.v1.tar+gzip", bytes);
    let mut entries = StrMap::new();
    containerless::archive::apply_base_layer(&damaged, &mut entries).unwrap();
    assert_eq!(entries.get("file").unwrap().data.as_deref(), Some(b"contents".as_slice()));

    let mut truncated = layer.bytes().to_vec();
    truncated.truncate(20);
    let broken = BaseLayer::new("application/vnd.oci.image.layer.v1.tar+gzip", truncated);
    let mut untouched = StrMap::new();
    assert!(containerless::archive::apply_base_layer(&broken, &mut untouched).is_err());
    assert_eq!(untouched.len(), 0);
}

#[test]
fn refuses_unknown_layer_media_types() {
    let layer = BaseLayer::new("application/octet-stream", Vec::new());
    let mut entries = StrMap::new();
    let error = containerless::archive::apply_base_layer(&layer, &mut entries).unwrap_err();
    assert!(matches!(error, containerless::error::BuildError::Unsupported(_)));
}

#[test]
fn whiteouts_remove_entries_and_are_not_added() {
    let first = gzip_layer(|archive| {
        append_file(archive, "dir/keep", b"k");
        append_file(archive, "dir/gone", b"g");
        append_file(archive, "other/x", b"x");
    });
    let second = gzip_layer(|archive| {
        append_file(archive, "dir/.wh.gone", b"");
        append_file(archive, "other/.wh..wh..opq", b"");
    });
    let mut entries = StrMap::new();
    containerless::archive::apply_base_layer(&first, &mut entries).unwrap();
    containerless::archive::apply_base_layer(&second, &mut entries).unwrap();
    assert!(entries.get("dir/keep").is_some());
    assert!(entries.get("dir/gone").is_none());
    assert!(entries.get("dir/.wh.gone").is_none());
    assert!(entries.get("other/x").is_none());
    assert!(entries.get("other/.wh..wh..opq").is_none());
    assert_eq!(entries.len(), 1);
}
