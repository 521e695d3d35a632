use containerless::json::JsonValue;
use containerless::model::{BaseLayer, BuildResult, Image, ImageSet};
use containerless::platform::Platform;
use containerless::registry::{
    base_image, publications, publish_targets, resolve_layers, resolve_registry, LayerDescriptor, PublishError,
    PulledManifest, Registry,
};
use containerless::strmap::StrMap;

fn descriptor(data: &[u8]) -> LayerDescriptor {
    let layer = BaseLayer::new("application/vnd.oci.image.layer.v1.tar", data.to_vec());
    LayerDescriptor {
        media_type: "application/vnd.oci.image.layer.v1.tar".to_owned(),
        digest: layer.digest().to_owned(),
        size: data.len() as i64,
        annotations: StrMap::new(),
    }
}

#[test]
fn preserves_repeated_layer_descriptors() {
    let pulled = b"layer".to_vec();
    let descriptor = descriptor(&pulled);
    let again = LayerDescriptor {
        media_type: descriptor.media_type.clone(),
        digest: descriptor.digest.clone(),
        size: descriptor.size,
        annotations: StrMap::new(),
    };

    let layers = resolve_layers(vec![descriptor, again], vec![pulled]).unwrap();

    assert_eq!(layers.len(), 2);
    assert_eq!(layers[0].digest(), layers[1].digest());
}

#[test]
fn rejects_layers_that_do_not_match_their_descriptors() {
    let mut other_algorithm = descriptor(b"layer");
    other_algorithm.digest = other_algorithm.digest.replace("sha256:", "sha512:");
    assert!(resolve_layers(vec![other_algorithm], vec![b"layer".to_vec()]).is_err());

    assert!(resolve_layers(vec![descriptor(b"missing")], vec![b"layer".to_vec()]).is_err());

    let mut negative = descriptor(b"layer");
    negative.size = -1;
    assert!(resolve_layers(vec![negative], vec![b"layer".to_vec()]).is_err());

    let mut wrong_size = descriptor(b"layer");
    wrong_size.size = 4;
    let error = resolve_layers(vec![wrong_size], vec![b"layer".to_vec()]).unwrap_err();
    assert!(error.0.contains("does not match its descriptor"));

    let mut annotated = descriptor(b"layer");
    annotated.annotations.insert("a".to_owned(), "b".to_owned());
    let layers = resolve_layers(vec![annotated], vec![b"other".to_vec(), b"layer".to_vec()]).unwrap();
    assert_eq!(layers[0].bytes(), b"layer");
    assert_eq!(layers[0].annotations().get("a").map(String::as_str), Some("b"));
}

#[test]
fn resolves_registry_access() {
    let registry = Registry::new(vec!["docker.io".to_owned(), "localhost:5000".to_owned()]);
    let hub = registry.access("busybox").unwrap();
    assert_eq!(hub.registry, "docker.io");
    assert_eq!(hub.plain_http, ["index.docker.io", "localhost:5000"]);
    assert_eq!(hub.credential_server, "https://index.docker.io/v1/");

    let local = registry.access("localhost:5000/app:v1").unwrap();
    assert_eq!(local.registry, "localhost:5000");
    assert_eq!(local.plain_http, ["docker.io", "localhost:5000"]);
    assert_eq!(local.credential_server, "localhost:5000");

    let ghcr = registry.access("ghcr.io/example/app:latest").unwrap();
    assert_eq!(ghcr.credential_server, "ghcr.io");
    assert!(registry.access("").is_err());
    assert!(registry.access("Not A Reference").is_err());

    assert_eq!(resolve_registry("docker.io"), "index.docker.io");
    assert_eq!(resolve_registry("quay.io"), "quay.io");
}

fn config(os: &str, architecture: &str) -> JsonValue {
    JsonValue::Object(vec![
        ("architecture".to_owned(), JsonValue::Str(architecture.to_owned())),
        ("os".to_owned(), JsonValue::Str(os.to_owned())),
    ])
}

fn manifest(layers: Vec<LayerDescriptor>) -> PulledManifest {
    PulledManifest { media_type: None, layers, annotations: None }
}

#[test]
fn builds_base_images_from_what_was_pulled() {
    let amd64 = Platform::parse("linux/amd64").unwrap();
    let base = base_image(
        "alpine",
        &amd64,
        Some(manifest(vec![descriptor(b"layer")])),
        "application/vnd.oci.image.config.v1+json".to_owned(),
        Ok(config("linux", "amd64")),
        vec![b"layer".to_vec()],
    )
    .unwrap();
    assert_eq!(base.manifest_media_type, "application/vnd.oci.image.manifest.v1+json");
    assert_eq!(base.config_media_type, "application/vnd.oci.image.config.v1+json");
    assert_eq!(base.layers.len(), 1);
    assert_eq!(base.annotations.len(), 0);

    let missing = base_image("alpine", &amd64, None, String::new(), Ok(config("linux", "amd64")), Vec::new());
    assert!(missing.unwrap_err().0.contains("no image manifest"));

    let invalid = base_image("alpine", &amd64, Some(manifest(Vec::new())), String::new(), Err("bad".to_owned()), Vec::new());
    assert!(invalid.unwrap_err().0.contains("invalid config JSON"));

    let other = base_image("alpine", &amd64, Some(manifest(Vec::new())), String::new(), Ok(config("linux", "arm64")), Vec::new());
    assert!(other.unwrap_err().0.contains("does not match platform"));

    let not_object = base_image("alpine", &amd64, Some(manifest(Vec::new())), String::new(), Ok(JsonValue::Null), Vec::new());
    assert!(not_object.is_err());
}

#[test]
fn lists_references_to_publish() {
    let mut app = Image::new("app", Vec::new());
    app.references = vec!["ghcr.io/example/app:1".to_owned(), "ghcr.io/example/app:latest".to_owned()];
    let mut tool = Image::new("tool", Vec::new());
    tool.references = vec!["ghcr.io/example/tool:1".to_owned()];
    let set = ImageSet::new(vec![app, tool]);
    let list = publications(&set).unwrap();
    assert_eq!(
        list,
        [
            ("app".to_owned(), "ghcr.io/example/app:1".to_owned()),
            ("app".to_owned(), "ghcr.io/example/app:latest".to_owned()),
            ("tool".to_owned(), "ghcr.io/example/tool:1".to_owned()),
        ]
    );
    let mut digests = StrMap::new();
    digests.insert("app".to_owned(), "sha256:aa".to_owned());
    digests.insert("tool".to_owned(), "sha256:bb".to_owned());
    let result = BuildResult { index_digest: "sha256:cc".to_owned(), image_digests: digests };
    assert_eq!(
        publish_targets(&list, &result),
        [
            ("ghcr.io/example/app:1".to_owned(), "sha256:aa".to_owned()),
            ("ghcr.io/example/app:latest".to_owned(), "sha256:aa".to_owned()),
            ("ghcr.io/example/tool:1".to_owned(), "sha256:bb".to_owned()),
        ]
    );

    let empty = ImageSet::new(vec![Image::new("app", Vec::new())]);
    assert!(matches!(publications(&empty), Err(PublishError::Invalid(_))));
}
