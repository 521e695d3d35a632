use containerless::digest::digest_of;
use containerless::model::BuildResult;
use containerless::pipeline::Layout;
use containerless::platform::Platform;
use containerless::publish::{push_plan, PushStep};
use containerless::registry::{base_image_from_bytes, PulledManifest};
use containerless::strmap::StrMap;

fn store(blobs: &[&[u8]]) -> Layout {
    let mut map = StrMap::new();
    for blob in blobs {
        map.insert(digest_of(blob), blob.to_vec());
    }
    Layout { blobs: map, index: Vec::new(), result: BuildResult { index_digest: String::new(), image_digests: StrMap::new() } }
}

#[test]
fn parses_pulled_configuration_bytes() {
    let amd64 = Platform::new("linux", "amd64");
    let manifest = || PulledManifest { media_type: None, layers: Vec::new(), annotations: None };
    let config = br#"{"architecture":"amd64","os":"linux","config":{"Env":["A=1"]}}"#;
    let base = base_image_from_bytes("alpine", &amd64, Some(manifest()), "cfg".to_owned(), config, Vec::new()).unwrap();
    assert_eq!(containerless::json::to_json_text(&base.config), r#"{"architecture":"amd64","config":{"Env":["A=1"]},"os":"linux"}"#);

    let broken = base_image_from_bytes("alpine", &amd64, Some(manifest()), "cfg".to_owned(), b"{not json", Vec::new());
    assert!(broken.unwrap_err().0.contains("invalid config JSON"));
    let other = base_image_from_bytes("alpine", &amd64, Some(manifest()), "cfg".to_owned(), br#"{"architecture":"arm64","os":"linux"}"#, Vec::new());
    assert!(other.is_err());
}

#[test]
fn plans_blobs_before_manifests_and_tags_each_target() {
    let config: &[u8] = b"{}";
    let layer: &[u8] = b"layer";
    let manifest = format!(
        r#"{{"mediaType":"application/vnd.oci.image.manifest.v1+json","config":{{"digest":"{}"}},"layers":[{{"digest":"{}"}}]}}"#,
        digest_of(config),
        digest_of(layer)
    );
    let index = format!(
        r#"{{"mediaType":"application/vnd.oci.image.index.v1+json","manifests":[{{"digest":"{}"}}]}}"#,
        digest_of(manifest.as_bytes())
    );
    let layout = store(&[config, layer, manifest.as_bytes(), index.as_bytes()]);

    let targets = vec![
        ("example.com/app:v1".to_owned(), digest_of(index.as_bytes())),
        ("example.com/app:single".to_owned(), digest_of(manifest.as_bytes())),
    ];
    let steps = push_plan(&layout, &targets).unwrap();
    let kinds: Vec<String> = steps
        .iter()
        .map(|step| match step {
            PushStep::Target(r) => format!("target {r}"),
            PushStep::Blob(d, _) => format!("blob {d}"),
            PushStep::Manifest(d, _, _) => format!("manifest {d}"),
            PushStep::Tag(m, _) => format!("tag {m}"),
        })
        .collect();
    assert_eq!(
        kinds,
        vec![
            "target example.com/app:v1".to_owned(),
            format!("blob {}", digest_of(config)),
            format!("blob {}", digest_of(layer)),
            format!("manifest {}", digest_of(manifest.as_bytes())),
            "tag application/vnd.oci.image.index.v1+json".to_owned(),
            "target example.com/app:single".to_owned(),
            format!("blob {}", digest_of(config)),
            format!("blob {}", digest_of(layer)),
            "tag application/vnd.oci.image.manifest.v1+json".to_owned(),
        ]
    );

    let missing = store(&[manifest.as_bytes()]);
    assert!(push_plan(&missing, &vec![("a".to_owned(), digest_of(manifest.as_bytes()))]).is_err());
}
