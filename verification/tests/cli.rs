use containerless::cli::{
    check_sidecars, parse_epoch, parse_platform, parse_u64, BuildOptions, CopyInput, DockerMetadata, KeyValue,
    MetadataValues, OutputFormat, OutputPath,
};
use containerless::strmap::StrMap;

#[test]
fn parses_copy_values() {
    let copy = CopyInput::parse("dist/app:/app").unwrap();
    assert_eq!((copy.source.as_str(), copy.destination.as_str()), ("dist/app", "/app"));
    let copy = CopyInput::parse("a:b:/c").unwrap_err();
    assert_eq!(copy, "copy destination must be an absolute path");
    assert_eq!(
        CopyInput::parse("platform=linux/arm64,dist/app:/app").unwrap_err(),
        "platform-specific copies belong in the configuration file; use --platform to select output platforms"
    );
    assert_eq!(CopyInput::parse("dist/app").unwrap_err(), "copy mapping must be SOURCE:DESTINATION");
    assert_eq!(CopyInput::parse(":/app").unwrap_err(), "copy source cannot be empty");
    assert_eq!("x:/y".parse::<CopyInput>().unwrap().destination, "/y");
}

#[test]
fn parses_assignments() {
    let kv = KeyValue::parse("a=b=c").unwrap();
    assert_eq!((kv.key.as_str(), kv.value.as_str()), ("a", "b=c"));
    assert_eq!(KeyValue::parse("a=").unwrap().value, "");
    assert_eq!(KeyValue::parse("a").unwrap_err(), "assignment must be KEY=VALUE");
    assert_eq!(KeyValue::parse("=b").unwrap_err(), "assignment key cannot be empty");
}

#[test]
fn normalizes_platforms() {
    assert_eq!(parse_platform("linux/arm64/v8").unwrap(), "linux/arm64/v8");
    assert!(parse_platform("linux/amd64/variant/extra").is_err());
    assert!(parse_platform("linux//v8").is_err());
    assert!(parse_platform("linux").is_err());
}

#[test]
fn parses_unsigned_integers_like_from_str() {
    assert_eq!(parse_u64("0"), Some(0));
    assert_eq!(parse_u64("+5"), Some(5));
    assert_eq!(parse_u64("18446744073709551615"), Some(u64::MAX));
    assert_eq!(parse_u64("18446744073709551616"), None);
    assert_eq!(parse_u64(""), None);
    assert_eq!(parse_u64("+"), None);
    assert_eq!(parse_u64("-1"), None);
    assert_eq!(parse_u64("1 "), None);
    assert_eq!(parse_epoch(None).unwrap(), 0);
    assert_eq!(parse_epoch(Some("1700000000")).unwrap(), 1700000000);
    assert!(parse_epoch(Some("-1")).is_err());
}

fn path(shown: &str, normalized: &str) -> OutputPath {
    OutputPath { shown: shown.to_owned(), normalized: normalized.to_owned() }
}

#[test]
fn rejects_sidecars_that_overwrite_outputs() {
    let out = path("app.tar", "/w/app.tar");
    let digest = path("digest.txt", "/w/digest.txt");
    let meta = path("meta.json", "/w/meta.json");
    assert!(check_sidecars(Some(&out), Some(&digest), Some(&meta)).is_ok());
    assert!(check_sidecars(None, Some(&digest), None).is_ok());
    assert_eq!(
        check_sidecars(None, Some(&digest), Some(&path("./digest.txt", "/w/digest.txt"))).unwrap_err(),
        "--digest-file and --metadata-file must be different files"
    );
    assert!(check_sidecars(Some(&out), Some(&path("./app.tar", "/w/app.tar")), None).is_err());
    assert!(check_sidecars(Some(&out), None, Some(&path("app.tar", "/w/app.tar"))).is_err());
}

#[test]
fn puts_docker_metadata_before_given_values() {
    let mut options = BuildOptions::default();
    options.tags = vec!["given".to_owned()];
    options.labels = vec![KeyValue { key: "z".to_owned(), value: "1".to_owned() }];
    let mut labels = StrMap::new();
    labels.insert("b".to_owned(), "2".to_owned());
    labels.insert("a".to_owned(), "1".to_owned());
    options
        .apply_metadata(DockerMetadata {
            tags: vec!["meta".to_owned()],
            labels: MetadataValues::Table(labels),
            annotations: MetadataValues::List(vec!["k=v".to_owned()]),
        })
        .unwrap();
    assert_eq!(options.tags, ["meta", "given"]);
    let keys: Vec<&str> = options.labels.iter().map(|kv| kv.key.as_str()).collect();
    assert_eq!(keys, ["a", "b", "z"]);
    assert_eq!(options.annotations[0].value, "v");

    let mut options = BuildOptions::default();
    let error = options
        .apply_metadata(DockerMetadata {
            tags: Vec::new(),
            labels: MetadataValues::List(vec!["bad".to_owned()]),
            annotations: MetadataValues::Empty,
        })
        .unwrap_err();
    assert_eq!(error, "assignment must be KEY=VALUE");
    assert_eq!(MetadataValues::Empty.assignments().unwrap().len(), 0);
    assert_eq!(OutputFormat::default(), OutputFormat::Oci);
}
