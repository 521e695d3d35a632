use containerless::strmap::StrMap;
use containerless::uniko::cli::{trimmed, Artifact, BuildPreset};
use containerless::uniko::config::{
    default_base, discover, format_for_path, validate, Base, Config, ConfigError, ConfigFormat, FileMapping,
    FileOptions, Image, Layer, PlatformValue,
};

#[test]
fn parses_artifacts() {
    let plain = Artifact::parse("./server:/app/server").unwrap();
    assert_eq!(plain.path, "./server");
    assert_eq!(plain.dest, "/app/server");
    assert!(plain.platforms.is_none());

    let one = Artifact::parse("linux/amd64=./server-amd64:/app/server").unwrap();
    assert_eq!(one.platforms.unwrap(), ["linux/amd64"]);
    assert_eq!(one.path, "./server-amd64");

    let many = Artifact::parse(" linux/amd64 , ,linux/arm64=./server:/app/server").unwrap();
    assert_eq!(many.platforms.unwrap(), ["linux/amd64", "linux/arm64"]);

    let no_platform = Artifact::parse("key=value:/dest").unwrap();
    assert_eq!(no_platform.path, "key=value");
    assert!(no_platform.platforms.is_none());

    assert_eq!(Artifact::parse("server").unwrap_err(), "artifact must be in the form <path>:<dest>");
    assert_eq!(Artifact::parse(":/app").unwrap_err(), "artifact path cannot be empty");
    assert_eq!(Artifact::parse("./server:").unwrap_err(), "artifact destination cannot be empty");
    assert_eq!(
        Artifact::parse("linux/amd64=server").unwrap_err(),
        "artifact must be in the form <path>:<dest>"
    );
    assert_eq!("./a:/b".parse::<Artifact>().unwrap().dest, "/b");
}

#[test]
fn trims_white_space() {
    assert_eq!(trimmed("  linux/amd64\t\n"), "linux/amd64");
    assert_eq!(trimmed("\u{3000}x\u{a0}"), "x");
    assert_eq!(trimmed("   "), "");
    assert_eq!(trimmed("a b"), "a b");
}

#[test]
fn defaults_to_automatic_builds_and_scratch_bases() {
    assert_eq!(BuildPreset::default(), BuildPreset::Auto);
    assert!(matches!(default_base(), Base::External(name) if name == "scratch"));
}

#[test]
fn chooses_config_formats() {
    assert_eq!(format_for_path("uniko.toml").unwrap(), ConfigFormat::Toml);
    assert_eq!(format_for_path("uniko.json").unwrap(), ConfigFormat::Json);
    assert!(matches!(format_for_path("uniko.yaml"), Err(ConfigError::UnsupportedFormat(p)) if p == "uniko.yaml"));
    let error = format_for_path("uniko").unwrap_err();
    assert_eq!(error.message(), "unsupported config format for uniko; expected .toml or .json");
}

#[test]
fn discovers_the_default_config_file() {
    assert_eq!(discover("dir", true, false).unwrap().unwrap(), "dir/containerless.toml");
    assert_eq!(discover("dir", false, true).unwrap().unwrap(), "dir/containerless.json");
    assert!(discover("dir", false, false).unwrap().is_none());
    assert!(matches!(discover("dir", true, true), Err(ConfigError::Invalid(_))));
}

fn image() -> Image {
    Image {
        base: Base::External("scratch".to_owned()),
        layers: Vec::new(),
        files: Vec::new(),
        entrypoint: None,
        command: None,
        user: None,
        workdir: None,
        stop_signal: None,
        ports: None,
        volumes: None,
        env: StrMap::new(),
        labels: StrMap::new(),
        annotations: StrMap::new(),
        repositories: None,
        tags: Vec::new(),
        squash: false,
        flatten: false,
    }
}

fn config(images: Vec<(&str, Image)>) -> Config {
    let mut map = StrMap::new();
    for (name, image) in images {
        map.insert(name.to_owned(), image);
    }
    Config { containerless: 1, layers: StrMap::new(), images: map }
}

fn detailed(source: PlatformValue<String>, to: &str) -> FileMapping {
    FileMapping::Detailed(FileOptions {
        source,
        to: to.to_owned(),
        includes: Vec::new(),
        exclude: Vec::new(),
        mode: None,
        owner: None,
        follow_symlinks: false,
        parents: false,
    })
}

#[test]
fn validates_configurations() {
    let mut app = image();
    app.files = vec![
        FileMapping::Shorthand("dist/app:/app".to_owned()),
        detailed(PlatformValue::Scalar("assets".to_owned()), "/srv"),
    ];
    let mut child = image();
    child.base = Base::Local { image: "app".to_owned() };
    let mut c = config(vec![("app", app), ("child", child)]);
    c.layers.insert("shared".to_owned(), Layer { files: vec![FileMapping::Shorthand("a:/a".to_owned())] });
    assert!(validate(c).is_ok());

    let mut old = config(vec![("app", image())]);
    old.containerless = 2;
    assert!(matches!(validate(old), Err(ConfigError::Invalid(m)) if m.contains("unsupported containerless version 2")));

    assert!(validate(config(vec![])).is_err());

    let mut both = image();
    both.squash = true;
    both.flatten = true;
    assert!(validate(config(vec![("app", both)])).is_err());

    let mut unknown_layer = image();
    unknown_layer.layers = vec!["missing".to_owned()];
    assert!(validate(config(vec![("app", unknown_layer)])).is_err());

    let mut unknown_base = image();
    unknown_base.base = Base::Local { image: "missing".to_owned() };
    assert!(validate(config(vec![("app", unknown_base)])).is_err());

    for bad in ["dist/app", ":/app", "dist/app:", "dist/app:app"] {
        let mut app = image();
        app.files = vec![FileMapping::Shorthand(bad.to_owned())];
        assert!(validate(config(vec![("app", app)])).is_err(), "{bad}");
    }

    let mut empty_map = image();
    empty_map.files = vec![detailed(PlatformValue::Platforms(StrMap::new()), "/app")];
    assert!(validate(config(vec![("app", empty_map)])).is_err());

    let mut keys = StrMap::new();
    keys.insert("amd64".to_owned(), "dist".to_owned());
    let mut bad_key = image();
    bad_key.files = vec![detailed(PlatformValue::Platforms(keys), "/app")];
    assert!(validate(config(vec![("app", bad_key)])).is_err());

    let mut keys = StrMap::new();
    keys.insert("default".to_owned(), "dist".to_owned());
    keys.insert("linux/arm64".to_owned(), "arm".to_owned());
    let mut good_keys = image();
    good_keys.files = vec![detailed(PlatformValue::Platforms(keys), "/app")];
    assert!(validate(config(vec![("app", good_keys)])).is_ok());
}

#[test]
fn rejects_configured_base_cycles() {
    let mut a = image();
    a.base = Base::Local { image: "b".to_owned() };
    let mut b = image();
    b.base = Base::Local { image: "c".to_owned() };
    let mut c = image();
    c.base = Base::Local { image: "b".to_owned() };
    let error = validate(config(vec![("a", a), ("b", b), ("c", c)])).unwrap_err();
    assert!(error.message().contains("cycle"));

    let mut own = image();
    own.base = Base::Local { image: "own".to_owned() };
    assert!(validate(config(vec![("own", own)])).is_err());

    let mut a = image();
    a.base = Base::Local { image: "b".to_owned() };
    let mut b = image();
    b.base = Base::Local { image: "c".to_owned() };
    assert!(validate(config(vec![("a", a), ("b", b), ("c", image())])).is_ok());
}

#[test]
fn resolves_platform_values() {
    let mut values = StrMap::new();
    values.insert("default".to_owned(), 1u32);
    values.insert("linux/arm64".to_owned(), 2u32);
    let value = PlatformValue::Platforms(values);
    assert_eq!(value.resolve("linux/arm64"), Some(&2));
    assert_eq!(value.resolve("linux/amd64"), Some(&1));
    assert_eq!(PlatformValue::Scalar(3u32).resolve("linux/amd64"), Some(&3));
    let mut values = StrMap::new();
    values.insert("linux/arm64".to_owned(), 2u32);
    assert_eq!(PlatformValue::Platforms(values).resolve("linux/amd64"), None);
}
