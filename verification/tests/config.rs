use containerless::config::{
    format_for_path, mode_text, validate, Base, Config, ConfigError, FileMapping, Format, Image, Layer, ModeValue,
    PlatformValue,
};
use containerless::platform::Platform;
use containerless::strmap::StrMap;

fn image() -> Image {
    Image {
        base: Base::External("scratch".to_owned()),
        platforms: Vec::new(),
        layers: Vec::new(),
        files: Vec::new(),
        entrypoint: None,
        command: None,
        user: None,
        workdir: None,
        stop_signal: None,
        expose: None,
        volumes: None,
        env: StrMap::new(),
        labels: StrMap::new(),
        annotations: StrMap::new(),
        tags: Vec::new(),
        squash: false,
        flatten: false,
    }
}

fn file(source: PlatformValue, to: &str) -> FileMapping {
    FileMapping {
        source,
        to: to.to_owned(),
        includes: Vec::new(),
        exclude: Vec::new(),
        mode: None,
        owner: None,
        follow_symlinks: false,
        preserve_paths: false,
    }
}

fn platforms(values: &[(&str, &str)]) -> PlatformValue {
    let mut map = StrMap::new();
    for (platform, value) in values {
        map.insert(platform.to_string(), value.to_string());
    }
    PlatformValue::Platforms(map)
}

fn config(images: Vec<(&str, Image)>) -> Config {
    let mut map = StrMap::new();
    for (name, image) in images {
        map.insert(name.to_owned(), image);
    }
    Config { layers: StrMap::new(), images: map }
}

fn host() -> String {
    Platform::linux_for_arch("x86_64", u16::from_ne_bytes([1, 0]) == 1).to_text()
}

fn message(error: ConfigError) -> String {
    match error {
        ConfigError::Invalid(message) => message,
        other => panic!("unexpected error {other:?}"),
    }
}

#[test]
fn file_modes_are_quoted_octal_strings() {
    let mut app = image();
    let mut mapping = file(PlatformValue::Scalar("dist/app".to_owned()), "/app");
    mapping.mode = Some("0755".to_owned());
    app.files = vec![mapping];
    let validated = validate(config(vec![("app", app)]), &host()).unwrap();
    assert_eq!(validated.images.get("app").unwrap().files.len(), 1);

    let error = mode_text(ModeValue::Number(755)).unwrap_err();
    let ConfigError::Parse(text) = error else {
        panic!("a bare number is refused while the file is read");
    };
    assert!(text.contains("quoted octal string"));
    assert_eq!(text, "file mode 755 must be a quoted octal string such as \"0755\"");
}

#[test]
fn quoted_modes_need_four_octal_digits() {
    let mut app = image();
    let mut mapping = file(PlatformValue::Scalar("dist/app".to_owned()), "/app");
    mapping.mode = Some("755".to_owned());
    app.files = vec![mapping];
    let error = validate(config(vec![("app", app)]), &host()).unwrap_err();
    assert!(message(error).contains("quoted octal"));
}

#[test]
fn negative_bare_modes_are_refused_with_their_sign() {
    let ConfigError::Parse(text) = mode_text(ModeValue::Number(-8)).unwrap_err() else {
        panic!("a bare number is refused while the file is read");
    };
    assert!(text.starts_with("file mode -8 "));
    assert_eq!(mode_text(ModeValue::Text("0644".to_owned())).unwrap(), "0644");
}

#[test]
fn explicit_platforms_require_matching_file_sources() {
    let mut app = image();
    app.platforms = vec!["linux/amd64".to_owned(), "linux/arm64".to_owned()];
    app.files = vec![file(platforms(&[("linux/amd64", "dist/amd64/app")]), "/app")];
    let error = validate(config(vec![("app", app)]), &host()).unwrap_err();
    assert!(message(error).contains("linux/arm64"));
}

#[test]
fn infers_platforms_from_file_sources() {
    let mut app = image();
    app.files = vec![file(
        platforms(&[("linux/arm64", "dist/arm64/app"), ("linux/amd64", "dist/amd64/app")]),
        "/app",
    )];
    let validated = validate(config(vec![("app", app)]), &host()).unwrap();
    assert_eq!(
        validated.platforms_for_image("app", &host()).unwrap(),
        ["linux/amd64", "linux/arm64"]
    );
}

#[test]
fn validates_child_platforms_against_local_base_files() {
    let mut base = image();
    base.platforms = vec!["linux/amd64".to_owned()];
    base.files = vec![file(PlatformValue::Scalar("base".to_owned()), "/base")];
    let mut app = image();
    app.base = Base::Local { image: "base".to_owned() };
    app.platforms = vec!["linux/arm64".to_owned()];
    let error = validate(config(vec![("base", base), ("app", app)]), &host()).unwrap_err();
    assert!(message(error).contains("linux/arm64"));
}

#[test]
fn defaults_to_linux_on_the_host_architecture() {
    let validated = validate(config(vec![("app", image())]), &host()).unwrap();
    let platforms = validated.platforms_for_image("app", &host()).unwrap();
    assert_eq!(platforms.len(), 1);
    assert!(platforms[0].starts_with("linux/"));
}

#[test]
fn child_images_inherit_platforms_from_local_bases() {
    let mut base = image();
    base.platforms = vec!["linux/arm64".to_owned()];
    let mut app = image();
    app.base = Base::Local { image: "base".to_owned() };
    let validated = validate(config(vec![("base", base), ("app", app)]), &host()).unwrap();
    assert_eq!(validated.platforms_for_image("app", &host()).unwrap(), ["linux/arm64"]);
    assert_eq!(validated.platforms_for_image("missing", &host()), None);
}

#[test]
fn rejects_invalid_configurations() {
    assert!(matches!(validate(config(vec![]), &host()), Err(ConfigError::Invalid(_))));

    let mut both = image();
    both.squash = true;
    both.flatten = true;
    assert!(validate(config(vec![("app", both)]), &host()).is_err());

    let mut unknown_layer = image();
    unknown_layer.layers = vec!["missing".to_owned()];
    assert!(validate(config(vec![("app", unknown_layer)]), &host()).is_err());

    let mut unknown_base = image();
    unknown_base.base = Base::Local { image: "missing".to_owned() };
    assert!(validate(config(vec![("app", unknown_base)]), &host()).is_err());

    let mut a = image();
    a.base = Base::Local { image: "b".to_owned() };
    let mut b = image();
    b.base = Base::Local { image: "a".to_owned() };
    let error = validate(config(vec![("a", a), ("b", b)]), &host()).unwrap_err();
    assert!(message(error).contains("cycle"));

    let mut relative = image();
    relative.files = vec![file(PlatformValue::Scalar("dist/app".to_owned()), "app")];
    assert!(validate(config(vec![("app", relative)]), &host()).is_err());

    let mut empty_map = image();
    empty_map.files = vec![file(platforms(&[]), "/app")];
    assert!(validate(config(vec![("app", empty_map)]), &host()).is_err());

    let mut bad_key = image();
    bad_key.files = vec![file(platforms(&[("amd64", "dist/app")]), "/app")];
    assert!(validate(config(vec![("app", bad_key)]), &host()).is_err());

    let mut bad_platform = image();
    bad_platform.platforms = vec!["linux".to_owned()];
    assert!(validate(config(vec![("app", bad_platform)]), &host()).is_err());

    let mut duplicate = image();
    duplicate.platforms = vec!["linux/amd64".to_owned(), "linux/amd64".to_owned()];
    assert!(validate(config(vec![("app", duplicate)]), &host()).is_err());
}

#[test]
fn accepts_layers_with_default_sources() {
    let mut app = image();
    app.platforms = vec!["linux/amd64".to_owned(), "linux/arm64".to_owned()];
    app.layers = vec!["shared".to_owned()];
    let mut c = config(vec![("app", app)]);
    c.layers.insert(
        "shared".to_owned(),
        Layer { files: vec![file(platforms(&[("default", "assets"), ("linux/arm64", "arm-assets")]), "/srv")] },
    );
    assert!(validate(c, &host()).is_ok());
}

#[test]
fn chooses_the_format_by_extension() {
    assert_eq!(format_for_path("containerless.toml").unwrap(), Format::Toml);
    assert_eq!(format_for_path("dir/containerless.json").unwrap(), Format::Json);
    assert_eq!(format_for_path("containerless.yml").unwrap(), Format::Yaml);
    assert_eq!(format_for_path("containerless.yaml").unwrap(), Format::Yaml);
    assert!(matches!(format_for_path("containerless"), Err(ConfigError::UnsupportedFormat(p)) if p == "containerless"));
    assert!(matches!(format_for_path(".toml"), Err(ConfigError::UnsupportedFormat(_))));
}

#[test]
fn platform_values_fall_back_to_default() {
    let value = platforms(&[("default", "any"), ("linux/arm64", "arm")]);
    assert_eq!(value.for_platform("linux/arm64").map(String::as_str), Some("arm"));
    assert_eq!(value.for_platform("linux/amd64").map(String::as_str), Some("any"));
    let value = platforms(&[("linux/arm64", "arm")]);
    assert_eq!(value.for_platform("linux/amd64"), None);
    let value = PlatformValue::Scalar("all".to_owned());
    assert_eq!(value.for_platform("linux/amd64").map(String::as_str), Some("all"));
}
