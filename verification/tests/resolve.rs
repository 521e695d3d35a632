use containerless::cli::{BuildOptions, CopyInput, ImageSelection, KeyValue};
use containerless::config::{config_wf_exec, mode_is_valid, Base, Config, FileMapping, Image, Layer, PlatformValue};
use containerless::platform::Platform;
use containerless::resolve::{
    apply_assignments, assign_references, base_to_pull, chain_resolvable_exec, image_chain, image_platform_names, parse_owner,
    resolve_files, resolve_platform, resolve_source, selected_images,
};
use containerless::strmap::StrMap;

fn image() -> Image {
    Image {
        base: Base::External("scratch".to_owned()),
        platforms: Vec::new(),
        layers: Vec::new(),
        files: Vec::new(),
        entrypoint: None,
        command: None,
        user: None,
        workdir: None,
        stop_signal: None,
        expose: None,
        volumes: None,
        env: StrMap::new(),
        labels: StrMap::new(),
        annotations: StrMap::new(),
        tags: Vec::new(),
        squash: false,
        flatten: false,
    }
}

fn file(source: &str, to: &str) -> FileMapping {
    FileMapping {
        source: PlatformValue::Scalar(source.to_owned()),
        to: to.to_owned(),
        includes: Vec::new(),
        exclude: Vec::new(),
        mode: None,
        owner: None,
        follow_symlinks: false,
        preserve_paths: false,
    }
}

fn config(images: Vec<(&str, Image)>) -> Config {
    let mut map = StrMap::new();
    for (name, image) in images {
        map.insert(name.to_owned(), image);
    }
    Config { layers: StrMap::new(), images: map }
}

fn selection(targets: &[&str], all: bool) -> ImageSelection {
    ImageSelection { targets: targets.iter().map(|t| t.to_string()).collect(), all }
}

fn kv(key: &str, value: &str) -> KeyValue {
    KeyValue { key: key.to_owned(), value: value.to_owned() }
}

#[test]
fn selects_images() {
    let c = config(vec![("web", image()), ("api", image())]);
    assert_eq!(selected_images(&c, &selection(&[], true)).unwrap(), ["api", "web"]);
    assert_eq!(selected_images(&c, &selection(&["web", "api", "web"], false)).unwrap(), ["api", "web"]);
    let unknown = selected_images(&c, &selection(&["db"], false)).unwrap_err();
    assert!(unknown.contains("db") && unknown.contains("api, web"));
    assert!(selected_images(&c, &selection(&[], false)).unwrap_err().contains("select an image or use --all"));
    let single = config(vec![("web", image())]);
    assert_eq!(selected_images(&single, &selection(&[], false)).unwrap(), ["web"]);
}

#[test]
fn parses_owners() {
    assert_eq!(parse_owner("65532").unwrap(), (65532, 65532));
    assert_eq!(parse_owner("1:2").unwrap(), (1, 2));
    assert_eq!(parse_owner("+7").unwrap(), (7, 7));
    assert!(parse_owner("root").is_err());
    assert!(parse_owner("1:").is_err());
    assert!(parse_owner("18446744073709551616").is_err());
}

#[test]
fn assigns_references_to_images() {
    let mut web = image();
    web.tags = vec!["ghcr.io/x/web:1".to_owned()];
    let c = config(vec![("web", web), ("api", image())]);
    let names = vec!["api".to_owned(), "web".to_owned()];
    let refs = assign_references(
        &c,
        &names,
        &vec!["web=ghcr.io/x/web:latest".to_owned(), "api=ghcr.io/x/api:1".to_owned(), "web=ghcr.io/x/web:1".to_owned()],
    )
    .unwrap();
    assert_eq!(refs, vec![vec!["ghcr.io/x/api:1".to_owned()], vec!["ghcr.io/x/web:1".to_owned(), "ghcr.io/x/web:latest".to_owned()]]);

    assert!(assign_references(&c, &names, &vec!["db=ghcr.io/x/db:1".to_owned()]).is_err());
    assert!(assign_references(&c, &names, &vec!["ghcr.io/x/any:1".to_owned()]).is_err());
    assert!(assign_references(&c, &names, &vec!["api=ghcr.io/x/web:1".to_owned()]).unwrap_err().contains("assigned to both"));

    let one = vec!["web".to_owned()];
    assert_eq!(
        assign_references(&c, &one, &vec!["ghcr.io/x/web:2".to_owned()]).unwrap(),
        vec![vec!["ghcr.io/x/web:1".to_owned(), "ghcr.io/x/web:2".to_owned()]]
    );
}

#[test]
fn resolves_configured_files() {
    let mut owned = file("dist/app", "/app");
    owned.owner = Some("10:20".to_owned());
    owned.mode = Some("0755".to_owned());
    let files = resolve_files(&vec![owned, file("assets", "/srv")], "project", "linux/amd64").unwrap();
    assert_eq!(files[0].source, "project/dist/app");
    assert_eq!(files[0].destination, "/app");
    assert_eq!((files[0].uid, files[0].gid), (10, 20));
    assert_eq!(files[0].mode, Some(0o755));
    assert_eq!((files[1].uid, files[1].gid, files[1].mode), (0, 0, None));

    assert!(resolve_files(&vec![file("/etc/passwd", "/x")], "project", "linux/amd64").is_err());
    assert!(resolve_files(&vec![file("../secret", "/x")], "project", "linux/amd64").is_err());
    let mut sources = StrMap::new();
    sources.insert("linux/arm64".to_owned(), "arm".to_owned());
    let mut only_arm = file("x", "/x");
    only_arm.source = PlatformValue::Platforms(sources);
    assert!(resolve_files(&vec![only_arm], "project", "linux/amd64").is_err());
}

#[test]
fn later_assignments_win() {
    let mut values = StrMap::new();
    values.insert("a".to_owned(), "configured".to_owned());
    apply_assignments(&mut values, &vec![kv("a", "first"), kv("b", "x"), kv("a", "second")]);
    assert_eq!(values.get("a").map(String::as_str), Some("second"));
    assert_eq!(values.get("b").map(String::as_str), Some("x"));
    assert_eq!(values.len(), 2);
}

#[test]
fn resolves_image_chains_and_platforms() {
    let mut base = image();
    base.base = Base::External("alpine:3".to_owned());
    base.platforms = vec!["linux/arm64".to_owned()];
    base.entrypoint = Some(vec!["/base".to_owned()]);
    base.env.insert("A".to_owned(), "base".to_owned());
    base.files = vec![file("base", "/base")];
    let mut app = image();
    app.base = Base::Local { image: "base".to_owned() };
    app.env.insert("A".to_owned(), "app".to_owned());
    app.files = vec![file("app", "/app")];
    let c = config(vec![("base", base), ("app", app)]);

    let chain = image_chain(&c, "app").unwrap();
    assert_eq!(chain, ["base", "app"]);
    assert_eq!(base_to_pull(&c, &chain).as_deref(), Some("alpine:3"));
    let options = BuildOptions::default();
    assert_eq!(image_platform_names(&c, "app", &options, "linux/amd64").unwrap(), ["linux/arm64"]);
    let mut chosen = BuildOptions::default();
    chosen.platforms = vec!["linux/amd64".to_owned()];
    assert_eq!(image_platform_names(&c, "app", &chosen, "linux/amd64").unwrap(), ["linux/amd64"]);
    assert!(image_platform_names(&c, "missing", &options, "linux/amd64").is_err());

    let mut options = BuildOptions::default();
    options.copies = vec![CopyInput { source: "extra".to_owned(), destination: "/extra".to_owned() }];
    options.labels = vec![kv("version", "1")];
    let platform = resolve_platform(&c, "project", "/work", &chain, &options, "linux/arm64", None).unwrap();
    assert_eq!(platform.platform.to_text(), "linux/arm64");
    assert_eq!(platform.layers.len(), 3);
    assert_eq!(platform.layers[0].files[0].source, "project/base");
    assert_eq!(platform.layers[1].files[0].source, "project/app");
    assert_eq!(platform.layers[2].files[0].source, "/work/extra");
    assert_eq!(platform.runtime_config.entrypoint, Some(vec!["/base".to_owned()]));
    assert_eq!(platform.runtime_config.env.get("A").map(String::as_str), Some("app"));
    assert_eq!(platform.runtime_config.labels.get("version").map(String::as_str), Some("1"));
    assert!(!platform.flatten);

    let mut squashed = BuildOptions::default();
    squashed.squash = true;
    let one = resolve_platform(&c, "project", "/work", &chain, &squashed, "linux/arm64", None).unwrap();
    assert_eq!(one.layers.len(), 1);
    assert_eq!(one.layers[0].files.len(), 2);

    assert!(resolve_platform(&c, "project", "/work", &chain, &options, "linux", None).is_err());
    assert!(image_chain(&c, "missing").is_none());
    let scratch = config(vec![("app", image())]);
    assert_eq!(base_to_pull(&scratch, &vec!["app".to_owned()]), None);
}

#[test]
fn resolves_a_published_executable() {
    let mut options = BuildOptions::default();
    options.tags = vec!["app=ghcr.io/x/app:1".to_owned(), "ghcr.io/x/app:latest".to_owned()];
    options.platforms = vec!["linux/amd64".to_owned(), "linux/arm64".to_owned()];
    options.labels = vec![kv("a", "b")];
    options.flatten = true;
    let host = Platform::parse("linux/amd64").unwrap();
    let set = resolve_source(&options, "dist/app", "/work", host, true).unwrap();
    let images = set.images();
    assert_eq!(images.len(), 1);
    assert_eq!(images[0].name, "image");
    assert_eq!(images[0].references, ["ghcr.io/x/app:1", "ghcr.io/x/app:latest"]);
    assert_eq!(images[0].platforms.len(), 2);
    let platform = &images[0].platforms[1];
    assert_eq!(platform.platform.to_text(), "linux/arm64");
    assert_eq!(platform.layers[0].files[0].source, "/work/dist/app");
    assert_eq!(platform.layers[0].files[0].destination, "/app");
    assert_eq!(platform.layers[0].files[0].mode, Some(0o755));
    assert_eq!(platform.runtime_config.entrypoint, Some(vec!["/app".to_owned()]));
    assert_eq!(platform.runtime_config.labels.get("a").map(String::as_str), Some("b"));
    assert!(platform.flatten);

    let host = Platform::parse("linux/amd64").unwrap();
    let mut untagged = BuildOptions::default();
    untagged.platforms = Vec::new();
    assert!(resolve_source(&untagged, "dist/app", "/work", host, true).unwrap_err().contains("--tag"));

    let mut tagged = BuildOptions::default();
    tagged.tags = vec!["ghcr.io/x/app:1".to_owned()];
    let host = Platform::parse("linux/riscv64").unwrap();
    let set = resolve_source(&tagged, "/abs/app", "/work", host, true).unwrap();
    assert_eq!(set.images()[0].platforms[0].platform.to_text(), "linux/riscv64");
    assert_eq!(set.images()[0].platforms[0].layers[0].files[0].source, "/abs/app");

    let host = Platform::parse("linux/amd64").unwrap();
    assert!(resolve_source(&tagged, "dist/app", "/work", host, false).is_err());
    let host = Platform::parse("linux/amd64").unwrap();
    let mut bad = BuildOptions::default();
    bad.tags = vec!["x".to_owned()];
    bad.platforms = vec!["linux".to_owned()];
    assert!(resolve_source(&bad, "dist/app", "/work", host, true).is_err());
}

#[test]
fn checks_what_resolving_a_chain_asks() {
    let mut app = image();
    app.layers = vec!["tools".to_owned()];
    let mut c = config(vec![("app", app)]);
    assert!(config_wf_exec(&c));
    let chain = image_chain(&c, "app").unwrap();
    assert!(!chain_resolvable_exec(&c, &chain));
    let mut tool = file("bin/tool", "/usr/bin/tool");
    tool.mode = Some("0755".to_owned());
    c.layers.insert("tools".to_owned(), Layer { files: vec![tool] });
    assert!(chain_resolvable_exec(&c, &chain));
    let mut odd = file("bin/odd", "/usr/bin/odd");
    odd.mode = Some("0800".to_owned());
    c.layers.insert("tools".to_owned(), Layer { files: vec![odd] });
    assert!(!chain_resolvable_exec(&c, &chain));
    assert!(!chain_resolvable_exec(&c, &vec!["missing".to_owned()]));
}

#[test]
fn checks_portable_modes() {
    assert!(mode_is_valid("0755"));
    assert!(mode_is_valid("0000"));
    assert!(!mode_is_valid("755"));
    assert!(!mode_is_valid("1755"));
    assert!(!mode_is_valid("0785"));
    assert!(!mode_is_valid("07555"));
}
