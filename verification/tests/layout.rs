use containerless::cli::OutputFormat;
use containerless::digest::digest_of;
use containerless::error::BuildError;
use containerless::model::{FileMapping, Image, ImageSet, Layer, OciOutput, PlatformImage};
use containerless::oci::decimal;
use containerless::output::{blob_file, oci_layout, OutputFiles};
use containerless::pipeline::validate_image_set;
use containerless::platform::Platform;
use containerless::sources::{SourceItem, SourceKind, SourceListing};
use containerless::strmap::StrMap;
use containerless::tree::{apply_whiteout, insert_entry, materialize_hard_links, EntryKind, FsEntry};

fn entry(kind: EntryKind, data: &[u8], link: Option<&str>) -> FsEntry {
    FsEntry {
        source: None,
        data: Some(data.to_vec()),
        link: link.map(str::to_owned),
        kind,
        mode: 0o644,
        uid: 0,
        gid: 0,
        device_major: None,
        device_minor: None,
    }
}

#[test]
fn later_entries_replace_earlier_paths() {
    let mut tree = StrMap::new();
    insert_entry(&mut tree, "etc/app".to_owned(), entry(EntryKind::Regular, b"first", None));
    insert_entry(&mut tree, "etc/app".to_owned(), entry(EntryKind::Regular, b"second", None));
    assert_eq!(tree.get("etc/app").unwrap().data.as_deref(), Some(b"second".as_slice()));

    insert_entry(&mut tree, "etc/app/config".to_owned(), entry(EntryKind::Regular, b"below", None));
    assert!(tree.get("etc/app").is_none());
    insert_entry(&mut tree, "etc".to_owned(), entry(EntryKind::Regular, b"file", None));
    assert!(tree.get("etc/app/config").is_none());
    assert_eq!(tree.len(), 1);
}

#[test]
fn whiteouts_hide_paths_and_directory_contents() {
    let mut tree = StrMap::new();
    insert_entry(&mut tree, "a".to_owned(), entry(EntryKind::Directory, b"", None));
    insert_entry(&mut tree, "a/b".to_owned(), entry(EntryKind::Regular, b"b", None));
    insert_entry(&mut tree, "ab".to_owned(), entry(EntryKind::Regular, b"ab", None));
    apply_whiteout(&mut tree, "a", true);
    assert!(tree.get("a").is_some());
    assert!(tree.get("a/b").is_none());
    assert!(tree.get("ab").is_some());
    apply_whiteout(&mut tree, "a", false);
    assert!(tree.get("a").is_none());
    assert_eq!(tree.len(), 1);
}

#[test]
fn materializes_hard_links() {
    let mut tree = StrMap::new();
    insert_entry(&mut tree, "target".to_owned(), entry(EntryKind::Regular, b"contents", None));
    insert_entry(&mut tree, "link".to_owned(), entry(EntryKind::HardLink, b"", Some("target")));
    materialize_hard_links(&mut tree).unwrap();
    let link = tree.get("link").unwrap();
    assert_eq!(link.kind, EntryKind::Regular);
    assert_eq!(link.data.as_deref(), Some(b"contents".as_slice()));

    let mut dangling = StrMap::new();
    insert_entry(&mut dangling, "link".to_owned(), entry(EntryKind::HardLink, b"", Some("missing")));
    assert!(matches!(materialize_hard_links(&mut dangling), Err(BuildError::Invalid(_))));
}

#[test]
fn copies_directories_through_include_and_exclude_globs() {
    let mut mapping = FileMapping::new("/src/assets", "/srv");
    mapping.includes = vec!["**/*.css".to_owned(), "*.html".to_owned()];
    mapping.exclude = vec!["drafts/**".to_owned()];
    let item = |relative: &str, kind: SourceKind| SourceItem {
        path: format!("/src/assets/{relative}"),
        relative: relative.to_owned(),
        kind,
        permissions: 0o600,
    };
    let listing = SourceListing {
        root: SourceItem { path: "/src/assets".to_owned(), relative: String::new(), kind: SourceKind::Directory, permissions: 0o755 },
        walked: vec![
            item("index.html", SourceKind::File(b"<html>".to_vec())),
            item("style", SourceKind::Directory),
            item("style/site.css", SourceKind::File(b"body{}".to_vec())),
            item("drafts", SourceKind::Directory),
            item("drafts/new.css", SourceKind::File(b"x".to_vec())),
            item("notes.txt", SourceKind::File(b"n".to_vec())),
        ],
        walk_error: None,
    };
    let mut tree = StrMap::new();
    mapping.collect_into(listing, &mut tree).unwrap();
    assert!(tree.get("srv/index.html").is_some());
    assert!(tree.get("srv/style/site.css").is_some());
    assert_eq!(tree.get("srv/style/site.css").unwrap().mode, 0o600);
    assert!(tree.get("srv/drafts/new.css").is_none());
    assert!(tree.get("srv/notes.txt").is_none());
    assert_eq!(tree.get("srv").unwrap().kind, EntryKind::Directory);
    assert_eq!(tree.get("srv").unwrap().mode, 0o755);

    let mut single = FileMapping::new("/src/app", "/usr/bin/app");
    single.uid = 65532;
    single.gid = 65532;
    let listing = SourceListing {
        root: SourceItem { path: "/src/app".to_owned(), relative: String::new(), kind: SourceKind::File(b"bin".to_vec()), permissions: 0 },
        walked: Vec::new(),
        walk_error: None,
    };
    let mut tree = StrMap::new();
    single.collect_into(listing, &mut tree).unwrap();
    let app = tree.get("usr/bin/app").unwrap();
    assert_eq!((app.mode, app.uid, app.gid), (0o644, 65532, 65532));
}

#[test]
fn parses_and_prints_platforms() {
    let platform = Platform::parse("linux/arm64/v8").unwrap();
    assert_eq!(platform.os(), "linux");
    assert_eq!(platform.architecture(), "arm64");
    assert_eq!(platform.variant(), Some("v8"));
    assert_eq!(platform.to_text(), "linux/arm64/v8");
    assert_eq!(Platform::new("linux", "amd64").with_variant("v2").to_text(), "linux/amd64/v2");
    let error = Platform::parse("linux").unwrap_err();
    assert_eq!(error.value(), "linux");
    assert_eq!(error.message(), "invalid OCI platform \"linux\"; expected OS/ARCH[/VARIANT]");
    assert_eq!(Platform::linux_for_arch("x86_64", true).to_text(), "linux/amd64");
    assert_eq!(Platform::linux_for_arch("aarch64", true).to_text(), "linux/arm64");
    assert_eq!(Platform::linux_for_arch("powerpc64", true).to_text(), "linux/ppc64le");
    assert_eq!(Platform::linux_for_arch("powerpc64", false).to_text(), "linux/ppc64");
}

#[test]
fn computes_digests_and_numbers() {
    assert_eq!(digest_of(b""), "sha256:e3b0c44298fc1c149afbf4c8996fb92427ae41e4649b934ca495991b7852b855");
    assert_eq!(decimal(0), "0");
    assert_eq!(decimal(1700000000), "1700000000");
    assert_eq!(decimal(u64::MAX), "18446744073709551615");
    assert_eq!(String::from_utf8(oci_layout()).unwrap(), "{\"imageLayoutVersion\":\"1.0.0\"}\n");
    assert_eq!(blob_file("sha256:abc"), "blobs/sha256/abc");
    assert_eq!(blob_file("md5:abc"), "blobs/sha256/md5:abc");
}

fn platform(text: &str) -> PlatformImage {
    PlatformImage::scratch(Platform::parse(text).unwrap())
}

#[test]
fn rejects_invalid_image_sets() {
    assert!(matches!(validate_image_set(&ImageSet::new(Vec::new())), Err(BuildError::Invalid(_))));
    let duplicate_names = ImageSet::new(vec![Image::new("a", vec![platform("linux/amd64")]), Image::new("a", vec![platform("linux/amd64")])]);
    assert!(validate_image_set(&duplicate_names).is_err());
    let duplicate_platforms = ImageSet::new(vec![Image::new("a", vec![platform("linux/amd64"), platform("linux/amd64")])]);
    assert!(validate_image_set(&duplicate_platforms).is_err());
    let late = ImageSet::new(vec![Image::new("a", vec![platform("linux/amd64")])]).with_source_date_epoch(1 << 32);
    assert!(validate_image_set(&late).is_err());
    let fine = ImageSet::new(vec![Image::new("a", vec![platform("linux/amd64"), platform("linux/arm64")])]);
    assert!(validate_image_set(&fine).is_ok());
}

#[test]
fn exports_layouts_as_archives_or_directories() {
    let mut platform = platform("linux/amd64");
    platform.layers = vec![Layer { files: vec![FileMapping::new("/src/app", "/app")] }];
    let set = ImageSet::new(vec![Image::new("app", vec![platform])]);
    let listing = SourceListing {
        root: SourceItem { path: "/src/app".to_owned(), relative: String::new(), kind: SourceKind::File(b"x".to_vec()), permissions: 0o755 },
        walked: Vec::new(),
        walk_error: None,
    };
    let layout = set.assemble(vec![vec![vec![vec![listing]]]]).unwrap();
    let blobs = layout.blobs.len();

    let directory = OciOutput::Layout("out".to_owned()).export_layout(&layout, 0, false).unwrap();
    let files = match directory {
        OutputFiles::Directory(files) => files,
        OutputFiles::Archive(_) => panic!("expected directory files"),
    };
    assert_eq!(files.len(), blobs + 2);
    assert!(files.iter().take(blobs).all(|(path, bytes)| path == &format!("blobs/sha256/{}", &digest_of(bytes)[7..])));
    assert_eq!(files[blobs].0, "index.json");
    assert_eq!(files[blobs].1, layout.index);
    assert_eq!(files[blobs + 1].0, "oci-layout");

    let archive = match OciOutput::Archive("out.tar".to_owned()).export_layout(&layout, 7, false).unwrap() {
        OutputFiles::Archive(bytes) => bytes,
        OutputFiles::Directory(_) => panic!("expected an archive"),
    };
    let mut reader = tar::Archive::new(archive.as_slice());
    let names: Vec<(String, u64)> = reader
        .entries()
        .unwrap()
        .map(|e| {
            let e = e.unwrap();
            (e.path().unwrap().to_str().unwrap().trim_end_matches('/').to_owned(), e.header().mtime().unwrap())
        })
        .collect();
    assert_eq!(names[0].0, "blobs");
    assert_eq!(names[1].0, "blobs/sha256");
    assert_eq!(names[names.len() - 2].0, "index.json");
    assert_eq!(names[names.len() - 1].0, "oci-layout");
    assert!(names.iter().all(|(_, mtime)| *mtime == 7));
    assert_eq!(names.len(), blobs + 4);

    assert!(matches!(
        OciOutput::Archive("out.tar".to_owned()).export_layout(&layout, 0, true),
        Err(BuildError::Invalid(_))
    ));
    assert_eq!(OutputFormat::default(), OutputFormat::Oci);
}
