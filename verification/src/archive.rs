//! Reading a base layer's compressed tar archive into a layer tree, applying whiteouts.
use std::io::Read;
use vstd::prelude::*;
use vstd::string::*;

use crate::error::BuildError;
use crate::model::BaseLayer;
use crate::paths::{dot, join_segments, lemma_path_names_join, names_of, path_join, path_join_exec, path_names, slash_path, slash_path_spec};
use crate::strmap::{map_pairs, sorted_keys, StrMap};
use crate::text::{concat, ends_with, has_prefix, has_suffix, join_with, starts_with, str_eq, substring, views};
use crate::tree::{
    apply_whiteouts_view, insert_all_view, item_views, lemma_insert_all_view, lemma_whiteouts_view, insert_view, EntryView, apply_whiteouts, apply_whiteouts_spec, insert_all, insert_all_spec, insert_entry, links_resolve,
    materialize_hard_links, materialize_spec, view_map, whiteout_views, FsEntry, EntryKind,
};

verus! {

/// What an archive path contributes to the tree.
pub enum Change {
    /// The archive root, which contributes nothing.
    Skip,
    /// A whiteout hiding `path`; an opaque one hides everything below the directory `path`.
    Whiteout(String, bool),
    /// An entry at `path`.
    Add(String),
}

pub enum ChangeView {
    Skip,
    Whiteout(Seq<char>, bool),
    Add(Seq<char>),
}

impl View for Change {
    type V = ChangeView;

    open spec fn view(&self) -> ChangeView {
        match self {
            Change::Skip => ChangeView::Skip,
            Change::Whiteout(p, o) => ChangeView::Whiteout(p@, *o),
            Change::Add(p) => ChangeView::Add(p@),
        }
    }
}

pub open spec fn opaque_marker() -> Seq<char> {
    seq!['.', 'w', 'h', '.', '.', 'w', 'h', '.', '.', 'o', 'p', 'q']
}

pub open spec fn whiteout_marker() -> Seq<char> {
    seq!['.', 'w', 'h', '.']
}

/// What the archive path `raw` contributes: nothing for the root; for a file named
/// `.wh..wh..opq`, an opaque whiteout of its directory; for a file named `.wh.NAME`, a whiteout
/// of `NAME` beside it; otherwise an entry at the path. `None` when a path is not portable.
pub open spec fn classify_spec(raw: Seq<char>) -> Option<ChangeView> {
    match slash_path_spec(raw) {
        None => None,
        Some(p) => {
            if p.len() == 0 {
                Some(ChangeView::Skip)
            } else {
                let names = path_names(raw);
                let name = names.last();
                let parent = join_with(names.drop_last(), '/');
                if name == opaque_marker() {
                    Some(ChangeView::Whiteout(parent, true))
                } else if has_prefix(name, whiteout_marker()) {
                    match slash_path_spec(path_join(parent, name.skip(4))) {
                        Some(removed) => Some(ChangeView::Whiteout(removed, false)),
                        None => None,
                    }
                } else {
                    Some(ChangeView::Add(p))
                }
            }
        }
    }
}

/// Classifies an archive path.
pub fn classify(raw: &str) -> (r: Result<Change, BuildError>)
    ensures
        match r {
            Ok(c) => classify_spec(raw@) == Some(c@),
            Err(e) => classify_spec(raw@) is None && e is Invalid,
        },
{
    let path = slash_path(raw)?;
    if path.as_str().is_empty() {
        return Ok(Change::Skip);
    }
    let mut names = names_of(raw);
    proof {
        reveal_strlit(".wh..wh..opq");
        reveal_strlit(".wh.");
        assert(".wh..wh..opq"@ =~= opaque_marker());
        assert(".wh."@ =~= whiteout_marker());
        assert(path@.len() > 0);
        if path_names(raw@).len() == 0 {
            assert(join_with(path_names(raw@), '/') =~= Seq::<char>::empty());
        }
    }
    let ghost all = views(names@);
    let name = names.pop().unwrap();
    assert(views(names@) =~= all.drop_last());
    let parent = join_segments(&names);
    if str_eq(name.as_str(), ".wh..wh..opq") {
        return Ok(Change::Whiteout(parent, true));
    }
    if starts_with(name.as_str(), ".wh.") {
        let n = name.as_str().unicode_len();
        let rest = substring(name.as_str(), 4, n);
        assert(rest@ =~= name@.skip(4));
        let joined = path_join_exec(parent.as_str(), rest.as_str());
        let removed = slash_path(joined.as_str())?;
        return Ok(Change::Whiteout(removed, false));
    }
    Ok(Change::Add(path))
}

/// The archive entry kinds that a layer tree holds, and the rest.
pub enum TarKind {
    Regular,
    Link,
    Symlink,
    Char,
    Block,
    Directory,
    Fifo,
    Other,
}

/// The tree entry kind of an archive entry kind, if the tree can hold it.
pub open spec fn tree_kind(k: TarKind) -> Option<EntryKind> {
    match k {
        TarKind::Regular => Some(EntryKind::Regular),
        TarKind::Link => Some(EntryKind::HardLink),
        TarKind::Symlink => Some(EntryKind::Symlink),
        TarKind::Char => Some(EntryKind::CharDevice),
        TarKind::Block => Some(EntryKind::BlockDevice),
        TarKind::Directory => Some(EntryKind::Directory),
        TarKind::Fifo => Some(EntryKind::Fifo),
        TarKind::Other => None,
    }
}

pub fn tree_kind_exec(k: &TarKind) -> (r: Option<EntryKind>)
    ensures
        r == tree_kind(*k),
{
    match k {
        TarKind::Regular => Some(EntryKind::Regular),
        TarKind::Link => Some(EntryKind::HardLink),
        TarKind::Symlink => Some(EntryKind::Symlink),
        TarKind::Char => Some(EntryKind::CharDevice),
        TarKind::Block => Some(EntryKind::BlockDevice),
        TarKind::Directory => Some(EntryKind::Directory),
        TarKind::Fifo => Some(EntryKind::Fifo),
        TarKind::Other => None,
    }
}

/// The changes one layer makes: whiteouts in archive order and the entries it adds.
pub struct LayerChanges {
    pub whiteouts: Vec<(String, bool)>,
    pub additions: StrMap<FsEntry>,
}

/// The tree after a layer's changes, before hard links are resolved: whiteouts first, then
/// the layer's entries in path order.
pub open spec fn changed_tree(m: Map<Seq<char>, FsEntry>, changes: LayerChanges) -> Map<Seq<char>, FsEntry> {
    insert_all_spec(apply_whiteouts_spec(m, whiteout_views(changes.whiteouts@)), changes.additions.items())
}

/// Applies a layer's changes to a tree: removes what its whiteouts hide, places its entries,
/// then replaces every hard link by a copy of the file it resolves to.
pub fn apply_changes(entries: &mut StrMap<FsEntry>, changes: LayerChanges) -> (r: Result<(), BuildError>)
    requires
        old(entries).wf(),
        changes.additions.wf(),
    ensures
        final(entries).wf(),
        r is Ok <==> links_resolve(view_map(changed_tree(old(entries).view(), changes))),
        r is Ok ==> view_map(final(entries).view()) == materialize_spec(view_map(changed_tree(old(entries).view(), changes))),
{
    let LayerChanges { whiteouts, additions } = changes;
    apply_whiteouts(entries, &whiteouts);
    insert_all(entries, additions.into_items());
    materialize_hard_links(entries)
}

} // verus!

verus! {

/// A tar archive read from in-memory bytes, directly or through a decoder. `tar::Archive`
/// cannot be declared to Verus (its `Read` bound is refused), so it is held here, opaque.
#[verifier::external_body]
pub struct TarArchive<'b> {
    inner: tar::Archive<Box<dyn std::io::Read + 'b>>,
}

/// The entries of a `TarArchive`, as `tar::Entries` yields them; held opaque for the same reason.
#[verifier::external_body]
pub struct TarEntries<'a, 'b> {
    inner: tar::Entries<'a, Box<dyn std::io::Read + 'b>>,
}

/// One entry of a `TarArchive`, as `tar::Entry`, once its contents have been read; held
/// opaque for the same reason. What is left to ask of it (path, link target, header) the `tar`
/// crate serves from what the entry stores, whatever the archive has read since.
#[verifier::external_body]
pub struct TarEntry<'a, 'b> {
    inner: tar::Entry<'a, Box<dyn std::io::Read + 'b>>,
}

/// One member of a tar stream as the library reads it: each field as the `tar` crate reports
/// it, `None` where reading that field fails; the contents as read when the member is taken.
#[verifier::ext_equal]
pub struct TarMember {
    /// The path; the inner `None` when it is not UTF-8.
    pub path: Option<Option<Seq<char>>>,
    pub kind: TarKind,
    /// The link target: `Some(None)` when there is none, `Some(Some(None))` when it is not UTF-8.
    pub link: Option<Option<Option<Seq<char>>>>,
    pub mode: Option<u32>,
    pub uid: Option<u64>,
    pub gid: Option<u64>,
    pub device_major: Option<Option<u32>>,
    pub device_minor: Option<Option<u32>>,
    /// The contents.
    pub data: Seq<u8>,
}

/// The members a tar reader yields, read from its start.
pub uninterp spec fn tar_members(a: TarArchive<'_>) -> Seq<Option<TarMember>>;

/// Whether nothing has been read from a tar reader yet.
pub uninterp spec fn tar_fresh(a: TarArchive<'_>) -> bool;

/// The members that the tar stream `data` yields, in order; a `None` stands where reading the
/// next member, its header or its contents, fails, and nothing follows it.
pub uninterp spec fn tar_stream(data: Seq<u8>) -> Seq<Option<TarMember>>;

/// The members that the tar stream inside the gzip stream `data` yields, read as the gzip
/// stream is decoded, in order; a `None` stands where reading or decoding the next member
/// fails, and nothing follows it. What follows the tar stream's end is never decoded.
pub uninterp spec fn gzip_tar_stream(data: Seq<u8>) -> Seq<Option<TarMember>>;

/// The members that the tar stream inside the zstd stream `data` yields, read as the zstd
/// stream is decoded, as `gzip_tar_stream` reads a gzip stream.
pub uninterp spec fn zstd_tar_stream(data: Seq<u8>) -> Seq<Option<TarMember>>;

/// The members not yet taken from an entries iterator.
pub uninterp spec fn tar_remaining(es: TarEntries<'_, '_>) -> Seq<Option<TarMember>>;

/// The member an entry stands for: what its path, link target and header give, and the
/// contents that were read when it was taken.
pub uninterp spec fn tar_member(e: TarEntry<'_, '_>) -> TarMember;

/// A tar reader over in-memory bytes, through `tar::Archive::new`. Claims that it yields the
/// members of the tar stream `data` and has read nothing yet.
#[verifier::external_body]
fn tar_archive<'b>(data: &'b [u8]) -> (r: TarArchive<'b>)
    ensures
        tar_members(r) == tar_stream(data@),
        tar_fresh(r),
{
    TarArchive { inner: tar::Archive::new(Box::new(data)) }
}

/// A tar reader over a gzip stream, through `tar::Archive::new` over
/// `flate2::read::GzDecoder::new`, which decodes as the archive is read. Claims that it yields
/// the members of the tar stream inside `data` and has read nothing yet.
#[verifier::external_body]
fn tar_archive_gzip<'b>(data: &'b [u8]) -> (r: TarArchive<'b>)
    ensures
        tar_members(r) == gzip_tar_stream(data@),
        tar_fresh(r),
{
    TarArchive { inner: tar::Archive::new(Box::new(flate2::read::GzDecoder::new(data))) }
}

/// A tar reader over a zstd stream, through `tar::Archive::new` over `zstd::Decoder::new`,
/// which decodes as the archive is read. Setting the decoder up fails only when its context
/// cannot be allocated, so nothing is claimed of when it fails; on success, claims that it
/// yields the members of the tar stream inside `data` and has read nothing yet.
#[verifier::external_body]
fn tar_archive_zstd<'b>(data: &'b [u8]) -> (r: std::io::Result<TarArchive<'b>>)
    ensures
        r matches Ok(a) ==> tar_members(a) == zstd_tar_stream(data@) && tar_fresh(a),
{
    zstd::Decoder::new(data).map(|decoder| TarArchive { inner: tar::Archive::new(Box::new(decoder)) })
}

/// The entries of a tar archive, through `tar::Archive::entries`, which fails only when the
/// archive has been read from. Claims that on success they are the members the archive yields.
#[verifier::external_body]
fn tar_entries<'a, 'b>(archive: &'a mut TarArchive<'b>) -> (r: std::io::Result<TarEntries<'a, 'b>>)
    ensures
        tar_fresh(*old(archive)) ==> r is Ok,
        r matches Ok(es) ==> tar_remaining(es) == tar_members(*old(archive)),
{
    archive.inner.entries().map(|inner| TarEntries { inner })
}

/// The next entry, through `Iterator::next` of `tar::Entries`, with its contents, through
/// `Read::read_to_end` of `tar::Entry`, read at once, while the archive stands at them; a
/// failure to read them is a failure to read the member, as the `tar` crate would meet it when
/// skipping them. Claims that it takes the first remaining member: `None` when none remains,
/// an error where reading it fails, else the entry and its contents.
#[verifier::external_body]
fn tar_next<'a, 'b>(entries: &mut TarEntries<'a, 'b>) -> (r: Option<std::io::Result<(TarEntry<'a, 'b>, Vec<u8>)>>)
    ensures
        match r {
            None => tar_remaining(*old(entries)).len() == 0,
            Some(Ok((e, data))) => tar_remaining(*old(entries)).len() > 0 && tar_remaining(*old(entries))[0] == Some(tar_member(e))
                && tar_member(e).data == data@
                && tar_remaining(*final(entries)) == tar_remaining(*old(entries)).drop_first(),
            Some(Err(_)) => tar_remaining(*old(entries)).len() > 0 && tar_remaining(*old(entries))[0] is None,
        },
{
    entries.inner.next().map(|result| result.and_then(|mut inner| {
        let mut data = Vec::new();
        inner.read_to_end(&mut data).map(|_| (TarEntry { inner }, data))
    }))
}

pub open spec fn opt_opt_view(o: Option<Option<String>>) -> Option<Option<Seq<char>>> {
    match o {
        Some(Some(s)) => Some(Some(s@)),
        Some(None) => Some(None),
        None => None,
    }
}

/// The path of an entry, through `tar::Entry::path`; `None` inside `Ok` when it is not UTF-8.
/// Claims that it is the member's path.
#[verifier::external_body]
fn tar_entry_path<'a, 'b>(entry: &TarEntry<'a, 'b>) -> (r: std::io::Result<Option<String>>)
    ensures
        match tar_member(*entry).path {
            Some(p) => r matches Ok(x) && crate::tree::opt_view(x) == p,
            None => r is Err,
        },
{
    entry.inner.path().map(|path| path.to_str().map(|text| text.to_owned()))
}

/// The link target of an entry, through `tar::Entry::link_name`; the inner `None` when there
/// is none, `Some(None)` when it is not UTF-8. Claims that it is the member's link target.
#[verifier::external_body]
fn tar_entry_link<'a, 'b>(entry: &TarEntry<'a, 'b>) -> (r: std::io::Result<Option<Option<String>>>)
    ensures
        match tar_member(*entry).link {
            Some(l) => r matches Ok(x) && opt_opt_view(x) == l,
            None => r is Err,
        },
{
    entry.inner.link_name().map(|link| link.map(|path| path.to_str().map(|text| text.to_owned())))
}

/// The kind of an entry, through `tar::Header::entry_type` of its header, one variant for each
/// kind the tree holds and `Other` for the rest. Claims that it is the member's kind.
#[verifier::external_body]
fn tar_entry_kind<'a, 'b>(entry: &TarEntry<'a, 'b>) -> (r: TarKind)
    ensures
        r == tar_member(*entry).kind,
{
    match entry.inner.header().entry_type() {
        tar::EntryType::Regular => TarKind::Regular,
        tar::EntryType::Link => TarKind::Link,
        tar::EntryType::Symlink => TarKind::Symlink,
        tar::EntryType::Char => TarKind::Char,
        tar::EntryType::Block => TarKind::Block,
        tar::EntryType::Directory => TarKind::Directory,
        tar::EntryType::Fifo => TarKind::Fifo,
        _ => TarKind::Other,
    }
}

/// The permission bits, through `tar::Header::mode` of the entry's header. Claims that they
/// are the member's.
#[verifier::external_body]
fn tar_entry_mode<'a, 'b>(entry: &TarEntry<'a, 'b>) -> (r: std::io::Result<u32>)
    ensures
        match r {
            Ok(v) => tar_member(*entry).mode == Some(v),
            Err(_) => tar_member(*entry).mode is None,
        },
{
    entry.inner.header().mode()
}

/// The owner's user id, through `tar::Header::uid` of the entry's header. Claims that it is the
/// member's.
#[verifier::external_body]
fn tar_entry_uid<'a, 'b>(entry: &TarEntry<'a, 'b>) -> (r: std::io::Result<u64>)
    ensures
        match r {
            Ok(v) => tar_member(*entry).uid == Some(v),
            Err(_) => tar_member(*entry).uid is None,
        },
{
    entry.inner.header().uid()
}

/// The owner's group id, through `tar::Header::gid` of the entry's header. Claims that it is
/// the member's.
#[verifier::external_body]
fn tar_entry_gid<'a, 'b>(entry: &TarEntry<'a, 'b>) -> (r: std::io::Result<u64>)
    ensures
        match r {
            Ok(v) => tar_member(*entry).gid == Some(v),
            Err(_) => tar_member(*entry).gid is None,
        },
{
    entry.inner.header().gid()
}

/// The device major number, through `tar::Header::device_major` of the entry's header. Claims
/// that it is the member's.
#[verifier::external_body]
fn tar_entry_device_major<'a, 'b>(entry: &TarEntry<'a, 'b>) -> (r: std::io::Result<Option<u32>>)
    ensures
        match r {
            Ok(v) => tar_member(*entry).device_major == Some(v),
            Err(_) => tar_member(*entry).device_major is None,
        },
{
    entry.inner.header().device_major()
}

/// The device minor number, through `tar::Header::device_minor` of the entry's header. Claims
/// that it is the member's.
#[verifier::external_body]
fn tar_entry_device_minor<'a, 'b>(entry: &TarEntry<'a, 'b>) -> (r: std::io::Result<Option<u32>>)
    ensures
        match r {
            Ok(v) => tar_member(*entry).device_minor == Some(v),
            Err(_) => tar_member(*entry).device_minor is None,
        },
{
    entry.inner.header().device_minor()
}

} // verus!

verus! {

/// The compression that a layer media type names.
pub enum Compression {
    Gzip,
    Zstd,
    Uncompressed,
}

pub open spec fn compression_spec(media_type: Seq<char>) -> Option<Compression> {
    if has_suffix(media_type, seq!['+', 'g', 'z', 'i', 'p']) || has_suffix(media_type, seq!['.', 'g', 'z', 'i', 'p']) {
        Some(Compression::Gzip)
    } else if has_suffix(media_type, seq!['+', 'z', 's', 't', 'd']) || has_suffix(media_type, seq!['.', 'z', 's', 't', 'd']) {
        Some(Compression::Zstd)
    } else if has_suffix(media_type, seq!['.', 't', 'a', 'r']) {
        Some(Compression::Uncompressed)
    } else {
        None
    }
}

/// The compression of a layer by its media type: `+gzip`/`.gzip`, `+zstd`/`.zstd` or a plain
/// `.tar`; `None` for any other media type.
pub fn compression_of(media_type: &str) -> (r: Option<Compression>)
    ensures
        r == compression_spec(media_type@),
{
    proof {
        reveal_strlit("+gzip");
        reveal_strlit(".gzip");
        reveal_strlit("+zstd");
        reveal_strlit(".zstd");
        reveal_strlit(".tar");
        assert("+gzip"@ =~= seq!['+', 'g', 'z', 'i', 'p']);
        assert(".gzip"@ =~= seq!['.', 'g', 'z', 'i', 'p']);
        assert("+zstd"@ =~= seq!['+', 'z', 's', 't', 'd']);
        assert(".zstd"@ =~= seq!['.', 'z', 's', 't', 'd']);
        assert(".tar"@ =~= seq!['.', 't', 'a', 'r']);
    }
    if ends_with(media_type, "+gzip") || ends_with(media_type, ".gzip") {
        Some(Compression::Gzip)
    } else if ends_with(media_type, "+zstd") || ends_with(media_type, ".zstd") {
        Some(Compression::Zstd)
    } else if ends_with(media_type, ".tar") {
        Some(Compression::Uncompressed)
    } else {
        None
    }
}

/// The members of a layer's archive, read through the decoder that its media type names;
/// `None` for a media type that names no known compression.
pub open spec fn layer_members(media_type: Seq<char>, data: Seq<u8>) -> Option<Seq<Option<TarMember>>> {
    match compression_spec(media_type) {
        Some(Compression::Gzip) => Some(gzip_tar_stream(data)),
        Some(Compression::Zstd) => Some(zstd_tar_stream(data)),
        Some(Compression::Uncompressed) => Some(tar_stream(data)),
        None => None,
    }
}

/// A reader of a layer's archive that decodes as it reads; `Unsupported` for a media type that
/// names no known compression, `Io` when a zstd decoder cannot be set up.
fn layer_archive<'b>(layer: &'b BaseLayer) -> (r: Result<TarArchive<'b>, BuildError>)
    ensures
        match r {
            Ok(a) => tar_fresh(a) && layer_members(layer.spec_media_type(), layer.spec_bytes()) == Some(tar_members(a)),
            Err(e) => (compression_spec(layer.spec_media_type()) is None && e is Unsupported)
                || (compression_spec(layer.spec_media_type()) == Some(Compression::Zstd) && e is Io),
        },
{
    match compression_of(layer.media_type()) {
        Some(Compression::Gzip) => Ok(tar_archive_gzip(layer.bytes())),
        Some(Compression::Zstd) => match tar_archive_zstd(layer.bytes()) {
            Ok(a) => Ok(a),
            Err(e) => Err(BuildError::Io(e)),
        },
        Some(Compression::Uncompressed) => Ok(tar_archive(layer.bytes())),
        None => Err(BuildError::Unsupported(concat("cannot flatten layer media type ", layer.media_type()))),
    }
}

/// What a member of a layer archive contributes.
pub enum MemberChange {
    Skip,
    Whiteout(Seq<char>, bool),
    Add(Seq<char>, EntryView),
}

/// The entry a member adds: its kind, link target for links, permission bits and owner,
/// device numbers for devices and contents for regular files; `None` when the kind cannot be
/// held or a field that is needed cannot be read.
pub open spec fn member_entry(m: TarMember) -> Option<EntryView> {
    match tree_kind(m.kind) {
        None => None,
        Some(k) => {
            let is_link = k == EntryKind::Symlink || k == EntryKind::HardLink;
            let is_device = k == EntryKind::CharDevice || k == EntryKind::BlockDevice;
            if is_link && !(m.link matches Some(Some(Some(_)))) {
                None
            } else if m.mode is None || m.uid is None || m.gid is None {
                None
            } else if is_device && (m.device_major is None || m.device_minor is None) {
                None
            } else {
                Some(EntryView {
                    source: None,
                    data: if k == EntryKind::Regular { Some(m.data) } else { None },
                    link: if is_link { m.link.unwrap().unwrap() } else { None },
                    kind: k,
                    mode: m.mode.unwrap(),
                    uid: m.uid.unwrap(),
                    gid: m.gid.unwrap(),
                    device_major: if is_device { m.device_major.unwrap() } else { None },
                    device_minor: if is_device { m.device_minor.unwrap() } else { None },
                })
            }
        },
    }
}

/// What a member contributes: by its path, nothing, a whiteout, or an entry; `None` when its
/// path or a field that is needed cannot be read.
pub open spec fn member_change(m: TarMember) -> Option<MemberChange> {
    match m.path {
        Some(Some(raw)) => match classify_spec(raw) {
            None => None,
            Some(ChangeView::Skip) => Some(MemberChange::Skip),
            Some(ChangeView::Whiteout(p, o)) => Some(MemberChange::Whiteout(p, o)),
            Some(ChangeView::Add(p)) => match member_entry(m) {
                Some(e) => Some(MemberChange::Add(p, e)),
                None => None,
            },
        },
        _ => None,
    }
}

/// The whiteouts and entries that the members `s` add to `ws` and `adds`, in order; `None`
/// when a member cannot be read.
pub open spec fn stream_changes(
    s: Seq<Option<TarMember>>,
    ws: Seq<(Seq<char>, bool)>,
    adds: Map<Seq<char>, EntryView>,
) -> Option<(Seq<(Seq<char>, bool)>, Map<Seq<char>, EntryView>)>
    decreases s.len(),
{
    if s.len() == 0 {
        Some((ws, adds))
    } else {
        match s[0] {
            None => None,
            Some(m) => match member_change(m) {
                None => None,
                Some(MemberChange::Skip) => stream_changes(s.drop_first(), ws, adds),
                Some(MemberChange::Whiteout(p, o)) => stream_changes(s.drop_first(), ws.push((p, o)), adds),
                Some(MemberChange::Add(p, e)) => stream_changes(s.drop_first(), ws, insert_view(adds, p, e)),
            },
        }
    }
}

/// The whiteouts and entries of a layer archive's members, or `None` when one cannot be read.
pub open spec fn layer_changes(members: Seq<Option<TarMember>>) -> Option<(Seq<(Seq<char>, bool)>, Map<Seq<char>, EntryView>)> {
    stream_changes(members, Seq::empty(), Map::empty())
}

/// Whether a path ends in a name that is not a whiteout's.
pub open spec fn plain_name(k: Seq<char>) -> bool {
    path_names(k).len() > 0 && !has_prefix(path_names(k).last(), whiteout_marker())
}

/// An archive path that adds an entry adds it under a name that is not a whiteout's.
proof fn lemma_added_name(raw: Seq<char>)
    ensures
        classify_spec(raw) matches Some(ChangeView::Add(p)) ==> plain_name(p),
{
    if let Some(p) = slash_path_spec(raw) {
        lemma_path_names_join(raw);
        let names = path_names(raw);
        if names.len() == 0 {
            assert(join_with(names, '/') == Seq::<char>::empty());
        }
    }
}

proof fn lemma_stream_plain(s: Seq<Option<TarMember>>, ws: Seq<(Seq<char>, bool)>, adds: Map<Seq<char>, EntryView>)
    requires
        forall|k: Seq<char>| #[trigger] adds.contains_key(k) ==> plain_name(k),
    ensures
        stream_changes(s, ws, adds) matches Some(ch) ==> forall|k: Seq<char>| #[trigger] ch.1.contains_key(k) ==> plain_name(k),
    decreases s.len(),
{
    if s.len() > 0 {
        if let Some(m) = s[0] {
            match member_change(m) {
                Some(MemberChange::Skip) => lemma_stream_plain(s.drop_first(), ws, adds),
                Some(MemberChange::Whiteout(p, o)) => lemma_stream_plain(s.drop_first(), ws.push((p, o)), adds),
                Some(MemberChange::Add(p, e)) => {
                    lemma_added_name(m.path->0->0);
                    let next = insert_view(adds, p, e);
                    assert forall|k: Seq<char>| #[trigger] next.contains_key(k) implies plain_name(k) by {
                        if k != p {
                            assert(adds.contains_key(k));
                        }
                    }
                    lemma_stream_plain(s.drop_first(), ws, next);
                },
                None => {},
            }
        }
    }
}

/// The entries a layer adds never carry a whiteout's name: a member named `.wh.NAME`, or the
/// opaque marker, records a whiteout and adds nothing.
pub proof fn lemma_layer_adds_plain_names(members: Seq<Option<TarMember>>)
    ensures
        layer_changes(members) matches Some(ch) ==> forall|k: Seq<char>| #[trigger] ch.1.contains_key(k) ==> plain_name(k),
{
    lemma_stream_plain(members, Seq::empty(), Map::empty());
}

/// Whether `c` holds the whiteouts and entries `expected`.
pub open spec fn changes_are(c: LayerChanges, expected: (Seq<(Seq<char>, bool)>, Map<Seq<char>, EntryView>)) -> bool {
    &&& c.additions.wf()
    &&& whiteout_views(c.whiteouts@) == expected.0
    &&& view_map(c.additions.view()) == expected.1
}

fn read_field<T>(r: std::io::Result<T>) -> (v: Result<T, BuildError>)
    ensures
        match r {
            Ok(x) => v == Ok::<T, BuildError>(x),
            Err(_) => v is Err,
        },
{
    match r {
        Ok(x) => Ok(x),
        Err(e) => Err(BuildError::Io(e)),
    }
}

/// Reads the whiteouts and entries of a layer archive not yet read from, in archive order;
/// later entries replace earlier ones as `insert_entry` places them.
fn read_layer_changes(source: TarArchive) -> (r: Result<LayerChanges, BuildError>)
    requires
        tar_fresh(source),
    ensures
        match layer_changes(tar_members(source)) {
            Some(expected) => r matches Ok(c) && changes_are(c, expected),
            None => r is Err,
        },
{
    let ghost members = tar_members(source);
    let mut archive = source;
    let mut entries = match tar_entries(&mut archive) {
        Ok(e) => e,
        Err(e) => {
            return Err(BuildError::Io(e));
        },
    };
    let mut additions: StrMap<FsEntry> = StrMap::new();
    let mut whiteouts: Vec<(String, bool)> = Vec::new();
    let ghost goal = layer_changes(members);
    proof {
        assert(whiteout_views(whiteouts@) =~= Seq::<(Seq<char>, bool)>::empty());
        assert(view_map(additions.view()) =~= Map::<Seq<char>, EntryView>::empty());
    }
    loop
        invariant
            additions.wf(),
            goal == layer_changes(members),
            members == tar_members(source),
            goal == stream_changes(tar_remaining(entries), whiteout_views(whiteouts@), view_map(additions.view())),
        decreases tar_remaining(entries).len(),
    {
        let ghost rest = tar_remaining(entries);
        let (entry, data) = match tar_next(&mut entries) {
            None => {
                return Ok(LayerChanges { whiteouts, additions });
            },
            Some(Err(e)) => {
                return Err(BuildError::Io(e));
            },
            Some(Ok(taken)) => taken,
        };
        let ghost m = tar_member(entry);
        let ghost ws0 = whiteout_views(whiteouts@);
        let ghost adds0 = view_map(additions.view());
        assert(rest[0] == Some(m));
        assert(goal == stream_changes(rest, ws0, adds0));
        let raw = match tar_entry_path(&entry) {
            Ok(Some(p)) => p,
            Ok(None) => {
                return Err(BuildError::Invalid("archive path is not valid UTF-8".to_owned()));
            },
            Err(e) => {
                return Err(BuildError::Io(e));
            },
        };
        assert(m.path == Some(Some(raw@)));
        let path = match classify(raw.as_str())? {
            Change::Skip => {
                assert(member_change(m) == Some(MemberChange::Skip));
                continue;
            },
            Change::Whiteout(removed, opaque) => {
                let ghost before = whiteouts@;
                whiteouts.push((removed, opaque));
                proof {
                    assert(member_change(m) == Some(MemberChange::Whiteout(removed@, opaque)));
                    assert(whiteout_views(whiteouts@) =~= ws0.push((removed@, opaque)));
                }
                continue;
            },
            Change::Add(path) => path,
        };
        let tar_kind = tar_entry_kind(&entry);
        let kind = match tree_kind_exec(&tar_kind) {
            Some(k) => k,
            None => {
                return Err(BuildError::Unsupported(concat("cannot flatten archive entry type at ", path.as_str())));
            },
        };
        let link = match kind {
            EntryKind::Symlink | EntryKind::HardLink => match tar_entry_link(&entry) {
                Ok(Some(Some(l))) => Some(l),
                Ok(Some(None)) => {
                    return Err(BuildError::Invalid(concat("link target is not valid UTF-8 for ", path.as_str())));
                },
                Ok(None) => {
                    return Err(BuildError::Invalid(concat("missing link target for ", path.as_str())));
                },
                Err(e) => {
                    return Err(BuildError::Io(e));
                },
            },
            _ => None,
        };
        let mode = read_field(tar_entry_mode(&entry))?;
        let uid = read_field(tar_entry_uid(&entry))?;
        let gid = read_field(tar_entry_gid(&entry))?;
        let (device_major, device_minor) = match kind {
            EntryKind::CharDevice | EntryKind::BlockDevice => {
                let major = read_field(tar_entry_device_major(&entry))?;
                let minor = read_field(tar_entry_device_minor(&entry))?;
                (major, minor)
            },
            _ => (None, None),
        };
        let contents = match kind {
            EntryKind::Regular => Some(data),
            _ => None,
        };
        let e = FsEntry {
            source: None,
            data: contents,
            link,
            kind,
            mode,
            uid,
            gid,
            device_major,
            device_minor,
        };
        proof {
            assert(member_entry(m) == Some(e@));
            assert(member_change(m) == Some(MemberChange::Add(path@, e@)));
            crate::tree::lemma_insert_view(additions.view(), path@, e);
        }
        insert_entry(&mut additions, path, e);
    }
}

/// The tree of abstract entries after a layer's whiteouts and entries, before hard links are
/// resolved: the whiteouts in order, then the entries in path order.
pub open spec fn changed_view(
    m: Map<Seq<char>, EntryView>,
    changes: (Seq<(Seq<char>, bool)>, Map<Seq<char>, EntryView>),
) -> Map<Seq<char>, EntryView> {
    insert_all_view(apply_whiteouts_view(m, changes.0), map_pairs(changes.1))
}

/// The tree of abstract entries after applying a compressed base layer: its archive's
/// whiteouts and entries, then every hard link replaced by the file it resolves to; `None` when
/// the layer's media type names no known compression, its archive cannot be read as it is
/// decoded, or a hard link does not resolve.
pub open spec fn applied_layer(m: Map<Seq<char>, EntryView>, layer: BaseLayer) -> Option<Map<Seq<char>, EntryView>> {
    match layer_members(layer.spec_media_type(), layer.spec_bytes()) {
        None => None,
        Some(members) => match layer_changes(members) {
            None => None,
            Some(ch) => if links_resolve(changed_view(m, ch)) {
                Some(materialize_spec(changed_view(m, ch)))
            } else {
                None
            },
        },
    }
}

/// A base layer that applies leaves no hard link in the tree: each becomes a copy of the
/// regular file it resolves to.
pub proof fn lemma_applied_layer_has_no_hard_links(m: Map<Seq<char>, EntryView>, layer: BaseLayer)
    requires
        applied_layer(m, layer) is Some,
    ensures
        forall|k: Seq<char>| #[trigger] applied_layer(m, layer).unwrap().contains_key(k)
            ==> applied_layer(m, layer).unwrap()[k].kind != EntryKind::HardLink,
{
    let ch = layer_changes(layer_members(layer.spec_media_type(), layer.spec_bytes()).unwrap()).unwrap();
    crate::tree::lemma_materialized_has_no_hard_links(changed_view(m, ch));
}

proof fn lemma_changed_view(m: Map<Seq<char>, FsEntry>, c: LayerChanges, expected: (Seq<(Seq<char>, bool)>, Map<Seq<char>, EntryView>))
    requires
        changes_are(c, expected),
    ensures
        view_map(changed_tree(m, c)) == changed_view(view_map(m), expected),
{
    let ws = whiteout_views(c.whiteouts@);
    lemma_whiteouts_view(m, ws);
    lemma_insert_all_view(apply_whiteouts_spec(m, ws), c.additions.items());
    c.additions.lemma_items_are_map_pairs();
    let a = c.additions.view();
    let pairs = c.additions.items().map_values(|kv: (String, FsEntry)| (kv.0@, kv.1));
    assert(view_map(a).dom() =~= a.dom());
    let ks = sorted_keys(a.dom());
    assert(sorted_keys(view_map(a).dom()) == ks);
    let lhs = item_views(c.additions.items());
    let rhs = map_pairs(view_map(a));
    assert(pairs.len() == ks.len());
    assert(lhs.len() == rhs.len());
    assert forall|i: int| 0 <= i < lhs.len() implies lhs[i] == rhs[i] by {
        assert(pairs[i] == map_pairs(a)[i]);
        assert(map_pairs(a)[i] == (ks[i], a[ks[i]]));
        assert(rhs[i] == (ks[i], view_map(a)[ks[i]]));
        assert(a.contains_key(ks[i])) by {
            assert(c.additions.key_seq()[i] == ks[i]);
            c.additions.lemma_view();
        }
    }
    assert(lhs =~= rhs);
}

proof fn lemma_whiteouts_keep_keys(m: Map<Seq<char>, FsEntry>, ws: Seq<(Seq<char>, bool)>)
    ensures
        forall|k: Seq<char>| #[trigger] apply_whiteouts_spec(m, ws).contains_key(k) ==> m.contains_key(k),
    decreases ws.len(),
{
    if ws.len() > 0 {
        lemma_whiteouts_keep_keys(m, ws.drop_last());
        let prev = apply_whiteouts_spec(m, ws.drop_last());
        assert forall|k: Seq<char>| #[trigger] apply_whiteouts_spec(m, ws).contains_key(k) implies m.contains_key(k) by {
            assert(prev.contains_key(k));
        }
    }
}

proof fn lemma_inserted_keys(m: Map<Seq<char>, FsEntry>, items: Seq<(String, FsEntry)>)
    ensures
        forall|k: Seq<char>| #[trigger] insert_all_spec(m, items).contains_key(k)
            ==> m.contains_key(k) || exists|i: int| 0 <= i < items.len() && items[i].0@ == k,
    decreases items.len(),
{
    if items.len() > 0 {
        let init = items.drop_last();
        lemma_inserted_keys(m, init);
        assert forall|k: Seq<char>| #[trigger] insert_all_spec(m, items).contains_key(k)
            implies m.contains_key(k) || exists|i: int| 0 <= i < items.len() && items[i].0@ == k by {
            if k == items.last().0@ {
                assert(items[items.len() - 1].0@ == k);
            } else {
                assert(insert_all_spec(m, init).contains_key(k));
                if !m.contains_key(k) {
                    let i = choose|i: int| 0 <= i < init.len() && init[i].0@ == k;
                    assert(items[i] == init[i]);
                }
            }
        }
    }
}

/// Applies one compressed base layer to a tree: reads its archive as it decodes it, removes
/// what its whiteouts hide, places its entries and resolves hard links. The tree is left as it
/// was when the layer cannot be read; a layer that would apply fails only when its zstd
/// decoder cannot be set up.
pub fn apply_base_layer(layer: &BaseLayer, entries: &mut StrMap<FsEntry>) -> (r: Result<(), BuildError>)
    requires
        old(entries).wf(),
    ensures
        final(entries).wf(),
        compression_spec(layer.spec_media_type()) is None ==> (r matches Err(e) && e is Unsupported),
        (match layer_members(layer.spec_media_type(), layer.spec_bytes()) {
            None => true,
            Some(members) => layer_changes(members) is None,
        }) ==> final(entries).view() == old(entries).view(),
        match applied_layer(view_map(old(entries).view()), *layer) {
            Some(t) => match r {
                Ok(()) => view_map(final(entries).view()) == t,
                Err(e) => compression_spec(layer.spec_media_type()) == Some(Compression::Zstd) && e is Io
                    && final(entries).view() == old(entries).view(),
            },
            None => r is Err,
        },
        r is Ok ==> forall|k: Seq<char>| #[trigger] final(entries).view().contains_key(k)
            ==> old(entries).view().contains_key(k) || plain_name(k),
{
    let archive = layer_archive(layer)?;
    let ghost members = tar_members(archive);
    let changes = read_layer_changes(archive)?;
    let ghost c = changes;
    proof {
        let expected = layer_changes(members).unwrap();
        lemma_changed_view(old(entries).view(), c, expected);
        lemma_layer_adds_plain_names(members);
        lemma_whiteouts_keep_keys(old(entries).view(), whiteout_views(c.whiteouts@));
        lemma_inserted_keys(apply_whiteouts_spec(old(entries).view(), whiteout_views(c.whiteouts@)), c.additions.items());
        c.additions.lemma_view();
    }
    let ghost before = entries.view();
    let r = apply_changes(entries, changes);
    proof {
        if r is Ok {
            let expected = layer_changes(members).unwrap();
            let t = changed_tree(before, c);
            assert forall|k: Seq<char>| #[trigger] entries.view().contains_key(k) implies before.contains_key(k) || plain_name(k) by {
                assert(view_map(entries.view()).contains_key(k));
                assert(materialize_spec(view_map(t)).contains_key(k));
                assert(t.contains_key(k));
                if !before.contains_key(k) {
                    let items = c.additions.items();
                    let i = choose|i: int| 0 <= i < items.len() && items[i].0@ == k;
                    assert(c.additions.key_seq()[i] == k);
                    assert(c.additions.key_seq().contains(k));
                    assert(c.additions.view().contains_key(k));
                    assert(view_map(c.additions.view()).contains_key(k));
                    assert(expected.1.contains_key(k));
                }
            }
        }
    }
    r
}

} // verus!
