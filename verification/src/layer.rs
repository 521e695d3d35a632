//! Layer blobs: the tar archive of a filesystem tree, compressed with gzip.
use std::io::Write;
use vstd::prelude::*;

use crate::digest::{digest_of, digest_spec};
use crate::error::BuildError;
use crate::image::{lemma_stores_none, lemma_stores_put, stores};
use crate::oci::{put_blob, LayerBlob};
use crate::strmap::StrMap;
use crate::text::concat;
use crate::tree::{item_views, opt_view, EntryKind, FsEntry};

verus! {

/// One entry of a tar archive: the header fields written and the contents.
#[verifier::ext_equal]
pub struct TarItem {
    pub path: Seq<char>,
    /// The type flag byte of the header.
    pub type_byte: u8,
    pub mode: u32,
    pub uid: u64,
    pub gid: u64,
    pub mtime: u64,
    pub device_major: Option<u32>,
    pub device_minor: Option<u32>,
    pub link: Option<Seq<char>>,
    pub data: Seq<u8>,
}

/// A tar archive being written into memory, and the header of the entry being prepared.
/// `tar::Builder` cannot be declared to Verus (its `Write` bound is refused), so it is held
/// here, opaque.
#[verifier::external_body]
pub struct TarWriter {
    inner: tar::Builder<Vec<u8>>,
    header: tar::Header,
}

/// The entries appended to a tar writer, in order.
pub uninterp spec fn tar_written(w: TarWriter) -> Seq<TarItem>;

/// The entry being prepared: none, or one whose path and contents are not yet given.
pub uninterp spec fn tar_pending(w: TarWriter) -> Seq<TarItem>;

/// The bytes of a finished tar archive holding `items` in order.
pub uninterp spec fn tar_bytes(items: Seq<TarItem>) -> Seq<u8>;

/// The gzip stream of `data` at the default level, with modification time `mtime` and the
/// operating system unknown (255) in its header.
pub uninterp spec fn gzip_encoded(data: Seq<u8>, mtime: u32) -> Seq<u8>;

/// An empty tar archive in memory, through `tar::Builder::new` over a `Vec`. Claims that it
/// holds no entries and prepares none.
#[verifier::external_body]
pub(crate) fn tar_writer() -> (r: TarWriter)
    ensures
        tar_written(r) == Seq::<TarItem>::empty(),
        tar_pending(r) == Seq::<TarItem>::empty(),
{
    TarWriter { inner: tar::Builder::new(Vec::new()), header: tar::Header::new_gnu() }
}

/// Starts the header of the next entry, through `tar::Header::new_gnu` and its setters for the
/// entry type (`tar::EntryType::new` of the flag byte), mode, owner and modification time.
/// Claims that the entry prepared has exactly these fields and no device numbers.
#[verifier::external_body]
pub(crate) fn tar_begin(w: &mut TarWriter, type_byte: u8, mode: u32, uid: u64, gid: u64, mtime: u64)
    ensures
        tar_written(*final(w)) == tar_written(*old(w)),
        tar_pending(*final(w)) == seq![TarItem {
            path: Seq::empty(),
            type_byte,
            mode,
            uid,
            gid,
            mtime,
            device_major: None,
            device_minor: None,
            link: None,
            data: Seq::empty(),
        }],
{
    let mut header = tar::Header::new_gnu();
    header.set_entry_type(tar::EntryType::new(type_byte));
    header.set_mode(mode);
    header.set_uid(uid);
    header.set_gid(gid);
    header.set_mtime(mtime);
    w.header = header;
}

/// Whether tar accepts `p` as an entry path: not empty, relative, without a NUL character and
/// without a `..` component.
pub open spec fn tar_path_ok(p: Seq<char>) -> bool {
    &&& p.len() > 0
    &&& p[0] != '/'
    &&& !p.contains('\0')
    &&& forall|i: int| 0 <= i && i + 2 <= p.len() && #[trigger] p.subrange(i, i + 2) == seq!['.', '.']
        ==> (i > 0 && p[i - 1] != '/') || (i + 2 < p.len() && p[i + 2] != '/')
}

/// A path that is not empty, relative, free of NUL characters and of two dots in a row is
/// one that tar accepts.
pub proof fn lemma_tar_path_plain(p: Seq<char>)
    requires
        p.len() > 0,
        p[0] != '/',
        forall|i: int| 0 <= i < p.len() ==> p[i] != '\0',
        forall|i: int| 0 <= i && i + 1 < p.len() ==> !(#[trigger] p[i] == '.' && p[i + 1] == '.'),
    ensures
        tar_path_ok(p),
{
    assert forall|i: int| 0 <= i && i + 2 <= p.len() && #[trigger] p.subrange(i, i + 2) == seq!['.', '.'] implies
        (i > 0 && p[i - 1] != '/') || (i + 2 < p.len() && p[i + 2] != '/') by {
        assert(p.subrange(i, i + 2)[0] == p[i]);
        assert(p.subrange(i, i + 2)[1] == p[i + 1]);
    }
}

/// Whether tar accepts `t` as a link target: not empty and without a NUL character.
pub open spec fn link_target_ok(t: Seq<char>) -> bool {
    t.len() > 0 && !t.contains('\0')
}

/// Whether tar accepts every entry of a tree: its path, and the target of each link, which
/// every link names.
pub open spec fn entries_writable(items: Seq<(String, FsEntry)>) -> bool {
    forall|i: int| 0 <= i < items.len() ==> tar_path_ok((#[trigger] items[i]).0@)
        && (is_link(items[i].1.kind) ==> (items[i].1.link matches Some(t) && link_target_ok(t@)))
}

/// Sets the device major number of the prepared header, through
/// `tar::Header::set_device_major`. Claims that it succeeds, since the header is always a GNU
/// header, and that it is recorded in the entry.
#[verifier::external_body]
fn tar_set_major(w: &mut TarWriter, major: u32) -> (r: std::io::Result<()>)
    requires
        tar_pending(*old(w)).len() == 1,
    ensures
        r is Ok,
        tar_written(*final(w)) == tar_written(*old(w)),
        r is Ok ==> tar_pending(*final(w)) == seq![TarItem { device_major: Some(major), ..tar_pending(*old(w))[0] }],
{
    w.header.set_device_major(major)
}

/// Sets the device minor number of the prepared header, through
/// `tar::Header::set_device_minor`. Claims that it succeeds, since the header is always a GNU
/// header, and that it is recorded in the entry.
#[verifier::external_body]
fn tar_set_minor(w: &mut TarWriter, minor: u32) -> (r: std::io::Result<()>)
    requires
        tar_pending(*old(w)).len() == 1,
    ensures
        r is Ok,
        tar_written(*final(w)) == tar_written(*old(w)),
        r is Ok ==> tar_pending(*final(w)) == seq![TarItem { device_minor: Some(minor), ..tar_pending(*old(w))[0] }],
{
    w.header.set_device_minor(minor)
}

/// Appends the prepared entry with its path and contents, through `tar::Header::set_size`
/// and `tar::Builder::append_data`. Claims that it succeeds on a path that tar accepts, since
/// the archive is written into memory, and that on success the entry is appended.
#[verifier::external_body]
pub(crate) fn tar_finish_data(w: &mut TarWriter, path: &str, data: &[u8]) -> (r: std::io::Result<()>)
    requires
        tar_pending(*old(w)).len() == 1,
    ensures
        tar_path_ok(path@) ==> r is Ok,
        r is Ok ==> tar_written(*final(w)) == tar_written(*old(w)).push(TarItem { path: path@, data: data@, ..tar_pending(*old(w))[0] }),
        r is Ok ==> tar_pending(*final(w)) == Seq::<TarItem>::empty(),
{
    w.header.set_size(data.len() as u64);
    w.inner.append_data(&mut w.header, path, data)
}

/// Appends the prepared entry as a link to `target`, through `tar::Header::set_size` and
/// `tar::Builder::append_link`. Claims that it succeeds on a path and a target that tar
/// accepts, since the archive is written into memory, and that on success the entry is
/// appended.
#[verifier::external_body]
fn tar_finish_link(w: &mut TarWriter, path: &str, target: &str) -> (r: std::io::Result<()>)
    requires
        tar_pending(*old(w)).len() == 1,
    ensures
        tar_path_ok(path@) && link_target_ok(target@) ==> r is Ok,
        r is Ok ==> tar_written(*final(w)) == tar_written(*old(w)).push(TarItem { path: path@, link: Some(target@), ..tar_pending(*old(w))[0] }),
        r is Ok ==> tar_pending(*final(w)) == Seq::<TarItem>::empty(),
{
    w.header.set_size(0);
    w.inner.append_link(&mut w.header, path, target)
}

/// The archive bytes, through `tar::Builder::into_inner`. Claims that it succeeds, since the
/// end blocks are written into memory, and that the bytes are the archive of the entries
/// appended.
#[verifier::external_body]
pub(crate) fn tar_into_bytes(w: TarWriter) -> (r: std::io::Result<Vec<u8>>)
    ensures
        r is Ok,
        r matches Ok(v) ==> v@ == tar_bytes(tar_written(w)),
{
    w.inner.into_inner()
}

/// Compresses `data` as a layer blob, through `flate2::GzBuilder` (modification time `mtime`,
/// operating system 255, default level), `Write::write_all` and `GzEncoder::finish`. Claims
/// that it succeeds, since it writes into memory, and that the bytes are the stream that
/// `gzip_encoded` names.
#[verifier::external_body]
fn gzip_layer(data: &[u8], mtime: u32) -> (r: std::io::Result<Vec<u8>>)
    ensures
        r is Ok,
        r matches Ok(v) ==> v@ == gzip_encoded(data@, mtime),
{
    let builder = flate2::GzBuilder::new().mtime(mtime).operating_system(255);
    let mut encoder = builder.write(Vec::new(), flate2::Compression::default());
    encoder.write_all(data)?;
    encoder.finish()
}

/// The tar type flag of an entry kind.
pub open spec fn kind_byte(k: EntryKind) -> u8 {
    match k {
        EntryKind::Regular => 48,
        EntryKind::HardLink => 49,
        EntryKind::Symlink => 50,
        EntryKind::CharDevice => 51,
        EntryKind::BlockDevice => 52,
        EntryKind::Directory => 53,
        EntryKind::Fifo => 54,
    }
}

pub open spec fn is_link(k: EntryKind) -> bool {
    k == EntryKind::Symlink || k == EntryKind::HardLink
}

/// The archive entry written for a tree entry at `path`, stamped with `mtime`.
pub open spec fn entry_item(path: Seq<char>, e: FsEntry, mtime: u64) -> TarItem {
    TarItem {
        path,
        type_byte: kind_byte(e.kind),
        mode: e.mode,
        uid: e.uid,
        gid: e.gid,
        mtime,
        device_major: e.device_major,
        device_minor: e.device_minor,
        link: if is_link(e.kind) {
            opt_view(e.link)
        } else {
            None
        },
        data: if e.kind == EntryKind::Regular {
            match e.data {
                Some(d) => d@,
                None => Seq::empty(),
            }
        } else {
            Seq::empty()
        },
    }
}

/// The archive entries of a tree, in path order.
pub open spec fn layer_items(items: Seq<(String, FsEntry)>, mtime: u64) -> Seq<TarItem>
    decreases items.len(),
{
    if items.len() == 0 {
        Seq::empty()
    } else {
        layer_items(items.drop_last(), mtime).push(entry_item(items.last().0@, items.last().1, mtime))
    }
}

/// The gzip modification time of a layer: the timestamp when it fits 32 bits, else zero.
pub open spec fn gzip_mtime(timestamp: u64) -> u32 {
    if timestamp <= u32::MAX {
        timestamp as u32
    } else {
        0
    }
}

/// Whether every link entry of a tree names its target.
pub open spec fn links_named(items: Seq<(String, FsEntry)>) -> bool {
    forall|i: int| 0 <= i < items.len() && is_link(#[trigger] items[i].1.kind) ==> items[i].1.link is Some
}

/// An entry's archive item depends on the entry's abstract value alone.
pub proof fn lemma_entry_item_view(p: Seq<char>, a: FsEntry, b: FsEntry, mtime: u64)
    requires
        a@ == b@,
    ensures
        entry_item(p, a, mtime) == entry_item(p, b, mtime),
{
    assert(opt_view(a.link) == opt_view(b.link));
    if a.kind == EntryKind::Regular {
        match (a.data, b.data) {
            (Some(x), Some(y)) => assert(x@ == y@),
            _ => {},
        }
    }
}

/// The archive items of a tree depend on its abstract items alone.
pub proof fn lemma_layer_items_view(a: Seq<(String, FsEntry)>, b: Seq<(String, FsEntry)>, mtime: u64)
    requires
        item_views(a) == item_views(b),
    ensures
        layer_items(a, mtime) == layer_items(b, mtime),
    decreases a.len(),
{
    assert(a.len() == item_views(a).len());
    assert(b.len() == item_views(b).len());
    if a.len() > 0 {
        assert(item_views(a.drop_last()) =~= item_views(a).drop_last());
        assert(item_views(b.drop_last()) =~= item_views(b).drop_last());
        lemma_layer_items_view(a.drop_last(), b.drop_last(), mtime);
        let n = a.len() - 1;
        assert(item_views(a)[n] == item_views(b)[n]);
        assert(a.last().0@ == b.last().0@);
        lemma_entry_item_view(a.last().0@, a.last().1, b.last().1, mtime);
    }
}

fn kind_flag(k: EntryKind) -> (r: u8)
    ensures
        r == kind_byte(k),
{
    match k {
        EntryKind::Regular => 48,
        EntryKind::HardLink => 49,
        EntryKind::Symlink => 50,
        EntryKind::CharDevice => 51,
        EntryKind::BlockDevice => 52,
        EntryKind::Directory => 53,
        EntryKind::Fifo => 54,
    }
}

/// Writes the tree `entries` as a gzip-compressed tar layer, every entry stamped with
/// `timestamp`, stores the blob, and returns its digest, size and diff id.
pub fn write_layer(entries: &StrMap<FsEntry>, timestamp: u64, store: &mut StrMap<Vec<u8>>) -> (r: Result<LayerBlob, BuildError>)
    requires
        old(store).wf(),
    ensures
        final(store).wf(),
        r is Err ==> final(store).view() == old(store).view(),
        r matches Err(e) ==> e is Io || (e is Invalid && !links_named(entries.items())),
        entries_writable(entries.items()) ==> r is Ok,
        r matches Ok(b) ==> links_named(entries.items()) && {
            let tar = tar_bytes(layer_items(entries.items(), timestamp));
            let gz = gzip_encoded(tar, gzip_mtime(timestamp));
            &&& b.digest@ == digest_spec(gz)
            &&& b.size == gz.len()
            &&& b.diff_id@ == digest_spec(tar)
            &&& stores(old(store).view(), final(store).view(), seq![gz])
        },
{
    let mut w = tar_writer();
    let n = entries.len();
    let mut i: usize = 0;
    let empty: Vec<u8> = Vec::new();
    assert(entries.items().take(0) =~= Seq::<(String, FsEntry)>::empty());
    while i < n
        invariant
            n == entries.items().len(),
            i <= n,
            empty@.len() == 0,
            forall|j: int| 0 <= j < i && is_link(#[trigger] entries.items()[j].1.kind) ==> entries.items()[j].1.link is Some,
            store.wf(),
            store.view() == old(store).view(),
            tar_pending(w) == Seq::<TarItem>::empty(),
            tar_written(w) == layer_items(entries.items().take(i as int), timestamp),
        decreases n - i,
    {
        let (path, e) = entries.at(i);
        tar_begin(&mut w, kind_flag(e.kind), e.mode, e.uid, e.gid, timestamp);
        let ghost item0 = tar_pending(w)[0];
        let ghost written0 = tar_written(w);
        if let Some(major) = e.device_major {
            if let Err(err) = tar_set_major(&mut w, major) {
                return Err(BuildError::Io(err));
            }
        }
        if let Some(minor) = e.device_minor {
            if let Err(err) = tar_set_minor(&mut w, minor) {
                return Err(BuildError::Io(err));
            }
        }
        assert(tar_written(w) == written0);
        assert(tar_pending(w) =~= seq![TarItem { device_major: e.device_major, device_minor: e.device_minor, ..item0 }]);
        let appended = match e.kind {
            EntryKind::Regular => match &e.data {
                Some(d) => tar_finish_data(&mut w, path.as_str(), d.as_slice()),
                None => tar_finish_data(&mut w, path.as_str(), empty.as_slice()),
            },
            EntryKind::Symlink | EntryKind::HardLink => {
                assert(is_link(entries.items()[i as int].1.kind));
                match &e.link {
                    Some(target) => tar_finish_link(&mut w, path.as_str(), target.as_str()),
                    None => {
                        return Err(BuildError::Invalid(concat("link has no target: ", path.as_str())));
                    },
                }
            },
            _ => tar_finish_data(&mut w, path.as_str(), empty.as_slice()),
        };
        if let Err(err) = appended {
            return Err(BuildError::Io(err));
        }
        proof {
            let items = entries.items();
            assert(items.take(i + 1).drop_last() =~= items.take(i as int));
            assert(items.take(i + 1).last() == items[i as int]);
            assert(tar_written(w).drop_last() == written0);
            assert(tar_written(w).last() =~~= entry_item(path@, *e, timestamp));
        }
        i = i + 1;
    }
    assert(entries.items().take(n as int) =~= entries.items());
    assert(links_named(entries.items()));
    let tar = match tar_into_bytes(w) {
        Ok(v) => v,
        Err(err) => {
            return Err(BuildError::Io(err));
        },
    };
    let mtime: u32 = if timestamp <= 0xffff_ffffu64 {
        timestamp as u32
    } else {
        0
    };
    let gz = match gzip_layer(tar.as_slice(), mtime) {
        Ok(v) => v,
        Err(err) => {
            return Err(BuildError::Io(err));
        },
    };
    let diff_id = digest_of(tar.as_slice());
    let ghost gv = gz;
    let ghost before = store.view();
    proof {
        lemma_stores_none(before);
    }
    let (digest, size) = put_blob(store, gz);
    proof {
        lemma_stores_put(before, before, store.view(), Seq::empty(), gv);
        assert(Seq::<Seq<u8>>::empty().push(gv@) =~= seq![gv@]);
    }
    Ok(LayerBlob { digest, size, diff_id })
}

} // verus!
