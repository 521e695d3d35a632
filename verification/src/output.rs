//! Writing a built layout out: as the files of an OCI layout directory, or as one tar archive.
use vstd::prelude::*;
use vstd::string::*;
use vstd::utf8::encode_utf8;

use crate::error::BuildError;
use crate::layer::{lemma_tar_path_plain, tar_path_ok, tar_begin, tar_bytes, tar_finish_data, tar_into_bytes, tar_pending, tar_writer, tar_written, TarItem};
use crate::model::OciOutput;
use crate::image::store_view;
use crate::digest::{digest_spec, hex_spec, lemma_hex_chars, sha256_spec};
use crate::model::{BuildResult, Image, ImageSet};
use crate::pipeline::{image_buildable, layout_of, lemma_builds_reproducible, listings_fit, platform_wf, set_valid, validate_image_set, Layout};
use crate::sources::SourceListing;
use crate::strmap::map_pairs;
use crate::strmap::StrMap;
use crate::text::{concat, has_prefix, starts_with, substring};

verus! {

/// The text of the `oci-layout` file.
pub open spec fn oci_layout_text() -> Seq<char> {
    seq![
        '{', '"', 'i', 'm', 'a', 'g', 'e', 'L', 'a', 'y', 'o', 'u', 't', 'V', 'e', 'r', 's', 'i', 'o', 'n',
        '"', ':', '"', '1', '.', '0', '.', '0', '"', '}', '\n',
    ]
}

/// The bytes of the `oci-layout` file.
pub open spec fn oci_layout_bytes() -> Seq<u8> {
    encode_utf8(oci_layout_text())
}

/// The prefix of a SHA-256 digest.
pub open spec fn sha256_prefix() -> Seq<char> {
    seq!['s', 'h', 'a', '2', '5', '6', ':']
}

/// The directory of SHA-256 blobs in a layout.
pub open spec fn blob_dir() -> Seq<char> {
    seq!['b', 'l', 'o', 'b', 's', '/', 's', 'h', 'a', '2', '5', '6']
}

/// The file that holds the blob stored under `key`: its digest without the algorithm.
pub open spec fn blob_path(key: Seq<char>) -> Seq<char> {
    let name = if has_prefix(key, sha256_prefix()) { key.skip(7) } else { key };
    blob_dir() + seq!['/'] + name
}

/// A directory entry of the layout archive: mode `0755`, owned by root.
pub open spec fn dir_item(path: Seq<char>, mtime: u64) -> TarItem {
    TarItem {
        path,
        type_byte: 53,
        mode: 493,
        uid: 0,
        gid: 0,
        mtime,
        device_major: None,
        device_minor: None,
        link: None,
        data: Seq::empty(),
    }
}

/// A regular file entry of the layout archive: mode `0644`, owned by root.
pub open spec fn file_item(path: Seq<char>, data: Seq<u8>, mtime: u64) -> TarItem {
    TarItem {
        path,
        type_byte: 48,
        mode: 420,
        uid: 0,
        gid: 0,
        mtime,
        device_major: None,
        device_minor: None,
        link: None,
        data,
    }
}

/// The archive entries of the blobs, in key order.
pub open spec fn blob_items(blobs: Seq<(String, Vec<u8>)>, mtime: u64) -> Seq<TarItem> {
    blobs.map_values(|b: (String, Vec<u8>)| file_item(blob_path(b.0@), b.1@, mtime))
}

/// The entries of a layout archive: the blob directories, the blobs in digest order,
/// `index.json` and `oci-layout`, every one stamped with `mtime`.
pub open spec fn layout_items(blobs: Seq<(String, Vec<u8>)>, index: Seq<u8>, mtime: u64) -> Seq<TarItem> {
    seq![dir_item(seq!['b', 'l', 'o', 'b', 's'], mtime), dir_item(blob_dir(), mtime)]
        + blob_items(blobs, mtime)
        + seq![
            file_item(seq!['i', 'n', 'd', 'e', 'x', '.', 'j', 's', 'o', 'n'], index, mtime),
            file_item(seq!['o', 'c', 'i', '-', 'l', 'a', 'y', 'o', 'u', 't'], oci_layout_bytes(), mtime),
        ]
}

/// The files of a layout directory, by path below it: the blobs in digest order,
/// `index.json` and `oci-layout`.
pub open spec fn layout_files(blobs: Seq<(String, Vec<u8>)>, index: Seq<u8>) -> Seq<(Seq<char>, Seq<u8>)> {
    blobs.map_values(|b: (String, Vec<u8>)| (blob_path(b.0@), b.1@))
        + seq![
            (seq!['i', 'n', 'd', 'e', 'x', '.', 'j', 's', 'o', 'n'], index),
            (seq!['o', 'c', 'i', '-', 'l', 'a', 'y', 'o', 'u', 't'], oci_layout_bytes()),
        ]
}

/// The views of a list of files.
pub open spec fn file_views(fs: Seq<(String, Vec<u8>)>) -> Seq<(Seq<char>, Seq<u8>)> {
    fs.map_values(|f: (String, Vec<u8>)| (f.0@, f.1@))
}

/// The bytes of the `oci-layout` file.
pub fn oci_layout() -> (r: Vec<u8>)
    ensures
        r@ == oci_layout_bytes(),
{
    let text = "{\"imageLayoutVersion\":\"1.0.0\"}\n";
    proof {
        reveal_strlit("{\"imageLayoutVersion\":\"1.0.0\"}\n");
        assert(text@ =~= oci_layout_text());
    }
    vstd::slice::slice_to_vec(text.as_bytes())
}

/// The path of the file that holds the blob stored under `key`.
pub fn blob_file(key: &str) -> (r: String)
    ensures
        r@ == blob_path(key@),
{
    proof {
        reveal_strlit("sha256:");
        reveal_strlit("blobs/sha256/");
        assert("sha256:"@ =~= sha256_prefix());
    }
    let name = if starts_with(key, "sha256:") {
        substring(key, 7, key.unicode_len())
    } else {
        key.to_owned()
    };
    let r = concat("blobs/sha256/", name.as_str());
    proof {
        assert(key@.subrange(7, key@.len() as int) =~= key@.skip(7));
        assert(r@ =~= blob_path(key@));
    }
    r
}

/// Whether tar accepts the path of every blob of a layout.
pub open spec fn blob_paths_ok(blobs: Seq<(String, Vec<u8>)>) -> bool {
    forall|i: int| 0 <= i < blobs.len() ==> tar_path_ok(blob_path((#[trigger] blobs[i]).0@))
}

/// The path of the blob stored under a digest is one that tar accepts.
pub proof fn lemma_digest_blob_path(data: Seq<u8>)
    ensures
        tar_path_ok(blob_path(digest_spec(data))),
{
    let k = digest_spec(data);
    let h = hex_spec(sha256_spec(data));
    assert(k.take(7) =~= sha256_prefix());
    assert(k.skip(7) =~= h);
    let p = blob_path(k);
    assert(p =~= blob_dir() + seq!['/'] + h);
    lemma_hex_chars(sha256_spec(data));
    assert forall|i: int| 0 <= i < p.len() implies p[i] != '\0' && p[i] != '.' by {
        if i >= 13 {
            assert(p[i] == h[i - 13]);
        }
    }
    lemma_tar_path_plain(p);
}

/// Every blob of a built layout is stored under a path that tar accepts.
pub proof fn lemma_layout_paths_ok(set: ImageSet, listings: Seq<Vec<Vec<Vec<SourceListing>>>>, out: Layout)
    requires
        layout_of(set, listings, out),
    ensures
        blob_paths_ok(out.blobs.items()),
{
    out.blobs.lemma_view();
    assert forall|i: int| 0 <= i < out.blobs.items().len() implies tar_path_ok(blob_path((#[trigger] out.blobs.items()[i]).0@)) by {
        let k = out.blobs.items()[i].0@;
        assert(out.blobs.key_seq()[i] == k);
        assert(out.blobs.view().contains_key(k));
        lemma_digest_blob_path(out.blobs.view()[k]@);
    }
}

/// Appends a directory or file entry owned by root, stamped with `mtime`.
fn append_entry(w: &mut crate::layer::TarWriter, type_byte: u8, mode: u32, path: &str, data: &[u8], mtime: u64) -> (r: std::io::Result<()>)
    requires
        tar_pending(*old(w)).len() == 0,
    ensures
        r is Ok ==> tar_written(*final(w)) == tar_written(*old(w)).push(TarItem {
            path: path@,
            type_byte,
            mode,
            uid: 0,
            gid: 0,
            mtime,
            device_major: None,
            device_minor: None,
            link: None,
            data: data@,
        }),
        r is Ok ==> tar_pending(*final(w)).len() == 0,
        tar_path_ok(path@) ==> r is Ok,
{
    tar_begin(w, type_byte, mode, 0, 0, mtime);
    tar_finish_data(w, path, data)
}

impl Layout {
    /// The layout as one tar archive: the blob directories, the blobs in digest order,
    /// `index.json` and `oci-layout`, every entry stamped with `timestamp`.
    pub fn archive(&self, timestamp: u64) -> (r: Result<Vec<u8>, BuildError>)
        ensures
            r matches Ok(v) ==> v@ == tar_bytes(layout_items(self.blobs.items(), self.index@, timestamp)),
            r matches Err(e) ==> e is Io,
            blob_paths_ok(self.blobs.items()) ==> r is Ok,
    {
        let mut w = tar_writer();
        let empty: Vec<u8> = Vec::new();
        proof {
            reveal_strlit("blobs");
            reveal_strlit("blobs/sha256");
            assert("blobs"@ =~= seq!['b', 'l', 'o', 'b', 's']);
            assert("blobs/sha256"@ =~= blob_dir());
            lemma_tar_path_plain("blobs"@);
            lemma_tar_path_plain("blobs/sha256"@);
        }
        if let Err(e) = append_entry(&mut w, 53, 0o755u32, "blobs", empty.as_slice(), timestamp) {
            return Err(BuildError::Io(e));
        }
        if let Err(e) = append_entry(&mut w, 53, 0o755u32, "blobs/sha256", empty.as_slice(), timestamp) {
            return Err(BuildError::Io(e));
        }
        let ghost head = seq![dir_item(seq!['b', 'l', 'o', 'b', 's'], timestamp), dir_item(blob_dir(), timestamp)];
        assert(empty@ =~= Seq::<u8>::empty());
        assert(tar_written(w) =~= head);
        let ghost items = self.blobs.items();
        let n = self.blobs.len();
        let mut i: usize = 0;
        while i < n
            invariant
                n == items.len(),
                items == self.blobs.items(),
                i <= n,
                tar_pending(w).len() == 0,
                tar_written(w) == head + blob_items(items.take(i as int), timestamp),
            decreases n - i,
        {
            let (key, data) = self.blobs.at(i);
            let path = blob_file(key.as_str());
            let ghost before = tar_written(w);
            if let Err(e) = append_entry(&mut w, 48, 0o644u32, path.as_str(), data.as_slice(), timestamp) {
                return Err(BuildError::Io(e));
            }
            proof {
                assert(items.take(i + 1) =~= items.take(i as int).push(items[i as int]));
                assert(blob_items(items.take(i + 1), timestamp) =~= blob_items(items.take(i as int), timestamp).push(
                    file_item(blob_path(items[i as int].0@), items[i as int].1@, timestamp),
                ));
                assert(tar_written(w) =~= head + blob_items(items.take(i + 1), timestamp));
            }
            i = i + 1;
        }
        assert(items.take(n as int) =~= items);
        proof {
            reveal_strlit("index.json");
            reveal_strlit("oci-layout");
            assert("index.json"@ =~= seq!['i', 'n', 'd', 'e', 'x', '.', 'j', 's', 'o', 'n']);
            assert("oci-layout"@ =~= seq!['o', 'c', 'i', '-', 'l', 'a', 'y', 'o', 'u', 't']);
            lemma_tar_path_plain("index.json"@);
            lemma_tar_path_plain("oci-layout"@);
        }
        if let Err(e) = append_entry(&mut w, 48, 0o644u32, "index.json", self.index.as_slice(), timestamp) {
            return Err(BuildError::Io(e));
        }
        let layout_file = oci_layout();
        if let Err(e) = append_entry(&mut w, 48, 0o644u32, "oci-layout", layout_file.as_slice(), timestamp) {
            return Err(BuildError::Io(e));
        }
        assert(tar_written(w) =~= layout_items(items, self.index@, timestamp));
        match tar_into_bytes(w) {
            Ok(v) => Ok(v),
            Err(e) => Err(BuildError::Io(e)),
        }
    }

    /// The files of the layout as a directory, by path below it.
    pub fn files(&self) -> (r: Vec<(String, Vec<u8>)>)
        ensures
            file_views(r@) == layout_files(self.blobs.items(), self.index@),
    {
        let ghost items = self.blobs.items();
        let mut out: Vec<(String, Vec<u8>)> = Vec::new();
        let n = self.blobs.len();
        let mut i: usize = 0;
        while i < n
            invariant
                n == items.len(),
                items == self.blobs.items(),
                i <= n,
                file_views(out@) == items.take(i as int).map_values(|b: (String, Vec<u8>)| (blob_path(b.0@), b.1@)),
            decreases n - i,
        {
            let (key, data) = self.blobs.at(i);
            let ghost before = out@;
            out.push((blob_file(key.as_str()), data.clone()));
            proof {
                assert(items.take(i + 1) =~= items.take(i as int).push(items[i as int]));
                assert(file_views(out@) =~= file_views(before).push((blob_path(key@), data@)));
                assert(file_views(out@) =~= items.take(i + 1).map_values(|b: (String, Vec<u8>)| (blob_path(b.0@), b.1@)));
            }
            i = i + 1;
        }
        assert(items.take(n as int) =~= items);
        let ghost before = out@;
        proof {
            reveal_strlit("index.json");
            reveal_strlit("oci-layout");
            assert("index.json"@ =~= seq!['i', 'n', 'd', 'e', 'x', '.', 'j', 's', 'o', 'n']);
            assert("oci-layout"@ =~= seq!['o', 'c', 'i', '-', 'l', 'a', 'y', 'o', 'u', 't']);
        }
        out.push(("index.json".to_owned(), self.index.clone()));
        out.push(("oci-layout".to_owned(), oci_layout()));
        assert(file_views(out@) =~= layout_files(items, self.index@));
        out
    }
}

/// What exporting a layout writes: the bytes of one archive, or the files of a directory.
#[derive(Debug)]
pub enum OutputFiles {
    /// A tar archive holding the layout.
    Archive(Vec<u8>),
    /// The files of a layout directory, by path below it.
    Directory(Vec<(String, Vec<u8>)>),
}

impl OciOutput {
    /// What exporting `layout` to this output writes, stamped with `source_date_epoch`; an
    /// error when the destination already exists.
    pub fn export_layout(&self, layout: &Layout, source_date_epoch: u64, destination_exists: bool) -> (r: Result<OutputFiles, BuildError>)
        ensures
            destination_exists ==> r matches Err(BuildError::Invalid(_)),
            !destination_exists ==> match self {
                OciOutput::Archive(_) => match r {
                    Ok(OutputFiles::Archive(v)) => v@ == tar_bytes(layout_items(layout.blobs.items(), layout.index@, source_date_epoch)),
                    Ok(OutputFiles::Directory(_)) => false,
                    Err(e) => e is Io && !blob_paths_ok(layout.blobs.items()),
                },
                OciOutput::Layout(_) => r matches Ok(OutputFiles::Directory(fs))
                    && file_views(fs@) == layout_files(layout.blobs.items(), layout.index@),
            },
    {
        if destination_exists {
            return Err(BuildError::Invalid(concat("output already exists: ", self.path())));
        }
        match self {
            OciOutput::Archive(_) => match layout.archive(source_date_epoch) {
                Ok(v) => Ok(OutputFiles::Archive(v)),
                Err(e) => Err(e),
            },
            OciOutput::Layout(_) => Ok(OutputFiles::Directory(layout.files())),
        }
    }
}

/// The blobs of a well-formed store are its stored bytes in digest order.
proof fn lemma_blob_pairs(t: StrMap<Vec<u8>>)
    requires
        t.wf(),
    ensures
        t.items().map_values(|kv: (String, Vec<u8>)| (kv.0@, kv.1@)) == map_pairs(store_view(t.view())),
{
    t.lemma_items_are_map_pairs();
    t.lemma_view();
    assert(store_view(t.view()).dom() =~= t.view().dom());
    let lhs = t.items().map_values(|kv: (String, Vec<u8>)| (kv.0@, kv.1@));
    let pairs = t.items().map_values(|kv: (String, Vec<u8>)| (kv.0@, kv.1));
    assert forall|i: int| 0 <= i < lhs.len() implies lhs[i] == map_pairs(store_view(t.view()))[i] by {
        assert(pairs[i] == map_pairs(t.view())[i]);
        assert(t.view()[t.items()[i].0@] == t.items()[i].1);
    }
    assert(lhs =~= map_pairs(store_view(t.view())));
}

/// Exporting the layouts of two builds of an image set from the same sources gives the same
/// archive entries, stamped alike, and the same directory files.
pub proof fn lemma_outputs_reproducible(
    set: ImageSet,
    listings: Seq<Vec<Vec<Vec<SourceListing>>>>,
    a: Layout,
    b: Layout,
    timestamp: u64,
)
    requires
        layout_of(set, listings, a),
        layout_of(set, listings, b),
    ensures
        layout_items(a.blobs.items(), a.index@, timestamp) == layout_items(b.blobs.items(), b.index@, timestamp),
        layout_files(a.blobs.items(), a.index@) == layout_files(b.blobs.items(), b.index@),
{
    lemma_builds_reproducible(set, listings, a, b);
    lemma_blob_pairs(a.blobs);
    lemma_blob_pairs(b.blobs);
    let ia = a.blobs.items();
    let ib = b.blobs.items();
    let va = ia.map_values(|kv: (String, Vec<u8>)| (kv.0@, kv.1@));
    let vb = ib.map_values(|kv: (String, Vec<u8>)| (kv.0@, kv.1@));
    assert(va == vb);
    assert(ia.len() == va.len() && ib.len() == vb.len());
    assert forall|i: int| 0 <= i < ia.len() implies ia[i].0@ == ib[i].0@ && ia[i].1@ == ib[i].1@ by {
        assert(va[i] == vb[i]);
    }
    assert(blob_items(ia, timestamp) =~= blob_items(ib, timestamp));
    assert(ia.map_values(|f: (String, Vec<u8>)| (blob_path(f.0@), f.1@)) =~= ib.map_values(|f: (String, Vec<u8>)| (blob_path(f.0@), f.1@)));
}

/// Whether `files` is what exporting `layout` to `output` writes, stamped with `timestamp`.
pub open spec fn exported(output: OciOutput, layout: Layout, timestamp: u64, files: OutputFiles) -> bool {
    match output {
        OciOutput::Archive(_) => files matches OutputFiles::Archive(v)
            && v@ == tar_bytes(layout_items(layout.blobs.items(), layout.index@, timestamp)),
        OciOutput::Layout(_) => files matches OutputFiles::Directory(fs)
            && file_views(fs@) == layout_files(layout.blobs.items(), layout.index@),
    }
}

impl ImageSet {
    /// Builds the image set from the sources read in `listings` and returns its build result
    /// with what exporting it to `output` writes; an error when the set cannot be built or the
    /// destination already exists.
    pub fn build(&self, listings: Vec<Vec<Vec<Vec<SourceListing>>>>, output: &OciOutput, destination_exists: bool) -> (r: Result<(BuildResult, OutputFiles), BuildError>)
        requires
            listings@.len() == self.spec_images().len(),
            forall|i: int| 0 <= i < listings@.len() ==> (#[trigger] listings@[i])@.len() == self.spec_images()[i].platforms@.len(),
            forall|i: int, p: int| 0 <= i < listings@.len() && 0 <= p < self.spec_images()[i].platforms@.len()
                ==> listings_fit(self.spec_images()[i].platforms@[p].layers@, (#[trigger] listings@[i]@[p])@),
            forall|i: int, p: int| 0 <= i < self.spec_images().len() && 0 <= p < self.spec_images()[i].platforms@.len()
                ==> platform_wf(#[trigger] self.spec_images()[i].platforms@[p]),
        ensures
            !set_valid(self.spec_images(), self.spec_source_date_epoch()) ==> r matches Err(BuildError::Invalid(_)),
            set_valid(self.spec_images(), self.spec_source_date_epoch()) && destination_exists ==> r matches Err(BuildError::Invalid(_)),
            set_valid(self.spec_images(), self.spec_source_date_epoch()) && !destination_exists && (forall|i: int|
                0 <= i < self.spec_images().len() ==> image_buildable(#[trigger] self.spec_images()[i], listings@[i]@)) ==> r is Ok,
            r matches Ok(res) ==> exists|out: Layout|
                #[trigger] layout_of(*self, listings@, out) && res.0 == out.result
                    && exported(*output, out, self.spec_source_date_epoch(), res.1),
    {
        match validate_image_set(self) {
            Ok(()) => {},
            Err(e) => {
                return Err(e);
            },
        }
        if destination_exists {
            return Err(BuildError::Invalid(concat("output already exists: ", output.path())));
        }
        let layout = match self.assemble(listings) {
            Ok(l) => l,
            Err(e) => {
                return Err(e);
            },
        };
        proof {
            lemma_layout_paths_ok(*self, listings@, layout);
        }
        let files = match output.export_layout(&layout, self.source_date_epoch(), false) {
            Ok(f) => f,
            Err(e) => {
                return Err(e);
            },
        };
        let ghost out = layout;
        assert(exported(*output, out, self.spec_source_date_epoch(), files));
        Ok((layout.result, files))
    }
}

impl Image {
    /// Builds this image alone, with timestamp zero, from the sources read in `listings` and
    /// returns its build result with what exporting it to `output` writes; an error when it
    /// cannot be built or the destination already exists.
    pub fn build(self, listings: Vec<Vec<Vec<SourceListing>>>, output: &OciOutput, destination_exists: bool) -> (r: Result<(BuildResult, OutputFiles), BuildError>)
        requires
            listings@.len() == self.platforms@.len(),
            forall|p: int| 0 <= p < self.platforms@.len() ==> listings_fit(self.platforms@[p].layers@, (#[trigger] listings@[p])@),
            forall|p: int| 0 <= p < self.platforms@.len() ==> platform_wf(#[trigger] self.platforms@[p]),
        ensures
            !set_valid(seq![self], 0) ==> r matches Err(BuildError::Invalid(_)),
            set_valid(seq![self], 0) && destination_exists ==> r matches Err(BuildError::Invalid(_)),
            set_valid(seq![self], 0) && !destination_exists && image_buildable(self, listings@) ==> r is Ok,
            r matches Ok(res) ==> exists|set: ImageSet, out: Layout|
                set.spec_images() == seq![self] && set.spec_source_date_epoch() == 0 && #[trigger] layout_of(set, seq![listings], out)
                    && res.0 == out.result && exported(*output, out, 0, res.1),
    {
        let ghost me = self;
        let mut images: Vec<Image> = Vec::new();
        images.push(self);
        let set = ImageSet::new(images);
        let mut all: Vec<Vec<Vec<Vec<SourceListing>>>> = Vec::new();
        all.push(listings);
        assert(set.spec_images() =~= seq![me]);
        assert(all@ =~= seq![listings]);
        set.build(all, output, destination_exists)
    }
}

} // verus!
