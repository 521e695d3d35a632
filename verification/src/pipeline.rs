//! Building platform images from their sources, and image sets into an OCI layout.
use vstd::prelude::*;
use vstd::string::*;

use crate::archive::{applied_layer, apply_base_layer, compression_spec, Compression};
use crate::digest::digest_spec;
use crate::error::BuildError;
use crate::digest::digest_of;
use crate::image::{
    lemma_put_all_concat, put_all, store_view, lemma_stores_concat, lemma_stores_none, lemma_stores_put, stores, content_addressed, index_descriptor, initial_config, lemma_platform_built_view, lemma_sorted_by_platform_views, insert_sorted, media_types, platform_built, platform_inputs,
    prepared_for, rootfs_parts, sorted_by_platform,
};
use crate::json::json_text;
use crate::oci::{descriptors_json, index_bytes, index_json, json_bytes, put_blob, ref_name_key};
use crate::model::{BuildResult, Image, ImageSet};
use crate::platform::Platform;
use crate::text::{concat, seq_lt, str_eq, str_lt, lemma_seq_lt_irreflexive, lemma_seq_lt_transitive, lemma_seq_lt_trichotomy};
use crate::layer::{entries_writable, is_link, link_target_ok, links_named, tar_path_ok, gzip_encoded, gzip_mtime, layer_items, lemma_layer_items_view, tar_bytes, write_layer};
use crate::model::{BaseLayer, Layer, PlatformImage};
use crate::oci::{blob_view, blob_views, desc_view, DescriptorView, lemma_descriptors_json_view, platform_view, text_pairs, Descriptor, LayerBlob};
use crate::sources::{collect_all, lemma_collect_all_views, same_tree_view, SourceListing};
use crate::tree::{lemma_item_views_pairs, view_map, EntryView};
use crate::strmap::StrMap;
use crate::tree::FsEntry;

verus! {

/// Whether `b` describes the layer blob written for the tree `items` stamped with `timestamp`.
pub open spec fn layer_blob_of(b: LayerBlob, items: Seq<(String, FsEntry)>, timestamp: u64) -> bool {
    let tar = tar_bytes(layer_items(items, timestamp));
    let gz = gzip_encoded(tar, gzip_mtime(timestamp));
    &&& b.digest@ == digest_spec(gz)
    &&& b.size == gz.len()
    &&& b.diff_id@ == digest_spec(tar)
}

/// Whether `b` is the blob of a layer whose mappings copied the sources read in `listings`.
pub open spec fn layer_from_sources(layer: Layer, listings: Vec<SourceListing>, b: LayerBlob, timestamp: u64) -> bool {
    exists|t: StrMap<FsEntry>|
        #![trigger t.items()]
        t.wf() && collect_all(layer.files@, listings@, Map::empty()) == Some(t.view()) && layer_blob_of(b, t.items(), timestamp)
}

/// The compressed archive written for the tree `items` stamped with `timestamp`.
pub open spec fn layer_bytes(items: Seq<(String, FsEntry)>, timestamp: u64) -> Seq<u8> {
    gzip_encoded(tar_bytes(layer_items(items, timestamp)), gzip_mtime(timestamp))
}

/// Whether `bytes` is the blob written for a layer whose mappings copied the sources read in
/// `listings`.
pub open spec fn layer_written(layer: Layer, listings: Vec<SourceListing>, bytes: Seq<u8>, timestamp: u64) -> bool {
    exists|t: StrMap<FsEntry>|
        #![trigger t.items()]
        t.wf() && collect_all(layer.files@, listings@, Map::empty()) == Some(t.view()) && bytes == layer_bytes(t.items(), timestamp)
}

/// Whether the listings match the mappings of the layers, one per mapping.
pub open spec fn listings_fit(layers: Seq<Layer>, listings: Seq<Vec<SourceListing>>) -> bool {
    &&& listings.len() == layers.len()
    &&& forall|l: int| 0 <= l < listings.len() ==> #[trigger] listings[l]@.len() == layers[l].files@.len()
}

/// The tree of abstract entries after applying the base layers in order, or `None` when one
/// cannot be applied.
pub open spec fn flattened_base(layers: Seq<BaseLayer>) -> Option<Map<Seq<char>, EntryView>>
    decreases layers.len(),
{
    if layers.len() == 0 {
        Some(Map::empty())
    } else {
        match flattened_base(layers.drop_last()) {
            None => None,
            Some(t) => applied_layer(t, layers.last()),
        }
    }
}

/// Whether no base layer is zstd-compressed: setting a zstd decoder up can fail whatever the
/// layer holds, so a build is owed only without one.
pub open spec fn zstd_free(layers: Seq<BaseLayer>) -> bool {
    forall|i: int| 0 <= i < layers.len() ==> compression_spec(#[trigger] layers[i].spec_media_type()) != Some(Compression::Zstd)
}

/// The tree after the mappings of the layers copy the sources read in `listings`, layer by
/// layer, or `None` on an error.
pub open spec fn collected_layers(layers: Seq<Layer>, listings: Seq<Vec<SourceListing>>, start: Map<Seq<char>, FsEntry>) -> Option<Map<Seq<char>, FsEntry>>
    decreases layers.len(),
{
    if layers.len() == 0 {
        Some(start)
    } else {
        match collected_layers(layers.drop_last(), listings.drop_last(), start) {
            None => None,
            Some(t) => collect_all(layers.last().files@, listings.last()@, t),
        }
    }
}

/// Whether `b` is the one layer of a flattened image: the blob of the tree that the base layers
/// make, with the new layers' sources copied over it.
pub open spec fn flattened_blob(base: Seq<BaseLayer>, layers: Seq<Layer>, listings: Seq<Vec<SourceListing>>, b: LayerBlob, timestamp: u64) -> bool {
    exists|s: StrMap<FsEntry>, t: StrMap<FsEntry>|
        #![trigger s.view(), t.items()]
        flattened_base(base) == Some(view_map(s.view())) && t.wf() && collected_layers(layers, listings, s.view()) == Some(t.view())
            && layer_blob_of(b, t.items(), timestamp)
}

/// Whether `bytes` is the one layer blob written for a flattened image.
pub open spec fn flattened_written(base: Seq<BaseLayer>, layers: Seq<Layer>, listings: Seq<Vec<SourceListing>>, bytes: Seq<u8>, timestamp: u64) -> bool {
    exists|s: StrMap<FsEntry>, t: StrMap<FsEntry>|
        #![trigger s.view(), t.items()]
        flattened_base(base) == Some(view_map(s.view())) && t.wf() && collected_layers(layers, listings, s.view()) == Some(t.view())
            && bytes == layer_bytes(t.items(), timestamp)
}

/// The tree of a flattened image: the base layers applied in order, then the new layers'
/// sources copied over them; `None` when a base layer cannot be applied or a source cannot be
/// copied.
pub open spec fn flattened_tree(base: Seq<BaseLayer>, layers: Seq<Layer>, listings: Seq<Vec<SourceListing>>) -> Option<Map<Seq<char>, FsEntry>> {
    match flattened_base(base) {
        None => None,
        Some(v) => collected_layers(layers, listings, choose|m: Map<Seq<char>, FsEntry>| #[trigger] view_map(m) == v),
    }
}

/// Whether every link entry of a tree of abstract entries names its target.
pub open spec fn links_named_view(m: Map<Seq<char>, EntryView>) -> bool {
    forall|k: Seq<char>| #[trigger] m.contains_key(k) && is_link(m[k].kind) ==> m[k].link is Some
}

/// Whether tar accepts every entry of a tree of abstract entries: its path, and the target of
/// each link, which every link names.
pub open spec fn writable_view(m: Map<Seq<char>, EntryView>) -> bool {
    forall|k: Seq<char>| #[trigger] m.contains_key(k) ==> tar_path_ok(k)
        && (is_link(m[k].kind) ==> (m[k].link matches Some(t) && link_target_ok(t)))
}

/// A tree whose abstract entries tar accepts has entries that tar accepts.
proof fn lemma_writable_view(t: StrMap<FsEntry>)
    requires
        t.wf(),
        writable_view(view_map(t.view())),
    ensures
        entries_writable(t.items()),
{
    t.lemma_view();
    assert forall|i: int| 0 <= i < t.items().len() implies tar_path_ok((#[trigger] t.items()[i]).0@)
        && (is_link(t.items()[i].1.kind) ==> (t.items()[i].1.link matches Some(x) && link_target_ok(x@))) by {
        let k = t.items()[i].0@;
        assert(t.view()[k] == t.items()[i].1);
        assert(t.key_seq()[i] == k);
        assert(t.view().contains_key(k));
        assert(view_map(t.view()).contains_key(k));
    }
}

/// A tree whose abstract link entries name their targets has its link items named.
proof fn lemma_links_named_view(t: StrMap<FsEntry>)
    requires
        t.wf(),
        links_named_view(view_map(t.view())),
    ensures
        links_named(t.items()),
{
    t.lemma_view();
    assert forall|i: int| 0 <= i < t.items().len() && is_link(#[trigger] t.items()[i].1.kind) implies t.items()[i].1.link is Some by {
        let k = t.items()[i].0@;
        assert(t.view()[k] == t.items()[i].1);
        assert(t.key_seq()[i] == k);
        assert(t.view().contains_key(k));
        assert(view_map(t.view()).contains_key(k));
    }
}

/// When the base layers up to some point cannot be applied, neither can all of them.
proof fn lemma_flattened_base_prefix(layers: Seq<BaseLayer>, j: int)
    requires
        0 <= j <= layers.len(),
        flattened_base(layers.take(j)) is None,
    ensures
        flattened_base(layers) is None,
    decreases layers.len(),
{
    if j == layers.len() {
        assert(layers.take(j) =~= layers);
    } else {
        assert(layers.drop_last().take(j) =~= layers.take(j));
        lemma_flattened_base_prefix(layers.drop_last(), j);
    }
}

/// When the sources of the layers up to some point cannot be copied, neither can those of
/// all of them.
proof fn lemma_collected_prefix(layers: Seq<Layer>, listings: Seq<Vec<SourceListing>>, start: Map<Seq<char>, FsEntry>, l: int)
    requires
        0 <= l <= layers.len(),
        listings.len() == layers.len(),
        collected_layers(layers.take(l), listings.take(l), start) is None,
    ensures
        collected_layers(layers, listings, start) is None,
    decreases layers.len(),
{
    if l == layers.len() {
        assert(layers.take(l) =~= layers);
        assert(listings.take(l) =~= listings);
    } else {
        assert(layers.drop_last().take(l) =~= layers.take(l));
        assert(listings.drop_last().take(l) =~= listings.take(l));
        lemma_collected_prefix(layers.drop_last(), listings.drop_last(), start, l);
    }
}

/// Writes the whole filesystem of a flattened image as one layer: the base layers applied in
/// order, then the new layers' sources copied over them.
pub fn build_flattened_layer(
    base_layers: &Vec<BaseLayer>,
    local_layers: &Vec<Layer>,
    listings: Vec<Vec<SourceListing>>,
    timestamp: u64,
    store: &mut StrMap<Vec<u8>>,
) -> (r: Result<LayerBlob, BuildError>)
    requires
        old(store).wf(),
        listings_fit(local_layers@, listings@),
    ensures
        final(store).wf(),
        content_addressed(old(store).view()) ==> content_addressed(final(store).view()),
        flattened_tree(base_layers@, local_layers@, listings@) is None ==> r is Err,
        r matches Err(e) ==> match flattened_tree(base_layers@, local_layers@, listings@) {
            None => true,
            Some(t) => e is Io || (e is Invalid && !links_named_view(view_map(t))),
        },
        zstd_free(base_layers@) ==> (flattened_tree(base_layers@, local_layers@, listings@) matches Some(t) && writable_view(view_map(t)) ==> r is Ok),
        r matches Ok(b) ==> flattened_blob(base_layers@, local_layers@, listings@, b, timestamp),
        r is Ok ==> exists|bytes: Seq<u8>|
            #[trigger] flattened_written(base_layers@, local_layers@, listings@, bytes, timestamp)
                && stores(old(store).view(), final(store).view(), seq![bytes]),
{
    let mut entries: StrMap<FsEntry> = StrMap::new();
    let mut j: usize = 0;
    assert(view_map(entries.view()) =~= Map::<Seq<char>, EntryView>::empty());
    assert(base_layers@.take(0) =~= Seq::<BaseLayer>::empty());
    while j < base_layers.len()
        invariant
            j <= base_layers@.len(),
            entries.wf(),
            store.wf(),
            flattened_base(base_layers@.take(j as int)) == Some(view_map(entries.view())),
        decreases base_layers@.len() - j,
    {
        proof {
            assert(base_layers@.take(j + 1).drop_last() =~= base_layers@.take(j as int));
            assert(base_layers@.take(j + 1).last() == base_layers@[j as int]);
        }
        match apply_base_layer(&base_layers[j], &mut entries) {
            Ok(()) => {},
            Err(e) => {
                proof {
                    if flattened_base(base_layers@.take(j + 1)) is None {
                        lemma_flattened_base_prefix(base_layers@, j + 1);
                    }
                }
                return Err(e);
            },
        }
        j = j + 1;
    }
    assert(base_layers@.take(j as int) =~= base_layers@);
    let ghost start = entries;
    let ghost ls = listings@;
    let mut rest = listings;
    let mut l: usize = 0;
    assert(ls.skip(0) =~= ls);
    assert(local_layers@.take(0) =~= Seq::<Layer>::empty());
    while l < local_layers.len()
        invariant
            l <= local_layers@.len(),
            listings_fit(local_layers@, ls),
            rest@ == ls.skip(l as int),
            entries.wf(),
            store.wf(),
            flattened_base(base_layers@) == Some(view_map(start.view())),
            ls == listings@,
            collected_layers(local_layers@.take(l as int), ls.take(l as int), start.view()) == Some(entries.view()),
        decreases local_layers@.len() - l,
    {
        let listing = rest.remove(0);
        proof {
            assert(listing == ls[l as int]);
            assert(rest@ =~= ls.skip(l + 1));
            assert(local_layers@.take(l + 1).drop_last() =~= local_layers@.take(l as int));
            assert(ls.take(l + 1).drop_last() =~= ls.take(l as int));
        }
        let ghost pre = entries.view();
        proof {
            assert(local_layers@.take(l + 1).last() == local_layers@[l as int]);
            assert(ls.take(l + 1).last() == ls[l as int]);
        }
        match local_layers[l].collect_into(listing, &mut entries) {
            Ok(()) => {},
            Err(e) => {
                proof {
                    assert(collect_all(local_layers@[l as int].files@, ls[l as int]@, pre) is None);
                    assert(collected_layers(local_layers@.take(l + 1), ls.take(l + 1), start.view()) is None);
                    lemma_collected_prefix(local_layers@, ls, start.view(), l + 1);
                    let m = choose|m: Map<Seq<char>, FsEntry>| #[trigger] view_map(m) == view_map(start.view());
                    lemma_collected_layers_views(local_layers@, ls, start.view(), m);
                }
                return Err(e);
            },
        }
        l = l + 1;
    }
    proof {
        assert(local_layers@.take(l as int) =~= local_layers@);
        assert(ls.take(l as int) =~= ls);
    }
    let ghost before = store.view();
    let r = write_layer(&entries, timestamp, store);
    assert(flattened_base(base_layers@) == Some(view_map(start.view())));
    proof {
        let m = choose|m: Map<Seq<char>, FsEntry>| #[trigger] view_map(m) == view_map(start.view());
        lemma_collected_layers_views(local_layers@, ls, start.view(), m);
        if r is Err && flattened_tree(base_layers@, local_layers@, listings@) is Some {
            let t = flattened_tree(base_layers@, local_layers@, listings@)->Some_0;
            if links_named_view(view_map(t)) {
                lemma_links_named_view(entries);
            }
            if writable_view(view_map(t)) {
                lemma_writable_view(entries);
            }
        }
        if r is Ok {
            let bytes = layer_bytes(entries.items(), timestamp);
            assert(before == old(store).view());
            assert(flattened_written(base_layers@, local_layers@, listings@, bytes, timestamp));
        }
    }
    r
}

/// The blob of a tree depends on the tree's abstract entries alone.
proof fn lemma_blob_of_views(b1: LayerBlob, b2: LayerBlob, t1: StrMap<FsEntry>, t2: StrMap<FsEntry>, timestamp: u64)
    requires
        t1.wf(),
        t2.wf(),
        view_map(t1.view()) == view_map(t2.view()),
        layer_blob_of(b1, t1.items(), timestamp),
        layer_blob_of(b2, t2.items(), timestamp),
    ensures
        blob_view(b1) == blob_view(b2),
{
    lemma_item_views_pairs(t1);
    lemma_item_views_pairs(t2);
    lemma_layer_items_view(t1.items(), t2.items(), timestamp);
}

/// A layer built from the same sources has the same blob.
pub proof fn lemma_layer_from_sources_unique(layer: Layer, listings: Vec<SourceListing>, b1: LayerBlob, b2: LayerBlob, timestamp: u64)
    requires
        layer_from_sources(layer, listings, b1, timestamp),
        layer_from_sources(layer, listings, b2, timestamp),
    ensures
        blob_view(b1) == blob_view(b2),
{
    let t1 = choose|t: StrMap<FsEntry>|
        #![trigger t.items()]
        t.wf() && collect_all(layer.files@, listings@, Map::empty()) == Some(t.view()) && layer_blob_of(b1, t.items(), timestamp);
    let t2 = choose|t: StrMap<FsEntry>|
        #![trigger t.items()]
        t.wf() && collect_all(layer.files@, listings@, Map::empty()) == Some(t.view()) && layer_blob_of(b2, t.items(), timestamp);
    lemma_blob_of_views(b1, b2, t1, t2, timestamp);
}

/// The archive written for a tree depends on the tree's abstract entries alone.
proof fn lemma_bytes_of_views(t1: StrMap<FsEntry>, t2: StrMap<FsEntry>, timestamp: u64)
    requires
        t1.wf(),
        t2.wf(),
        view_map(t1.view()) == view_map(t2.view()),
    ensures
        layer_bytes(t1.items(), timestamp) == layer_bytes(t2.items(), timestamp),
{
    lemma_item_views_pairs(t1);
    lemma_item_views_pairs(t2);
    lemma_layer_items_view(t1.items(), t2.items(), timestamp);
}

/// A layer built from the same sources writes the same blob.
pub proof fn lemma_layer_written_unique(layer: Layer, listings: Vec<SourceListing>, a: Seq<u8>, b: Seq<u8>, timestamp: u64)
    requires
        layer_written(layer, listings, a, timestamp),
        layer_written(layer, listings, b, timestamp),
    ensures
        a == b,
{
    let t1 = choose|t: StrMap<FsEntry>|
        #![trigger t.items()]
        t.wf() && collect_all(layer.files@, listings@, Map::empty()) == Some(t.view()) && a == layer_bytes(t.items(), timestamp);
    let t2 = choose|t: StrMap<FsEntry>|
        #![trigger t.items()]
        t.wf() && collect_all(layer.files@, listings@, Map::empty()) == Some(t.view()) && b == layer_bytes(t.items(), timestamp);
    lemma_bytes_of_views(t1, t2, timestamp);
}

/// Copying the layers' sources over trees with the same abstract entries gives trees with the
/// same abstract entries.
proof fn lemma_collected_layers_views(
    layers: Seq<Layer>,
    listings: Seq<Vec<SourceListing>>,
    s1: Map<Seq<char>, FsEntry>,
    s2: Map<Seq<char>, FsEntry>,
)
    requires
        view_map(s1) == view_map(s2),
    ensures
        same_tree_view(collected_layers(layers, listings, s1), collected_layers(layers, listings, s2)),
    decreases layers.len(),
{
    if layers.len() > 0 {
        lemma_collected_layers_views(layers.drop_last(), listings.drop_last(), s1, s2);
        match (collected_layers(layers.drop_last(), listings.drop_last(), s1), collected_layers(layers.drop_last(), listings.drop_last(), s2)) {
            (Some(a), Some(b)) => lemma_collect_all_views(layers.last().files@, listings.last()@, a, b),
            _ => {},
        }
    }
}

/// The flattened layer of the same base layers and sources has the same blob.
pub proof fn lemma_flattened_unique(
    base: Seq<BaseLayer>,
    layers: Seq<Layer>,
    listings: Seq<Vec<SourceListing>>,
    b1: LayerBlob,
    b2: LayerBlob,
    timestamp: u64,
)
    requires
        flattened_blob(base, layers, listings, b1, timestamp),
        flattened_blob(base, layers, listings, b2, timestamp),
    ensures
        blob_view(b1) == blob_view(b2),
{
    let (s1, t1) = choose|s: StrMap<FsEntry>, t: StrMap<FsEntry>|
        #![trigger s.view(), t.items()]
        flattened_base(base) == Some(view_map(s.view())) && t.wf() && collected_layers(layers, listings, s.view()) == Some(t.view())
            && layer_blob_of(b1, t.items(), timestamp);
    let (s2, t2) = choose|s: StrMap<FsEntry>, t: StrMap<FsEntry>|
        #![trigger s.view(), t.items()]
        flattened_base(base) == Some(view_map(s.view())) && t.wf() && collected_layers(layers, listings, s.view()) == Some(t.view())
            && layer_blob_of(b2, t.items(), timestamp);
    lemma_collected_layers_views(layers, listings, s1.view(), s2.view());
    lemma_blob_of_views(b1, b2, t1, t2, timestamp);
}

/// The flattened layer of the same base layers and sources writes the same blob.
pub proof fn lemma_flattened_written_unique(
    base: Seq<BaseLayer>,
    layers: Seq<Layer>,
    listings: Seq<Vec<SourceListing>>,
    a: Seq<u8>,
    b: Seq<u8>,
    timestamp: u64,
)
    requires
        flattened_written(base, layers, listings, a, timestamp),
        flattened_written(base, layers, listings, b, timestamp),
    ensures
        a == b,
{
    let (s1, t1) = choose|s: StrMap<FsEntry>, t: StrMap<FsEntry>|
        #![trigger s.view(), t.items()]
        flattened_base(base) == Some(view_map(s.view())) && t.wf() && collected_layers(layers, listings, s.view()) == Some(t.view())
            && a == layer_bytes(t.items(), timestamp);
    let (s2, t2) = choose|s: StrMap<FsEntry>, t: StrMap<FsEntry>|
        #![trigger s.view(), t.items()]
        flattened_base(base) == Some(view_map(s.view())) && t.wf() && collected_layers(layers, listings, s.view()) == Some(t.view())
            && b == layer_bytes(t.items(), timestamp);
    lemma_collected_layers_views(layers, listings, s1.view(), s2.view());
    lemma_bytes_of_views(t1, t2, timestamp);
}

impl PlatformImage {
    /// Builds this platform image: writes its new layers from the sources read in `listings`
    /// (one list per layer, one listing per mapping), or one layer holding the whole
    /// filesystem when flattened, then its configuration and manifest.
    pub fn build(&self, listings: Vec<Vec<SourceListing>>, timestamp: u64, store: &mut StrMap<Vec<u8>>) -> (r: Result<Descriptor, BuildError>)
        requires
            listings_fit(self.layers@, listings@),
            old(store).wf(),
            self.runtime_config.env.wf(),
            self.annotations.wf(),
            self.base matches Some(b) ==> b.annotations.wf(),
        ensures
            final(store).wf(),
            content_addressed(old(store).view()) ==> content_addressed(final(store).view()),
            media_types(*self) is None ==> r matches Err(BuildError::Unsupported(_)),
            media_types(*self) is Some ==> match rootfs_parts(initial_config(*self)) {
                Err(m) => r matches Err(BuildError::Invalid(e)) && e@ == m,
                Ok(_) => true,
            },
            r matches Ok(d) ==> exists|blobs: Seq<LayerBlob>|
                platform_inputs(*self, blobs) && platform_built(*self, blobs, d) && (!self.flatten ==> forall|l: int|
                    0 <= l < blobs.len() ==> layer_from_sources(self.layers@[l], listings@[l], #[trigger] blobs[l], timestamp))
                    && (self.flatten ==> flattened_blob(crate::image::base_layers(*self), self.layers@, listings@, blobs[0], timestamp)),
            r is Ok ==> exists|w: Seq<Seq<u8>>|
                #[trigger] platform_writes(*self, listings, timestamp, w) && stores(old(store).view(), final(store).view(), w),
            platform_buildable(*self, listings@) ==> r is Ok,
    {
        let prepared = match self.prepare_config() {
            Ok(p) => p,
            Err(e) => {
                return Err(e);
            },
        };
        let ghost ls = listings@;
        let mut rest = listings;
        let mut blobs: Vec<LayerBlob> = Vec::new();
        let ghost mut lw: Seq<Seq<u8>> = Seq::empty();
        assert(ls.skip(0) =~= ls);
        proof {
            lemma_stores_none(old(store).view());
        }
        if self.flatten {
            let empty: Vec<BaseLayer> = Vec::new();
            let base_layers = match &self.base {
                Some(b) => &b.layers,
                None => &empty,
            };
            assert(base_layers@ == crate::image::base_layers(*self));
            match build_flattened_layer(base_layers, &self.layers, rest, timestamp, store) {
                Ok(blob) => {
                    proof {
                        let bytes = choose|bytes: Seq<u8>|
                            #[trigger] flattened_written(base_layers@, self.layers@, ls, bytes, timestamp)
                                && stores(old(store).view(), store.view(), seq![bytes]);
                        lw = seq![bytes];
                    }
                    blobs.push(blob);
                },
                Err(e) => {
                    return Err(e);
                },
            }
        } else {
            let mut l: usize = 0;
            while l < self.layers.len()
                invariant
                    !self.flatten,
                    l <= self.layers@.len(),
                    listings_fit(self.layers@, ls),
                    rest@ == ls.skip(l as int),
                    blobs@.len() == l,
                    store.wf(),
                    content_addressed(old(store).view()) ==> content_addressed(store.view()),
                    ls == listings@,
                    prepared_for(*self, prepared),
                    forall|k: int| 0 <= k < l ==> layer_from_sources(self.layers@[k], ls[k], #[trigger] blobs@[k], timestamp),
                    lw.len() == l,
                    forall|k: int| 0 <= k < l ==> layer_written(self.layers@[k], ls[k], #[trigger] lw[k], timestamp),
                    stores(old(store).view(), store.view(), lw),
                decreases self.layers@.len() - l,
            {
                let listing = rest.remove(0);
                proof {
                    assert(listing == ls[l as int]);
                    assert(rest@ =~= ls.skip(l + 1));
                }
                let mut entries: StrMap<FsEntry> = StrMap::new();
                assert(entries.view() =~= Map::<Seq<char>, FsEntry>::empty());
                match self.layers[l].collect_into(listing, &mut entries) {
                    Ok(()) => {},
                    Err(e) => {
                        return Err(e);
                    },
                }
                proof {
                    if platform_buildable(*self, listings@) {
                        assert(ls[l as int] == listing);
                        lemma_writable_view(entries);
                    }
                }
                let ghost before = store.view();
                match write_layer(&entries, timestamp, store) {
                    Ok(blob) => {
                        proof {
                            assert(layer_blob_of(blob, entries.items(), timestamp));
                            assert(layer_from_sources(self.layers@[l as int], ls[l as int], blob, timestamp));
                            let bytes = layer_bytes(entries.items(), timestamp);
                            assert(layer_written(self.layers@[l as int], ls[l as int], bytes, timestamp));
                            lemma_stores_concat(old(store).view(), before, store.view(), lw, seq![bytes]);
                            assert(lw + seq![bytes] =~= lw.push(bytes));
                            lw = lw.push(bytes);
                        }
                        blobs.push(blob);
                    },
                    Err(e) => {
                        return Err(e);
                    },
                }
                l = l + 1;
            }
        }
        let ghost bs = blobs@;
        let ghost mid = store.view();
        let r = self.finish_manifest(prepared, &blobs, store);
        proof {
            if platform_buildable(*self, listings@) {
                assert(bs.len() == new_layer_count(*self));
                assert(crate::image::config_members(*self, bs) is Ok);
            }
        }
        proof {
            assert(platform_inputs(*self, bs));
            if r is Ok {
                let ps = crate::image::config_members(*self, bs)->Ok_0;
                lemma_stores_concat(old(store).view(), mid, store.view(), lw, crate::image::platform_written(*self, bs));
                assert(platform_writes(*self, listings, timestamp, lw + crate::image::platform_written(*self, bs)));
            }
        }
        r
    }
}

/// The number of new layer blobs of a platform image: one when it is flattened.
pub open spec fn new_layer_count(pi: PlatformImage) -> nat {
    if pi.flatten {
        1
    } else {
        pi.layers@.len()
    }
}

/// Whether the configuration of a platform image can be completed, whatever the blobs of its
/// new layers.
pub open spec fn config_completes(pi: PlatformImage) -> bool {
    forall|blobs: Seq<LayerBlob>| blobs.len() == new_layer_count(pi) ==> (#[trigger] crate::image::config_members(pi, blobs)) is Ok
}

/// Whether a platform image can be built from the sources read in `listings`: its base
/// manifest type is known, its configuration can be completed, and every new layer's sources
/// (or, when flattened, the base layers and all sources) make a tree that tar accepts.
pub open spec fn platform_buildable(pi: PlatformImage, listings: Seq<Vec<SourceListing>>) -> bool {
    &&& media_types(pi) is Some
    &&& rootfs_parts(initial_config(pi)) is Ok
    &&& config_completes(pi)
    &&& pi.flatten ==> zstd_free(crate::image::base_layers(pi))
    &&& pi.flatten ==> (flattened_tree(crate::image::base_layers(pi), pi.layers@, listings) matches Some(t) && writable_view(view_map(t)))
    &&& !pi.flatten ==> forall|l: int| 0 <= l < pi.layers@.len()
        ==> (collect_all(pi.layers@[l].files@, (#[trigger] listings[l])@, Map::empty()) matches Some(t) && writable_view(view_map(t)))
}

/// Whether `w` is what building a platform image from the sources read in `listings` writes:
/// its new layer blobs, then what its manifest step writes.
pub open spec fn platform_writes(pi: PlatformImage, listings: Vec<Vec<SourceListing>>, timestamp: u64, w: Seq<Seq<u8>>) -> bool {
    exists|blobs: Seq<LayerBlob>, lw: Seq<Seq<u8>>|
        #![trigger platform_inputs(pi, blobs), lw.len()]
        platform_inputs(pi, blobs) && lw.len() == blobs.len() && w == lw + crate::image::platform_written(pi, blobs)
            && (!pi.flatten ==> forall|l: int| 0 <= l < blobs.len()
                ==> layer_from_sources(pi.layers@[l], listings@[l], #[trigger] blobs[l], timestamp)
                    && layer_written(pi.layers@[l], listings@[l], lw[l], timestamp))
            && (pi.flatten ==> flattened_blob(crate::image::base_layers(pi), pi.layers@, listings@, blobs[0], timestamp)
                && flattened_written(crate::image::base_layers(pi), pi.layers@, listings@, lw[0], timestamp))
}

/// A platform image built from the same sources writes the same blobs.
pub proof fn lemma_platform_writes_unique(pi: PlatformImage, listings: Vec<Vec<SourceListing>>, timestamp: u64, w1: Seq<Seq<u8>>, w2: Seq<Seq<u8>>)
    requires
        platform_writes(pi, listings, timestamp, w1),
        platform_writes(pi, listings, timestamp, w2),
    ensures
        w1 == w2,
{
    let (a, la) = choose|blobs: Seq<LayerBlob>, lw: Seq<Seq<u8>>|
        #![trigger platform_inputs(pi, blobs), lw.len()]
        platform_inputs(pi, blobs) && lw.len() == blobs.len() && w1 == lw + crate::image::platform_written(pi, blobs)
            && (!pi.flatten ==> forall|l: int| 0 <= l < blobs.len()
                ==> layer_from_sources(pi.layers@[l], listings@[l], #[trigger] blobs[l], timestamp)
                    && layer_written(pi.layers@[l], listings@[l], lw[l], timestamp))
            && (pi.flatten ==> flattened_blob(crate::image::base_layers(pi), pi.layers@, listings@, blobs[0], timestamp)
                && flattened_written(crate::image::base_layers(pi), pi.layers@, listings@, lw[0], timestamp));
    let (b, lb) = choose|blobs: Seq<LayerBlob>, lw: Seq<Seq<u8>>|
        #![trigger platform_inputs(pi, blobs), lw.len()]
        platform_inputs(pi, blobs) && lw.len() == blobs.len() && w2 == lw + crate::image::platform_written(pi, blobs)
            && (!pi.flatten ==> forall|l: int| 0 <= l < blobs.len()
                ==> layer_from_sources(pi.layers@[l], listings@[l], #[trigger] blobs[l], timestamp)
                    && layer_written(pi.layers@[l], listings@[l], lw[l], timestamp))
            && (pi.flatten ==> flattened_blob(crate::image::base_layers(pi), pi.layers@, listings@, blobs[0], timestamp)
                && flattened_written(crate::image::base_layers(pi), pi.layers@, listings@, lw[0], timestamp));
    assert(a.len() == b.len());
    assert forall|l: int| 0 <= l < a.len() implies blob_view(#[trigger] a[l]) == blob_view(b[l]) && la[l] == lb[l] by {
        if pi.flatten {
            lemma_flattened_unique(crate::image::base_layers(pi), pi.layers@, listings@, a[0], b[0], timestamp);
            lemma_flattened_written_unique(crate::image::base_layers(pi), pi.layers@, listings@, la[0], lb[0], timestamp);
        } else {
            assert(layer_from_sources(pi.layers@[l], listings@[l], a[l], timestamp));
            assert(layer_from_sources(pi.layers@[l], listings@[l], b[l], timestamp));
            lemma_layer_from_sources_unique(pi.layers@[l], listings@[l], a[l], b[l], timestamp);
            lemma_layer_written_unique(pi.layers@[l], listings@[l], la[l], lb[l], timestamp);
        }
    }
    assert(blob_views(a) =~= blob_views(b));
    assert forall|l: int| 0 <= l < la.len() implies #[trigger] la[l] == lb[l] by {
        assert(blob_view(a[l]) == blob_view(b[l]));
    }
    assert(la =~= lb);
    crate::image::lemma_platform_written_view(pi, a, b);
}

/// Whether `d` is what building a platform image from the sources read in `listings` gives.
pub open spec fn platform_from_sources(pi: PlatformImage, listings: Vec<Vec<SourceListing>>, timestamp: u64, d: Descriptor) -> bool {
    exists|blobs: Seq<LayerBlob>|
        platform_inputs(pi, blobs) && platform_built(pi, blobs, d) && (!pi.flatten ==> forall|l: int|
            0 <= l < blobs.len() ==> layer_from_sources(pi.layers@[l], listings@[l], #[trigger] blobs[l], timestamp))
            && (pi.flatten ==> flattened_blob(crate::image::base_layers(pi), pi.layers@, listings@, blobs[0], timestamp))
}

/// Whether a platform image's maps are well formed.
pub open spec fn platform_wf(pi: PlatformImage) -> bool {
    &&& pi.runtime_config.env.wf()
    &&& pi.annotations.wf()
    &&& pi.base matches Some(b) ==> b.annotations.wf()
}

/// Whether `d` is what building `image` from its sources gives, with the manifests `built` of
/// its platforms in order and `ms` sorted by platform.
pub open spec fn image_from_sources(
    image: Image,
    listings: Seq<Vec<Vec<SourceListing>>>,
    timestamp: u64,
    built: Seq<Descriptor>,
    ms: Seq<Descriptor>,
    d: Descriptor,
) -> bool {
    let n = image.platforms@.len();
    &&& n > 0
    &&& built.len() == n
    &&& forall|i: int| 0 <= i < n ==> platform_from_sources(#[trigger] image.platforms@[i], listings[i], timestamp, built[i])
    &&& ms.to_multiset() == built.to_multiset()
    &&& sorted_by_platform(ms)
    &&& n == 1 ==> d == ms[0]
    &&& n > 1 ==> index_descriptor(d, ms)
}

/// Whether an image can be built from the sources read in `listings`: it has platforms, and
/// each of them can be built.
pub open spec fn image_buildable(image: Image, listings: Seq<Vec<Vec<SourceListing>>>) -> bool {
    &&& image.platforms@.len() > 0
    &&& forall|i: int| 0 <= i < image.platforms@.len() ==> platform_buildable(#[trigger] image.platforms@[i], listings[i]@)
}

/// Runs of blobs one after another.
pub open spec fn concat_all(ws: Seq<Seq<Seq<u8>>>) -> Seq<Seq<u8>>
    decreases ws.len(),
{
    if ws.len() == 0 {
        Seq::empty()
    } else {
        concat_all(ws.drop_last()) + ws.last()
    }
}

/// Whether `w` is what building `image` from its sources writes, with its manifests sorted by
/// platform in `ms`: what each platform writes in order, then the index of the manifests
/// when there are several.
pub open spec fn image_writes(image: Image, listings: Seq<Vec<Vec<SourceListing>>>, timestamp: u64, ms: Seq<Descriptor>, w: Seq<Seq<u8>>) -> bool {
    exists|ws: Seq<Seq<Seq<u8>>>|
        #![trigger concat_all(ws)]
        ws.len() == image.platforms@.len() && (forall|i: int|
            0 <= i < ws.len() ==> platform_writes(#[trigger] image.platforms@[i], listings[i], timestamp, ws[i])) && w == concat_all(ws)
            + if image.platforms@.len() > 1 {
            seq![json_bytes(index_json(descriptors_json(ms)))]
        } else {
            Seq::empty()
        }
}

impl Image {
    /// Builds every platform of this image from its sources, and returns the descriptor of its
    /// single manifest or of an index of its manifests sorted by platform.
    pub fn build_into(&self, listings: Vec<Vec<Vec<SourceListing>>>, timestamp: u64, store: &mut StrMap<Vec<u8>>) -> (r: Result<Descriptor, BuildError>)
        requires
            listings@.len() == self.platforms@.len(),
            forall|i: int| 0 <= i < listings@.len() ==> listings_fit(#[trigger] self.platforms@[i].layers@, listings@[i]@),
            forall|i: int| 0 <= i < self.platforms@.len() ==> platform_wf(#[trigger] self.platforms@[i]),
            old(store).wf(),
        ensures
            final(store).wf(),
            content_addressed(old(store).view()) ==> content_addressed(final(store).view()),
            self.platforms@.len() == 0 ==> r matches Err(BuildError::Invalid(_)),
            r matches Ok(d) ==> d.annotations.wf(),
            r matches Ok(d) ==> exists|built: Seq<Descriptor>, ms: Seq<Descriptor>|
                #[trigger] image_from_sources(*self, listings@, timestamp, built, ms, d) && exists|w: Seq<Seq<u8>>|
                    #[trigger] image_writes(*self, listings@, timestamp, ms, w) && stores(old(store).view(), final(store).view(), w),
            image_buildable(*self, listings@) ==> r is Ok,
    {
        if self.platforms.len() == 0 {
            let named = concat("image ", self.name.as_str());
            return Err(BuildError::Invalid(concat(named.as_str(), " has no target platforms")));
        }
        let ghost ls = listings@;
        let mut rest = listings;
        let mut manifests: Vec<Descriptor> = Vec::new();
        let ghost mut built: Seq<Descriptor> = Seq::empty();
        let ghost mut ws: Seq<Seq<Seq<u8>>> = Seq::empty();
        let mut i: usize = 0;
        assert(ls.skip(0) =~= ls);
        proof {
            lemma_stores_none(old(store).view());
            assert(concat_all(ws) =~= Seq::<Seq<u8>>::empty());
        }
        while i < self.platforms.len()
            invariant
                i <= self.platforms@.len(),
                ls == listings@,
                ls.len() == self.platforms@.len(),
                rest@ == ls.skip(i as int),
                forall|x: int| 0 <= x < ls.len() ==> listings_fit(#[trigger] self.platforms@[x].layers@, ls[x]@),
                forall|x: int| 0 <= x < self.platforms@.len() ==> platform_wf(#[trigger] self.platforms@[x]),
                store.wf(),
                content_addressed(old(store).view()) ==> content_addressed(store.view()),
                built.len() == i,
                forall|x: int| 0 <= x < i ==> platform_from_sources(#[trigger] self.platforms@[x], ls[x], timestamp, built[x]),
                manifests@.to_multiset() == built.to_multiset(),
                sorted_by_platform(manifests@),
                forall|j: int| 0 <= j < manifests@.len() ==> (#[trigger] manifests@[j]).annotations.wf(),
                ws.len() == i,
                forall|x: int| 0 <= x < i ==> platform_writes(#[trigger] self.platforms@[x], ls[x], timestamp, ws[x]),
                stores(old(store).view(), store.view(), concat_all(ws)),
            decreases self.platforms@.len() - i,
        {
            let listing = rest.remove(0);
            proof {
                assert(listing == ls[i as int]);
                assert(rest@ =~= ls.skip(i + 1));
                assert(listings_fit(self.platforms@[i as int].layers@, ls[i as int]@));
                assert(platform_wf(self.platforms@[i as int]));
            }
            let ghost before = store.view();
            match self.platforms[i].build(listing, timestamp, store) {
                Ok(d) => {
                    proof {
                        let w = choose|w: Seq<Seq<u8>>|
                            #[trigger] platform_writes(self.platforms@[i as int], ls[i as int], timestamp, w) && stores(before, store.view(), w);
                        lemma_stores_concat(old(store).view(), before, store.view(), concat_all(ws), w);
                        assert(ws.push(w).drop_last() =~= ws);
                        ws = ws.push(w);
                        assert(platform_from_sources(self.platforms@[i as int], ls[i as int], timestamp, d));
                        assert(d.annotations.wf());
                        built = built.push(d);
                        broadcast use vstd::seq_lib::group_to_multiset_ensures;
                    }
                    let ghost before = manifests@;
                    let pos = insert_sorted(&mut manifests, d);
                    proof {
                        assert forall|j: int| 0 <= j < manifests@.len() implies (#[trigger] manifests@[j]).annotations.wf() by {
                            if j < pos {
                                assert(manifests@[j] == before[j]);
                            } else if j > pos {
                                assert(manifests@[j] == before[j - 1]);
                            }
                        }
                    }
                },
                Err(e) => {
                    return Err(e);
                },
            }
            i = i + 1;
        }
        proof {
            broadcast use vstd::seq_lib::group_to_multiset_ensures;
            assert(manifests@.to_multiset().len() == built.to_multiset().len());
        }
        if manifests.len() == 1 {
            let ghost m0 = manifests@;
            let d = manifests.remove(0);
            proof {
                assert(m0 =~= seq![d]);
                assert(m0[0].annotations.wf());
                assert(image_from_sources(*self, ls, timestamp, built, m0, d));
                assert(concat_all(ws) + Seq::<Seq<u8>>::empty() =~= concat_all(ws));
                assert(image_writes(*self, ls, timestamp, m0, concat_all(ws)));
            }
            return Ok(d);
        }
        let ghost ms = manifests@;
        let bytes = index_bytes(&manifests);
        let ghost bv = bytes;
        let ghost before = store.view();
        let (digest, size) = put_blob(store, bytes);
        proof {
            lemma_stores_put(old(store).view(), before, store.view(), concat_all(ws), bv);
            assert(concat_all(ws).push(bv@) =~= concat_all(ws) + seq![json_bytes(index_json(descriptors_json(ms)))]);
            assert(image_writes(*self, ls, timestamp, ms, concat_all(ws).push(bv@)));
        }
        let d = Descriptor {
            media_type: "application/vnd.oci.image.index.v1+json".to_owned(),
            digest,
            size,
            platform: None,
            annotations: StrMap::new(),
        };
        assert(index_descriptor(d, ms));
        assert(image_from_sources(*self, ls, timestamp, built, ms, d));
        Ok(d)
    }
}

/// A platform image built from the same sources has the same abstract manifest descriptor,
/// for its own platform.
pub proof fn lemma_platform_from_sources_unique(pi: PlatformImage, listings: Vec<Vec<SourceListing>>, timestamp: u64, d1: Descriptor, d2: Descriptor)
    requires
        platform_from_sources(pi, listings, timestamp, d1),
        platform_from_sources(pi, listings, timestamp, d2),
    ensures
        desc_view(d1) == desc_view(d2),
        d1.platform matches Some(p) && platform_view(p) == (pi.platform@.architecture, pi.platform@.os, pi.platform@.variant),
{
    let a = choose|blobs: Seq<LayerBlob>|
        platform_inputs(pi, blobs) && platform_built(pi, blobs, d1) && (!pi.flatten ==> forall|l: int|
            0 <= l < blobs.len() ==> layer_from_sources(pi.layers@[l], listings@[l], #[trigger] blobs[l], timestamp))
            && (pi.flatten ==> flattened_blob(crate::image::base_layers(pi), pi.layers@, listings@, blobs[0], timestamp));
    let b = choose|blobs: Seq<LayerBlob>|
        platform_inputs(pi, blobs) && platform_built(pi, blobs, d2) && (!pi.flatten ==> forall|l: int|
            0 <= l < blobs.len() ==> layer_from_sources(pi.layers@[l], listings@[l], #[trigger] blobs[l], timestamp))
            && (pi.flatten ==> flattened_blob(crate::image::base_layers(pi), pi.layers@, listings@, blobs[0], timestamp));
    assert(a.len() == b.len());
    assert forall|l: int| 0 <= l < a.len() implies blob_view(#[trigger] a[l]) == blob_view(b[l]) by {
        if pi.flatten {
            lemma_flattened_unique(crate::image::base_layers(pi), pi.layers@, listings@, a[0], b[0], timestamp);
        } else {
            lemma_layer_from_sources_unique(pi.layers@[l], listings@[l], a[l], b[l], timestamp);
        }
    }
    assert(blob_views(a) =~= blob_views(b));
    lemma_platform_built_view(pi, a, b, d1, d2);
}

/// An image built from the same sources has the same abstract descriptor, when its platforms
/// are pairwise different.
pub proof fn lemma_image_from_sources_unique(
    image: Image,
    listings: Seq<Vec<Vec<SourceListing>>>,
    timestamp: u64,
    built1: Seq<Descriptor>,
    ms1: Seq<Descriptor>,
    d1: Descriptor,
    built2: Seq<Descriptor>,
    ms2: Seq<Descriptor>,
    d2: Descriptor,
)
    requires
        image_from_sources(image, listings, timestamp, built1, ms1, d1),
        image_from_sources(image, listings, timestamp, built2, ms2, d2),
        platforms_distinct(image),
    ensures
        desc_view(d1) == desc_view(d2),
        descriptors_json(ms1) == descriptors_json(ms2),
{
    broadcast use vstd::seq_lib::group_to_multiset_ensures;

    let n = image.platforms@.len();
    assert forall|i: int| 0 <= i < n implies desc_view(#[trigger] built1[i]) == desc_view(built2[i])
        && (built1[i].platform matches Some(p) && platform_view(p) == (image.platforms@[i].platform@.architecture, image.platforms@[i].platform@.os, image.platforms@[i].platform@.variant)) by {
        assert(platform_from_sources(image.platforms@[i], listings[i], timestamp, built1[i]));
        assert(platform_from_sources(image.platforms@[i], listings[i], timestamp, built2[i]));
        lemma_platform_from_sources_unique(image.platforms@[i], listings[i], timestamp, built1[i], built2[i]);
    }
    assert forall|i: int, j: int| 0 <= i < j < built1.len()
        implies platform_view((#[trigger] built1[i]).platform->0) != platform_view((#[trigger] built1[j]).platform->0) by {
        assert(image.platforms@[i].platform@ != image.platforms@[j].platform@);
        assert(desc_view(built1[i]) == desc_view(built2[i]));
        assert(desc_view(built1[j]) == desc_view(built2[j]));
    }
    assert(crate::image::distinct_platforms(built1));
    lemma_sorted_by_platform_views(ms1, built1, ms2, built2);
    assert(ms1.to_multiset().len() == ms1.len() && built1.to_multiset().len() == built1.len());
    lemma_descriptors_json_view(ms1, ms2);
    if n > 1 {
        assert(text_pairs(d1.annotations.items()) =~= text_pairs(d2.annotations.items()));
    }
}

/// An image built from the same sources writes the same blobs, when its platforms are
/// pairwise different.
pub proof fn lemma_image_writes_unique(
    image: Image,
    listings: Seq<Vec<Vec<SourceListing>>>,
    timestamp: u64,
    ms1: Seq<Descriptor>,
    w1: Seq<Seq<u8>>,
    ms2: Seq<Descriptor>,
    w2: Seq<Seq<u8>>,
)
    requires
        image_writes(image, listings, timestamp, ms1, w1),
        image_writes(image, listings, timestamp, ms2, w2),
        descriptors_json(ms1) == descriptors_json(ms2),
    ensures
        w1 == w2,
{
    let a = choose|ws: Seq<Seq<Seq<u8>>>|
        #![trigger concat_all(ws)]
        ws.len() == image.platforms@.len() && (forall|i: int|
            0 <= i < ws.len() ==> platform_writes(#[trigger] image.platforms@[i], listings[i], timestamp, ws[i])) && w1 == concat_all(ws)
            + if image.platforms@.len() > 1 {
            seq![json_bytes(index_json(descriptors_json(ms1)))]
        } else {
            Seq::empty()
        };
    let b = choose|ws: Seq<Seq<Seq<u8>>>|
        #![trigger concat_all(ws)]
        ws.len() == image.platforms@.len() && (forall|i: int|
            0 <= i < ws.len() ==> platform_writes(#[trigger] image.platforms@[i], listings[i], timestamp, ws[i])) && w2 == concat_all(ws)
            + if image.platforms@.len() > 1 {
            seq![json_bytes(index_json(descriptors_json(ms2)))]
        } else {
            Seq::empty()
        };
    assert forall|i: int| 0 <= i < a.len() implies #[trigger] a[i] == b[i] by {
        assert(platform_writes(image.platforms@[i], listings[i], timestamp, a[i]));
        assert(platform_writes(image.platforms@[i], listings[i], timestamp, b[i]));
        lemma_platform_writes_unique(image.platforms@[i], listings[i], timestamp, a[i], b[i]);
    }
    assert(a =~= b);
}

/// Whether two images share a name.
pub open spec fn names_distinct(images: Seq<Image>) -> bool {
    forall|i: int, j: int| 0 <= i < j < images.len() ==> (#[trigger] images[i]).name@ != (#[trigger] images[j]).name@
}

/// Whether no two platform images of an image are for the same platform.
pub open spec fn platforms_distinct(image: Image) -> bool {
    forall|i: int, j: int| 0 <= i < j < image.platforms@.len()
        ==> (#[trigger] image.platforms@[i]).platform@ != (#[trigger] image.platforms@[j]).platform@
}

/// Whether an image set can be built: at least one image, a timestamp that fits a gzip
/// header, distinct image names and, within each image, distinct platforms.
pub open spec fn set_valid(images: Seq<Image>, epoch: u64) -> bool {
    &&& images.len() > 0
    &&& epoch <= u32::MAX
    &&& names_distinct(images)
    &&& forall|i: int| 0 <= i < images.len() ==> platforms_distinct(#[trigger] images[i])
}

fn same_platform(a: &Platform, b: &Platform) -> (r: bool)
    ensures
        r == (a@ == b@),
{
    let same_variant = match (a.variant(), b.variant()) {
        (Some(x), Some(y)) => str_eq(x, y),
        (None, None) => true,
        _ => false,
    };
    str_eq(a.os(), b.os()) && str_eq(a.architecture(), b.architecture()) && same_variant
}

/// Checks that an image set can be built; `Invalid` otherwise.
pub fn validate_image_set(images: &ImageSet) -> (r: Result<(), BuildError>)
    ensures
        r is Ok <==> set_valid(images.spec_images(), images.spec_source_date_epoch()),
        r matches Err(e) ==> e is Invalid,
{
    let list = images.images();
    if list.len() == 0 {
        return Err(BuildError::Invalid("image set must contain at least one image".to_owned()));
    }
    if images.source_date_epoch() > 0xffff_ffffu64 {
        return Err(BuildError::Invalid("build timestamp is too large for a deterministic gzip header".to_owned()));
    }
    let mut i: usize = 0;
    while i < list.len()
        invariant
            list@ == images.spec_images(),
            i <= list@.len(),
            forall|a: int, b: int| 0 <= a < b < i ==> (#[trigger] list@[a]).name@ != (#[trigger] list@[b]).name@,
            forall|a: int| 0 <= a < i ==> platforms_distinct(#[trigger] list@[a]),
        decreases list@.len() - i,
    {
        let mut j: usize = 0;
        while j < i
            invariant
                list@ == images.spec_images(),
                i < list@.len(),
                j <= i,
                forall|a: int| 0 <= a < j ==> (#[trigger] list@[a]).name@ != list@[i as int].name@,
            decreases i - j,
        {
            if str_eq(list[j].name.as_str(), list[i].name.as_str()) {
                assert(!names_distinct(list@)) by {
                    assert(list@[j as int].name@ == list@[i as int].name@);
                }
                let head = concat("image set contains duplicate image name ", list[i].name.as_str());
                return Err(BuildError::Invalid(head));
            }
            j = j + 1;
        }
        let platforms = &list[i].platforms;
        let mut p: usize = 0;
        while p < platforms.len()
            invariant
                list@ == images.spec_images(),
                i < list@.len(),
                platforms@ == list@[i as int].platforms@,
                p <= platforms@.len(),
                forall|a: int, b: int| 0 <= a < b < p ==> (#[trigger] platforms@[a]).platform@ != (#[trigger] platforms@[b]).platform@,
            decreases platforms@.len() - p,
        {
            let mut q: usize = 0;
            while q < p
                invariant
                    list@ == images.spec_images(),
                    i < list@.len(),
                    platforms@ == list@[i as int].platforms@,
                    p < platforms@.len(),
                    q <= p,
                    forall|a: int| 0 <= a < q ==> (#[trigger] platforms@[a]).platform@ != platforms@[p as int].platform@,
                decreases p - q,
            {
                if same_platform(&platforms[q].platform, &platforms[p].platform) {
                    assert(!platforms_distinct(list@[i as int])) by {
                        assert(platforms@[q as int].platform@ == platforms@[p as int].platform@);
                    }
                    let head = concat("image ", list[i].name.as_str());
                    let body = concat(head.as_str(), " contains duplicate platform ");
                    return Err(BuildError::Invalid(concat(body.as_str(), platforms[p].platform.to_text().as_str())));
                }
                q = q + 1;
            }
            p = p + 1;
        }
        i = i + 1;
    }
    Ok(())
}

/// The references an image is listed under: its own, or its name when it has none.
pub open spec fn refs_of(image: Image) -> Seq<Seq<char>> {
    if image.references@.len() == 0 {
        seq![image.name@]
    } else {
        crate::text::views(image.references@)
    }
}

/// Descriptors in order of their digests.
pub open spec fn sorted_by_digest(ds: Seq<Descriptor>) -> bool {
    forall|i: int, j: int| 0 <= i < j < ds.len() ==> !seq_lt((#[trigger] ds[j]).digest@, (#[trigger] ds[i]).digest@)
}

/// The blobs, index and digests of a built image set, ready to be written as an OCI layout.
#[derive(Debug)]
pub struct Layout {
    /// Blobs keyed by digest.
    pub blobs: StrMap<Vec<u8>>,
    /// The bytes of `index.json`.
    pub index: Vec<u8>,
    pub result: BuildResult,
}

/// The abstract values of descriptors.
pub open spec fn desc_views(ds: Seq<Descriptor>) -> Seq<DescriptorView> {
    ds.map_values(|d: Descriptor| desc_view(d))
}

/// Where an entry with digest `k` goes among `s`: after every entry whose digest does not
/// order after `k`.
pub open spec fn digest_pos(s: Seq<DescriptorView>, k: Seq<char>) -> nat
    decreases s.len(),
{
    if s.len() == 0 {
        0
    } else if seq_lt(k, s[0].1) {
        0
    } else {
        1 + digest_pos(s.drop_first(), k)
    }
}

/// The first position whose digest orders after `k` is where an entry with digest `k` goes.
proof fn lemma_digest_pos(s: Seq<DescriptorView>, k: Seq<char>, p: int)
    requires
        0 <= p <= s.len(),
        forall|j: int| 0 <= j < p ==> !seq_lt(k, (#[trigger] s[j]).1),
        p == s.len() || seq_lt(k, s[p].1),
    ensures
        digest_pos(s, k) == p,
    decreases p,
{
    if p > 0 {
        assert(!seq_lt(k, s[0].1));
        let r = s.drop_first();
        assert forall|j: int| 0 <= j < p - 1 implies !seq_lt(k, (#[trigger] r[j]).1) by {
            assert(r[j] == s[j + 1]);
        }
        if p < s.len() {
            assert(r[p - 1] == s[p]);
        }
        lemma_digest_pos(r, k, p - 1);
    }
}

/// `s` with `e` placed after every entry whose digest does not order after its digest.
pub open spec fn insert_by_digest_view(s: Seq<DescriptorView>, e: DescriptorView) -> Seq<DescriptorView> {
    s.insert(digest_pos(s, e.1) as int, e)
}

/// The entries placed one by one, each after every earlier entry whose digest does not order
/// after its own: sorted by digest, entries with equal digests in their original order.
pub open spec fn sorted_entries(s: Seq<DescriptorView>) -> Seq<DescriptorView>
    decreases s.len(),
{
    if s.len() == 0 {
        Seq::empty()
    } else {
        insert_by_digest_view(sorted_entries(s.drop_last()), s.last())
    }
}

/// Inserts `d` after every descriptor whose digest does not order after its digest.
fn insert_by_digest(v: &mut Vec<Descriptor>, d: Descriptor) -> (p: usize)
    requires
        sorted_by_digest(old(v)@),
    ensures
        sorted_by_digest(final(v)@),
        final(v)@.to_multiset() == old(v)@.to_multiset().insert(d),
        p <= old(v)@.len(),
        final(v)@ == old(v)@.insert(p as int, d),
        desc_views(final(v)@) == insert_by_digest_view(desc_views(old(v)@), desc_view(d)),
{
    broadcast use vstd::seq_lib::group_to_multiset_ensures;

    let mut p: usize = 0;
    while p < v.len() && !str_lt(d.digest.as_str(), v[p].digest.as_str())
        invariant
            p <= v@.len(),
            v@ == old(v)@,
            forall|k: int| 0 <= k < p ==> !seq_lt(d.digest@, (#[trigger] v@[k]).digest@),
        decreases v@.len() - p,
    {
        p = p + 1;
    }
    let ghost before = v@;
    proof {
        let s = desc_views(before);
        assert forall|j: int| 0 <= j < p implies !seq_lt(d.digest@, (#[trigger] s[j]).1) by {
            assert(s[j].1 == before[j].digest@);
        }
        if p < before.len() {
            assert(s[p as int].1 == before[p as int].digest@);
        }
        lemma_digest_pos(s, d.digest@, p as int);
    }
    v.insert(p, d);
    proof {
        assert(v@ == before.insert(p as int, d));
        assert(desc_views(v@) =~= desc_views(before).insert(p as int, desc_view(d)));
        assert forall|i: int, j: int| 0 <= i < j < v@.len() implies !seq_lt((#[trigger] v@[j]).digest@, (#[trigger] v@[i]).digest@) by {
            if j < p {
                assert(v@[i] == before[i] && v@[j] == before[j]);
            } else if j == p {
                assert(v@[i] == before[i]);
                lemma_seq_lt_trichotomy(d.digest@, before[i].digest@);
            } else if i == p {
                assert(v@[j] == before[j - 1]);
                assert(seq_lt(d.digest@, before[p as int].digest@));
                if j - 1 > p {
                    assert(!seq_lt(before[j - 1].digest@, before[p as int].digest@));
                }
                lemma_seq_lt_trichotomy(before[j - 1].digest@, d.digest@);
                if seq_lt(before[j - 1].digest@, d.digest@) {
                    lemma_seq_lt_transitive(before[j - 1].digest@, d.digest@, before[p as int].digest@);
                    lemma_seq_lt_irreflexive(d.digest@);
                }
            } else if i < p {
                assert(v@[i] == before[i] && v@[j] == before[j - 1]);
            } else {
                assert(v@[i] == before[i - 1] && v@[j] == before[j - 1]);
            }
        }
    }
    p
}

/// The references of an image: its own, or its name.
fn refs_value(image: &Image) -> (r: Vec<String>)
    ensures
        crate::text::views(r@) == refs_of(*image),
{
    if image.references.len() == 0 {
        let mut v: Vec<String> = Vec::new();
        v.push(image.name.clone());
        assert(crate::text::views(v@) =~= seq![image.name@]);
        v
    } else {
        let mut v: Vec<String> = Vec::new();
        let mut i: usize = 0;
        while i < image.references.len()
            invariant
                i <= image.references@.len(),
                crate::text::views(v@) == crate::text::views(image.references@).take(i as int),
            decreases image.references@.len() - i,
        {
            let ghost before = v@;
            v.push(image.references[i].clone());
            assert(v@ == before.push(image.references@[i as int]));
            proof {
                crate::text::lemma_views_push(before, image.references@[i as int]);
                assert(crate::text::views(image.references@).take(i + 1) =~= crate::text::views(image.references@).take(i as int).push(image.references@[i as int]@));
            }
            assert(crate::text::views(v@) =~= crate::text::views(image.references@).take(i + 1));
            i = i + 1;
        }
        assert(crate::text::views(image.references@).take(i as int) =~= crate::text::views(image.references@));
        v
    }
}

/// The index entry of an image with descriptor `dv` under reference `r`.
pub open spec fn ref_entry(dv: DescriptorView, r: Seq<char>) -> DescriptorView {
    (dv.0, dv.1, dv.2, dv.3, seq![(ref_name_key(), r)])
}

/// The index entries of images whose descriptors are `dvs`: each image under each of its
/// references, in order.
pub open spec fn all_entries(images: Seq<Image>, dvs: Seq<DescriptorView>) -> Seq<DescriptorView>
    decreases images.len(),
{
    if images.len() == 0 {
        Seq::empty()
    } else {
        all_entries(images.drop_last(), dvs) + refs_of(images.last()).map_values(
            |r: Seq<char>| ref_entry(dvs[images.len() - 1], r),
        )
    }
}

/// The entries of images depend only on the descriptors of those images.
proof fn lemma_all_entries_prefix(images: Seq<Image>, a: Seq<DescriptorView>, b: Seq<DescriptorView>)
    requires
        images.len() <= a.len(),
        images.len() <= b.len(),
        forall|x: int| 0 <= x < images.len() ==> a[x] == b[x],
    ensures
        all_entries(images, a) == all_entries(images, b),
    decreases images.len(),
{
    if images.len() > 0 {
        lemma_all_entries_prefix(images.drop_last(), a, b);
        assert(a[images.len() - 1] == b[images.len() - 1]);
    }
}

/// The names of images.
pub open spec fn image_names(images: Seq<Image>) -> Set<Seq<char>> {
    Set::new(|k: Seq<char>| exists|x: int| 0 <= x < images.len() && (#[trigger] images[x]).name@ == k)
}

/// What an image's build gives has no annotations.
proof fn lemma_built_annotations(image: Image, listings: Seq<Vec<Vec<SourceListing>>>, timestamp: u64, built: Seq<Descriptor>, ms: Seq<Descriptor>, d: Descriptor)
    requires
        image_from_sources(image, listings, timestamp, built, ms, d),
    ensures
        d.annotations.items().len() == 0,
{
    broadcast use vstd::seq_lib::group_to_multiset_ensures;

    if image.platforms@.len() == 1 {
        assert(ms.to_multiset().len() == ms.len() && built.to_multiset().len() == built.len());
        assert(ms.to_multiset().count(ms[0]) > 0);
        assert(built.contains(ms[0]));
        let x = choose|x: int| 0 <= x < built.len() && built[x] == ms[0];
        assert(platform_from_sources(image.platforms@[x], listings[x], timestamp, built[x]));
    }
}

/// The entry of an image descriptor without annotations under one reference.
proof fn lemma_ref_entry(d: Descriptor, e: Descriptor, r: String)
    requires
        d.annotations.wf(),
        d.annotations.items().len() == 0,
        e.media_type == d.media_type,
        e.digest == d.digest,
        e.size == d.size,
        e.platform == d.platform,
        e.annotations.wf(),
        e.annotations.view() == d.annotations.view().insert(ref_name_key(), r),
    ensures
        desc_view(e) == ref_entry(desc_view(d), r@),
{
    d.annotations.lemma_view();
    e.annotations.lemma_view();
    assert(d.annotations.view().dom() =~= Set::<Seq<char>>::empty());
    assert(e.annotations.view().dom() =~= set![ref_name_key()]);
    assert(e.annotations.items().len() == 1);
    assert(e.annotations.view().contains_key(e.annotations.items()[0].0@));
    assert(e.annotations.items()[0].0@ == ref_name_key());
    assert(e.annotations.view()[e.annotations.items()[0].0@] == e.annotations.items()[0].1);
    assert(text_pairs(e.annotations.items()) =~= seq![(ref_name_key(), r@)]);
}

/// Whether the maps of a platform image keep their keys in order.
pub fn platform_wf_exec(pi: &PlatformImage) -> (r: bool)
    ensures
        r == platform_wf(*pi),
{
    let base_ok = match &pi.base {
        Some(b) => b.annotations.is_wf(),
        None => true,
    };
    pi.runtime_config.env.is_wf() && pi.annotations.is_wf() && base_ok
}

/// Whether a platform's listings were read for its layers: one list per layer, one listing per
/// file mapping.
fn listings_fit_exec(layers: &Vec<Layer>, listings: &Vec<Vec<SourceListing>>) -> (r: bool)
    ensures
        r == listings_fit(layers@, listings@),
{
    if listings.len() != layers.len() {
        return false;
    }
    let mut l: usize = 0;
    while l < listings.len()
        invariant
            listings@.len() == layers@.len(),
            l <= listings@.len(),
            forall|k: int| 0 <= k < l ==> #[trigger] listings@[k]@.len() == layers@[k].files@.len(),
        decreases listings@.len() - l,
    {
        if listings[l].len() != layers[l].files.len() {
            return false;
        }
        l = l + 1;
    }
    true
}

/// Whether `listings` were read for `images`, one list per image and platform fitting its
/// layers, and every platform's maps keep their keys in order.
pub open spec fn set_ready(images: Seq<Image>, listings: Seq<Vec<Vec<Vec<SourceListing>>>>) -> bool {
    &&& listings.len() == images.len()
    &&& forall|i: int| 0 <= i < images.len() ==> image_ready(images[i], #[trigger] listings[i])
}

/// Whether `listings` were read for `image`: one list per platform fitting its layers, and
/// every platform's maps keep their keys in order.
pub open spec fn image_ready(image: Image, listings: Vec<Vec<Vec<SourceListing>>>) -> bool {
    &&& listings@.len() == image.platforms@.len()
    &&& forall|p: int| 0 <= p < image.platforms@.len() ==> listings_fit(image.platforms@[p].layers@, (#[trigger] listings@[p])@)
    &&& forall|p: int| 0 <= p < image.platforms@.len() ==> platform_wf(#[trigger] image.platforms@[p])
}

fn image_ready_exec(image: &Image, listings: &Vec<Vec<Vec<SourceListing>>>) -> (r: bool)
    ensures
        r == image_ready(*image, *listings),
{
    if listings.len() != image.platforms.len() {
        return false;
    }
    let mut p: usize = 0;
    while p < image.platforms.len()
        invariant
            listings@.len() == image.platforms@.len(),
            p <= image.platforms@.len(),
            forall|q: int| 0 <= q < p ==> listings_fit(image.platforms@[q].layers@, (#[trigger] listings@[q])@),
            forall|q: int| 0 <= q < p ==> platform_wf(#[trigger] image.platforms@[q]),
        decreases image.platforms@.len() - p,
    {
        if !listings_fit_exec(&image.platforms[p].layers, &listings[p]) || !platform_wf_exec(&image.platforms[p]) {
            return false;
        }
        p = p + 1;
    }
    true
}

impl ImageSet {
    /// Whether `listings` were read for this set, one list per image and platform fitting its
    /// layers, and every platform's maps keep their keys in order: what building the set from
    /// them asks.
    pub fn ready_for(&self, listings: &Vec<Vec<Vec<Vec<SourceListing>>>>) -> (r: bool)
        ensures
            r == set_ready(self.spec_images(), listings@),
            r ==> forall|i: int| 0 <= i < listings@.len() ==> (#[trigger] listings@[i])@.len() == self.spec_images()[i].platforms@.len(),
            r ==> forall|i: int, p: int| 0 <= i < listings@.len() && 0 <= p < self.spec_images()[i].platforms@.len()
                ==> listings_fit(self.spec_images()[i].platforms@[p].layers@, (#[trigger] listings@[i]@[p])@),
            r ==> forall|i: int, p: int| 0 <= i < self.spec_images().len() && 0 <= p < self.spec_images()[i].platforms@.len()
                ==> platform_wf(#[trigger] self.spec_images()[i].platforms@[p]),
    {
        let images = self.images();
        if listings.len() != images.len() {
            return false;
        }
        let mut i: usize = 0;
        while i < images.len()
            invariant
                images@ == self.spec_images(),
                listings@.len() == images@.len(),
                i <= images@.len(),
                forall|x: int| 0 <= x < i ==> image_ready(images@[x], #[trigger] listings@[x]),
            decreases images@.len() - i,
        {
            if !image_ready_exec(&images[i], &listings[i]) {
                return false;
            }
            i = i + 1;
        }
        proof {
            assert forall|i: int, p: int| 0 <= i < listings@.len() && 0 <= p < self.spec_images()[i].platforms@.len()
                implies listings_fit(self.spec_images()[i].platforms@[p].layers@, (#[trigger] listings@[i]@[p])@) by {
                assert(image_ready(images@[i], listings@[i]));
            }
            assert forall|i: int, p: int| 0 <= i < self.spec_images().len() && 0 <= p < self.spec_images()[i].platforms@.len()
                implies platform_wf(#[trigger] self.spec_images()[i].platforms@[p]) by {
                assert(image_ready(images@[i], listings@[i]));
            }
        }
        true
    }

    /// Builds every image of the set from its sources, in order, and the index that lists each
    /// image under each of its references, sorted by digest.
    pub fn assemble(&self, listings: Vec<Vec<Vec<Vec<SourceListing>>>>) -> (r: Result<Layout, BuildError>)
        requires
            listings@.len() == self.spec_images().len(),
            forall|i: int| 0 <= i < listings@.len() ==> (#[trigger] listings@[i])@.len() == self.spec_images()[i].platforms@.len(),
            forall|i: int, p: int| 0 <= i < listings@.len() && 0 <= p < self.spec_images()[i].platforms@.len()
                ==> listings_fit(self.spec_images()[i].platforms@[p].layers@, (#[trigger] listings@[i]@[p])@),
            forall|i: int, p: int| 0 <= i < self.spec_images().len() && 0 <= p < self.spec_images()[i].platforms@.len()
                ==> platform_wf(#[trigger] self.spec_images()[i].platforms@[p]),
        ensures
            !set_valid(self.spec_images(), self.spec_source_date_epoch()) ==> r matches Err(BuildError::Invalid(_)),
            set_valid(self.spec_images(), self.spec_source_date_epoch()) && (forall|i: int| 0 <= i < self.spec_images().len()
                ==> image_buildable(#[trigger] self.spec_images()[i], listings@[i]@)) ==> r is Ok,
            r matches Ok(out) ==> layout_of(*self, listings@, out),
    {
        match validate_image_set(self) {
            Ok(()) => {},
            Err(e) => {
                return Err(e);
            },
        }
        let list = self.images();
        let timestamp = self.source_date_epoch();
        let ghost images = list@;
        let ghost ls = listings@;
        let mut rest = listings;
        let mut store: StrMap<Vec<u8>> = StrMap::new();
        let mut descriptors: Vec<Descriptor> = Vec::new();
        let mut digests: StrMap<String> = StrMap::new();
        let ghost mut dvs: Seq<DescriptorView> = Seq::empty();
        let ghost mut ws: Seq<Seq<Seq<u8>>> = Seq::empty();
        let mut i: usize = 0;
        assert(store_view(store.view()) =~= Map::<Seq<char>, Seq<u8>>::empty());
        assert(ls.skip(0) =~= ls);
        assert(images.take(0) =~= Seq::<Image>::empty());
        assert(desc_views(descriptors@) =~= Seq::<DescriptorView>::empty());
        assert(digests.view().dom() =~= image_names(images.take(0)));
        while i < list.len()
            invariant
                images == list@,
                images == self.spec_images(),
                timestamp == self.spec_source_date_epoch(),
                set_valid(images, timestamp),
                i <= images.len(),
                ls == listings@,
                ls.len() == images.len(),
                rest@ == ls.skip(i as int),
                forall|x: int| 0 <= x < ls.len() ==> (#[trigger] ls[x])@.len() == images[x].platforms@.len(),
                forall|x: int, p: int| 0 <= x < ls.len() && 0 <= p < images[x].platforms@.len()
                    ==> listings_fit(images[x].platforms@[p].layers@, (#[trigger] ls[x]@[p])@),
                forall|x: int, p: int| 0 <= x < images.len() && 0 <= p < images[x].platforms@.len()
                    ==> platform_wf(#[trigger] images[x].platforms@[p]),
                store.wf(),
                content_addressed(store.view()),
                digests.wf(),
                digests.view().dom() == image_names(images.take(i as int)),
                sorted_by_digest(descriptors@),
                dvs.len() == i,
                ws.len() == i,
                store_view(store.view()) == put_all(Map::empty(), concat_all(ws)),
                forall|x: int| 0 <= x < i ==> #[trigger] image_recorded(images[x], ls[x]@, timestamp, digests.view(), dvs[x], ws[x]),
                desc_views(descriptors@) == sorted_entries(all_entries(images.take(i as int), dvs)),
            decreases images.len() - i,
        {
            let listing = rest.remove(0);
            proof {
                assert(listing == ls[i as int]);
                assert(rest@ =~= ls.skip(i + 1));
            }
            let image = &list[i];
            let ghost before = store.view();
            let d = match image.build_into(listing, timestamp, &mut store) {
                Ok(d) => d,
                Err(e) => {
                    return Err(e);
                },
            };
            let ghost m0 = digests.view();
            let ghost dvs0 = dvs;
            let ghost ws0 = ws;
            let ghost dv = desc_view(d);
            digests.insert(image.name.clone(), d.digest.clone());
            proof {
                let (built, ms) = choose|built: Seq<Descriptor>, ms: Seq<Descriptor>|
                    #[trigger] image_from_sources(images[i as int], ls[i as int]@, timestamp, built, ms, d) && exists|w: Seq<Seq<u8>>|
                        #[trigger] image_writes(images[i as int], ls[i as int]@, timestamp, ms, w) && stores(before, store.view(), w);
                lemma_built_annotations(images[i as int], ls[i as int]@, timestamp, built, ms, d);
                let w = choose|w: Seq<Seq<u8>>|
                    #[trigger] image_writes(images[i as int], ls[i as int]@, timestamp, ms, w) && stores(before, store.view(), w);
                lemma_put_all_concat(Map::empty(), concat_all(ws0), w);
                assert(ws0.push(w).drop_last() =~= ws0);
                ws = ws.push(w);
                dvs = dvs.push(dv);
                assert forall|x: int| 0 <= x < i implies (#[trigger] images[x]).name@ != images[i as int].name@ by {
                    assert(images[x].name@ != images[i as int].name@);
                }
                assert forall|x: int| 0 <= x < i + 1 implies #[trigger] image_recorded(images[x], ls[x]@, timestamp, digests.view(), dvs[x], ws[x]) by {
                    if x < i {
                        assert(image_recorded(images[x], ls[x]@, timestamp, m0, dvs0[x], ws0[x]));
                        assert(digests.view()[images[x].name@] == m0[images[x].name@]);
                        assert(dvs[x] == dvs0[x]);
                        assert(ws[x] == ws0[x]);
                    } else {
                        assert(image_from_sources(images[x], ls[x]@, timestamp, built, ms, d));
                    }
                }
                assert forall|k: Seq<char>| #[trigger] digests.view().dom().contains(k) <==> image_names(images.take(i + 1)).contains(k) by {
                    if image_names(images.take(i as int)).contains(k) {
                        let x = choose|x: int| 0 <= x < i && (#[trigger] images.take(i as int)[x]).name@ == k;
                        assert(images.take(i + 1)[x] == images.take(i as int)[x]);
                    }
                    if k == images[i as int].name@ {
                        assert(images.take(i + 1)[i as int] == images[i as int]);
                    }
                    if image_names(images.take(i + 1)).contains(k) {
                        let x = choose|x: int| 0 <= x < i + 1 && (#[trigger] images.take(i + 1)[x]).name@ == k;
                        if x < i {
                            assert(images.take(i as int)[x] == images.take(i + 1)[x]);
                        }
                    }
                }
                assert(digests.view().dom() =~= image_names(images.take(i + 1)));
                lemma_all_entries_prefix(images.take(i as int), dvs0, dvs);
            }
            let refs = refs_value(image);
            let ghost base = all_entries(images.take(i as int), dvs);
            let mut k: usize = 0;
            proof {
                assert(crate::text::views(refs@).take(0).map_values(|r: Seq<char>| ref_entry(dv, r)) =~= Seq::<DescriptorView>::empty());
                assert(base + crate::text::views(refs@).take(0).map_values(|r: Seq<char>| ref_entry(dv, r)) =~= base);
            }
            while k < refs.len()
                invariant
                    k <= refs@.len(),
                    sorted_by_digest(descriptors@),
                    crate::text::views(refs@) == refs_of(images[i as int]),
                    d.annotations.wf(),
                    d.annotations.items().len() == 0,
                    dv == desc_view(d),
                    desc_views(descriptors@) == sorted_entries(base + crate::text::views(refs@).take(k as int).map_values(|r: Seq<char>| ref_entry(dv, r))),
                decreases refs@.len() - k,
            {
                let entry = d.duplicate().with_reference(refs[k].clone());
                let ghost before = descriptors@;
                let ghost s0 = base + crate::text::views(refs@).take(k as int).map_values(|r: Seq<char>| ref_entry(dv, r));
                let ghost s1 = base + crate::text::views(refs@).take(k + 1).map_values(|r: Seq<char>| ref_entry(dv, r));
                proof {
                    lemma_ref_entry(d, entry, refs@[k as int]);
                    assert(crate::text::views(refs@)[k as int] == refs@[k as int]@);
                    assert(s1 =~= s0.push(ref_entry(dv, refs@[k as int]@)));
                    assert(s1.drop_last() =~= s0);
                }
                let _ = insert_by_digest(&mut descriptors, entry);
                k = k + 1;
            }
            proof {
                assert(crate::text::views(refs@).take(k as int) =~= crate::text::views(refs@));
                assert(images.take(i + 1).drop_last() =~= images.take(i as int));
                assert(images.take(i + 1).last() == images[i as int]);
                assert(dvs[i as int] == dv);
            }
            i = i + 1;
        }
        proof {
            assert(images.take(i as int) =~= images);
        }
        let ghost ds = descriptors@;
        let index = index_bytes(&descriptors);
        let index_digest = digest_of(index.as_slice());
        let out = Layout { blobs: store, index, result: BuildResult { index_digest, image_digests: digests } };
        proof {
            assert(index_listing(self.spec_images(), dvs, out.index@, ds));
            assert(store_view(out.blobs.view()) == put_all(Map::empty(), concat_all(ws)));
        }
        Ok(out)
    }
}

/// Whether the digests record `image`'s build result under its name, `dv` is the abstract
/// value of its descriptor and `w` the blobs its build wrote.
pub open spec fn image_recorded(
    image: Image,
    listings: Seq<Vec<Vec<SourceListing>>>,
    timestamp: u64,
    digests: Map<Seq<char>, String>,
    dv: DescriptorView,
    w: Seq<Seq<u8>>,
) -> bool {
    &&& digests.contains_key(image.name@)
    &&& exists|built: Seq<Descriptor>, ms: Seq<Descriptor>, d: Descriptor|
        #[trigger] image_from_sources(image, listings, timestamp, built, ms, d) && digests[image.name@] == d.digest && desc_view(d) == dv
            && image_writes(image, listings, timestamp, ms, w)
}

/// Whether `index` is the index of the entries `ds`: each image, whose descriptor is `dvs` at
/// its position, under each of its references, sorted by digest with entries of equal digests
/// in the order of the images and their references.
pub open spec fn index_listing(images: Seq<Image>, dvs: Seq<DescriptorView>, index: Seq<u8>, ds: Seq<Descriptor>) -> bool {
    &&& index == json_bytes(index_json(descriptors_json(ds)))
    &&& sorted_by_digest(ds)
    &&& desc_views(ds) == sorted_entries(all_entries(images, dvs))
}

/// What building an image set gives: a blob store that holds what the images' builds wrote, in
/// order, each blob under its own digest; the digest of every image under its name; and the
/// index of all images under their references.
pub open spec fn layout_of(set: ImageSet, listings: Seq<Vec<Vec<Vec<SourceListing>>>>, out: Layout) -> bool {
    let images = set.spec_images();
    let digests = out.result.image_digests.view();
    &&& set_valid(images, set.spec_source_date_epoch())
    &&& out.blobs.wf()
    &&& content_addressed(out.blobs.view())
    &&& out.result.image_digests.wf()
    &&& digests.dom() == image_names(images)
    &&& out.result.index_digest@ == digest_spec(out.index@)
    &&& exists|dvs: Seq<DescriptorView>, ds: Seq<Descriptor>, ws: Seq<Seq<Seq<u8>>>|
        #![trigger index_listing(images, dvs, out.index@, ds), concat_all(ws)]
        index_listing(images, dvs, out.index@, ds) && dvs.len() == images.len() && ws.len() == images.len()
            && store_view(out.blobs.view()) == put_all(Map::empty(), concat_all(ws))
            && forall|i: int| 0 <= i < images.len() ==> #[trigger] image_recorded(images[i], listings[i]@, set.spec_source_date_epoch(), digests, dvs[i], ws[i])
}


/// Building an image set twice from the same sources gives the same layout: the same blobs
/// under the same digests, the same index, the same index digest and the same digest under
/// every image name.
pub proof fn lemma_builds_reproducible(set: ImageSet, listings: Seq<Vec<Vec<Vec<SourceListing>>>>, a: Layout, b: Layout)
    requires
        layout_of(set, listings, a),
        layout_of(set, listings, b),
    ensures
        store_view(a.blobs.view()) == store_view(b.blobs.view()),
        a.index@ == b.index@,
        a.result.index_digest@ == b.result.index_digest@,
        a.result.image_digests.view().dom() == b.result.image_digests.view().dom(),
        forall|k: Seq<char>| #[trigger] a.result.image_digests.view().contains_key(k)
            ==> a.result.image_digests.view()[k]@ == b.result.image_digests.view()[k]@,
{
    let images = set.spec_images();
    let ts = set.spec_source_date_epoch();
    let da = a.result.image_digests.view();
    let db = b.result.image_digests.view();
    let (va, sa, wa) = choose|dvs: Seq<DescriptorView>, ds: Seq<Descriptor>, ws: Seq<Seq<Seq<u8>>>|
        #![trigger index_listing(images, dvs, a.index@, ds), concat_all(ws)]
        index_listing(images, dvs, a.index@, ds) && dvs.len() == images.len() && ws.len() == images.len()
            && store_view(a.blobs.view()) == put_all(Map::empty(), concat_all(ws))
            && forall|i: int| 0 <= i < images.len() ==> #[trigger] image_recorded(images[i], listings[i]@, ts, da, dvs[i], ws[i]);
    let (vb, sb, wb) = choose|dvs: Seq<DescriptorView>, ds: Seq<Descriptor>, ws: Seq<Seq<Seq<u8>>>|
        #![trigger index_listing(images, dvs, b.index@, ds), concat_all(ws)]
        index_listing(images, dvs, b.index@, ds) && dvs.len() == images.len() && ws.len() == images.len()
            && store_view(b.blobs.view()) == put_all(Map::empty(), concat_all(ws))
            && forall|i: int| 0 <= i < images.len() ==> #[trigger] image_recorded(images[i], listings[i]@, ts, db, dvs[i], ws[i]);
    assert forall|i: int| 0 <= i < images.len() implies va[i] == vb[i] && wa[i] == wb[i] && da[images[i].name@]@ == va[i].1
        && db[images[i].name@]@ == vb[i].1 by {
        assert(image_recorded(images[i], listings[i]@, ts, da, va[i], wa[i]));
        assert(image_recorded(images[i], listings[i]@, ts, db, vb[i], wb[i]));
        let (b1, m1, d1) = choose|built: Seq<Descriptor>, ms: Seq<Descriptor>, d: Descriptor|
            #[trigger] image_from_sources(images[i], listings[i]@, ts, built, ms, d) && da[images[i].name@] == d.digest && desc_view(d) == va[i]
                && image_writes(images[i], listings[i]@, ts, ms, wa[i]);
        let (b2, m2, d2) = choose|built: Seq<Descriptor>, ms: Seq<Descriptor>, d: Descriptor|
            #[trigger] image_from_sources(images[i], listings[i]@, ts, built, ms, d) && db[images[i].name@] == d.digest && desc_view(d) == vb[i]
                && image_writes(images[i], listings[i]@, ts, ms, wb[i]);
        assert(platforms_distinct(images[i]));
        lemma_image_from_sources_unique(images[i], listings[i]@, ts, b1, m1, d1, b2, m2, d2);
        lemma_image_writes_unique(images[i], listings[i]@, ts, m1, wa[i], m2, wb[i]);
    }
    assert(va =~= vb);
    assert(wa =~= wb);
    assert(desc_views(sa) == desc_views(sb));
    assert(sa.len() == desc_views(sa).len() && sb.len() == desc_views(sb).len());
    assert forall|j: int| 0 <= j < sa.len() implies desc_view(#[trigger] sa[j]) == desc_view(sb[j]) by {
        assert(desc_views(sa)[j] == desc_views(sb)[j]);
    }
    lemma_descriptors_json_view(sa, sb);
    assert forall|k: Seq<char>| #[trigger] da.contains_key(k) implies da[k]@ == db[k]@ by {
        assert(image_names(images).contains(k));
        let x = choose|x: int| 0 <= x < images.len() && (#[trigger] images[x]).name@ == k;
        assert(va[x] == vb[x] && da[images[x].name@]@ == va[x].1 && db[images[x].name@]@ == vb[x].1);
    }
}
} // verus!
