//! The filesystem tree of a layer: entries keyed by their path inside the image.
use vstd::prelude::*;
use vstd::string::*;

use crate::error::BuildError;
use crate::paths::{path_join, slash_path, slash_path_spec};
use crate::strmap::{keys_of, map_pairs, StrMap};
use crate::text::{concat, has_prefix, starts_with, str_eq, views};

verus! {

/// The kind of a filesystem entry.
#[derive(Debug, Clone, Copy, PartialEq, Eq, Structural)]
pub enum EntryKind {
    Regular,
    Directory,
    Symlink,
    HardLink,
    CharDevice,
    BlockDevice,
    Fifo,
}

/// One entry of a layer's filesystem and the metadata written to its archive header.
#[derive(Debug, Clone)]
pub struct FsEntry {
    /// Local file whose contents the entry takes.
    pub source: Option<String>,
    /// Contents held in memory.
    pub data: Option<Vec<u8>>,
    /// Link target of a symlink or hard link.
    pub link: Option<String>,
    pub kind: EntryKind,
    pub mode: u32,
    pub uid: u64,
    pub gid: u64,
    pub device_major: Option<u32>,
    pub device_minor: Option<u32>,
}

/// The abstract value of an entry.
pub struct EntryView {
    pub source: Option<Seq<char>>,
    pub data: Option<Seq<u8>>,
    pub link: Option<Seq<char>>,
    pub kind: EntryKind,
    pub mode: u32,
    pub uid: u64,
    pub gid: u64,
    pub device_major: Option<u32>,
    pub device_minor: Option<u32>,
}

pub open spec fn opt_view(o: Option<String>) -> Option<Seq<char>> {
    match o {
        Some(s) => Some(s@),
        None => None,
    }
}

impl View for FsEntry {
    type V = EntryView;

    open spec fn view(&self) -> EntryView {
        EntryView {
            source: opt_view(self.source),
            data: match self.data {
                Some(d) => Some(d@),
                None => None,
            },
            link: opt_view(self.link),
            kind: self.kind,
            mode: self.mode,
            uid: self.uid,
            gid: self.gid,
            device_major: self.device_major,
            device_minor: self.device_minor,
        }
    }
}

pub fn clone_opt_string(o: &Option<String>) -> (r: Option<String>)
    ensures
        r == *o,
{
    match o {
        Some(s) => Some(s.clone()),
        None => None,
    }
}

impl FsEntry {
    /// A copy of this entry.
    pub fn duplicate(&self) -> (r: FsEntry)
        ensures
            r@ == self@,
    {
        let data = match &self.data {
            Some(d) => {
                let c = d.clone();
                assert(c@ =~= d@);
                Some(c)
            },
            None => None,
        };
        FsEntry {
            source: clone_opt_string(&self.source),
            data,
            link: clone_opt_string(&self.link),
            kind: self.kind,
            mode: self.mode,
            uid: self.uid,
            gid: self.gid,
            device_major: self.device_major,
            device_minor: self.device_minor,
        }
    }

    pub fn is_dir(&self) -> (r: bool)
        ensures
            r == (self.kind == EntryKind::Directory),
    {
        match self.kind {
            EntryKind::Directory => true,
            _ => false,
        }
    }
}

/// Whether `k` lies strictly below the directory `p`.
pub open spec fn is_within(k: Seq<char>, p: Seq<char>) -> bool {
    has_prefix(k, p + seq!['/'])
}

/// Whether an existing entry at `k` gives way to a new entry `e` at `p`: the same path, a
/// path below `p` when `e` is not a directory, or a non-directory at a path above `p`.
pub open spec fn displaced_by(k: Seq<char>, existing: FsEntry, p: Seq<char>, e: FsEntry) -> bool {
    ||| k == p
    ||| (e.kind != EntryKind::Directory && is_within(k, p))
    ||| (is_within(p, k) && existing.kind != EntryKind::Directory)
}

/// The tree after placing `e` at `p`.
pub open spec fn insert_entry_spec(m: Map<Seq<char>, FsEntry>, p: Seq<char>, e: FsEntry) -> Map<Seq<char>, FsEntry> {
    Map::new(|k: Seq<char>| m.contains_key(k) && !displaced_by(k, m[k], p, e), |k: Seq<char>| m[k]).insert(p, e)
}

/// Whether an existing entry at `k` gives way to a new entry at `p`, by their abstract values.
pub open spec fn displaced_view(k: Seq<char>, existing: EntryView, p: Seq<char>, e: EntryView) -> bool {
    ||| k == p
    ||| (e.kind != EntryKind::Directory && is_within(k, p))
    ||| (is_within(p, k) && existing.kind != EntryKind::Directory)
}

/// The tree of abstract entries after placing `e` at `p`.
pub open spec fn insert_view(m: Map<Seq<char>, EntryView>, p: Seq<char>, e: EntryView) -> Map<Seq<char>, EntryView> {
    Map::new(|k: Seq<char>| m.contains_key(k) && !displaced_view(k, m[k], p, e), |k: Seq<char>| m[k]).insert(p, e)
}

/// Placing an entry and then taking abstract values is placing its abstract value.
pub proof fn lemma_insert_view(m: Map<Seq<char>, FsEntry>, p: Seq<char>, e: FsEntry)
    ensures
        view_map(insert_entry_spec(m, p, e)) == insert_view(view_map(m), p, e@),
{
    assert(view_map(insert_entry_spec(m, p, e)) =~= insert_view(view_map(m), p, e@));
}

/// Places `entry` at `path`, replacing what stood there, everything below it unless it is a
/// directory, and any non-directory above it.
pub fn insert_entry(entries: &mut StrMap<FsEntry>, path: String, entry: FsEntry)
    requires
        old(entries).wf(),
    ensures
        final(entries).wf(),
        final(entries).view() == insert_entry_spec(old(entries).view(), path@, entry),
{
    proof {
        reveal_strlit("/");
        assert("/"@ =~= seq!['/']);
        entries.lemma_view();
    }
    let child_prefix = concat(path.as_str(), "/");
    let entry_is_dir = entry.is_dir();
    let mut doomed: Vec<String> = Vec::new();
    let mut i: usize = 0;
    let ghost m = entries.view();
    let ghost items0 = entries.items();
    while i < entries.len()
        invariant
            entries.wf(),
            m == entries.view(),
            items0 == entries.items(),
            i <= entries.items().len(),
            child_prefix@ == path@ + seq!['/'],
            entry_is_dir == (entry.kind == EntryKind::Directory),
            forall|q: Seq<char>| #[trigger] views(doomed@).contains(q) <==> (exists|j: int| 0 <= j < i
                && items0[j].0@ == q && displaced_by(q, items0[j].1, path@, entry)),
        decreases entries.items().len() - i,
    {
        proof {
            reveal_strlit("/");
            assert("/"@ =~= seq!['/']);
        }
        let (k, v) = entries.at(i);
        let same = str_eq(k.as_str(), path.as_str());
        let below = !entry_is_dir && starts_with(k.as_str(), child_prefix.as_str());
        let above_prefix = concat(k.as_str(), "/");
        let above = starts_with(path.as_str(), above_prefix.as_str()) && !v.is_dir();
        let ghost before = doomed@;
        if same || below || above {
            doomed.push(k.clone());
        }
        proof {
            assert(displaced_by(k@, *v, path@, entry) == (same || below || above));
            assert forall|q: Seq<char>| #[trigger] views(doomed@).contains(q) <==> (exists|j: int| 0 <= j < i + 1
                && items0[j].0@ == q && displaced_by(q, items0[j].1, path@, entry)) by {
                if views(doomed@).contains(q) {
                    let t = choose|t: int| 0 <= t < views(doomed@).len() && views(doomed@)[t] == q;
                    if t < before.len() {
                        assert(views(before)[t] == q);
                        assert(views(before).contains(q));
                    } else {
                        assert(q == k@);
                        assert(0 <= i < i + 1 && items0[i as int].0@ == q && displaced_by(q, items0[i as int].1, path@, entry));
                    }
                }
                if exists|j: int| 0 <= j < i + 1 && items0[j].0@ == q && displaced_by(q, items0[j].1, path@, entry) {
                    let j = choose|j: int| 0 <= j < i + 1 && items0[j].0@ == q && displaced_by(q, items0[j].1, path@, entry);
                    if j < i {
                        assert(views(before).contains(q));
                        let t = choose|t: int| 0 <= t < views(before).len() && views(before)[t] == q;
                        assert(views(doomed@)[t] == q);
                    } else {
                        assert(views(doomed@)[doomed@.len() - 1] == q);
                    }
                }
            }
        }
        i = i + 1;
    }
    proof {
        old(entries).lemma_view();
    }
    entries.remove_all(&doomed);
    proof {
        let d = views(doomed@).to_set();
        let keep = Map::new(|k: Seq<char>| m.contains_key(k) && !displaced_by(k, m[k], path@, entry), |k: Seq<char>| m[k]);
        assert forall|q: Seq<char>| d.contains(q) <==> (m.contains_key(q) && displaced_by(q, m[q], path@, entry)) by {
            if d.contains(q) {
                assert(views(doomed@).contains(q));
                let j = choose|j: int| 0 <= j < i && items0[j].0@ == q && displaced_by(q, items0[j].1, path@, entry);
                assert(keys_of(items0)[j] == q);
                assert(m[items0[j].0@] == items0[j].1);
            }
            if m.contains_key(q) && displaced_by(q, m[q], path@, entry) {
                assert(keys_of(items0).contains(q));
                let j = choose|j: int| 0 <= j < keys_of(items0).len() && keys_of(items0)[j] == q;
                assert(items0[j].0@ == q);
                assert(m[items0[j].0@] == items0[j].1);
                assert(0 <= j < i && items0[j].0@ == q && displaced_by(q, items0[j].1, path@, entry));
            }
        }
        assert(entries.view() =~= keep);
    }
    entries.insert(path, entry);
}

} // verus!

verus! {

/// The entries of a tree by their abstract values.
pub open spec fn view_map(m: Map<Seq<char>, FsEntry>) -> Map<Seq<char>, EntryView> {
    Map::new(|k: Seq<char>| m.contains_key(k), |k: Seq<char>| m[k]@)
}

/// The prefix below which a whiteout for `removed` hides entries.
pub open spec fn whiteout_prefix(removed: Seq<char>) -> Seq<char> {
    if removed.len() == 0 {
        Seq::empty()
    } else {
        removed + seq!['/']
    }
}

/// Whether a whiteout hides `k`: an opaque whiteout hides everything below its directory, a
/// plain one the named path and everything below it.
pub open spec fn whited_out(k: Seq<char>, removed: Seq<char>, opaque: bool) -> bool {
    if opaque {
        has_prefix(k, whiteout_prefix(removed))
    } else {
        k == removed || has_prefix(k, whiteout_prefix(removed))
    }
}

pub open spec fn apply_whiteout_spec(m: Map<Seq<char>, FsEntry>, removed: Seq<char>, opaque: bool) -> Map<Seq<char>, FsEntry> {
    Map::new(|k: Seq<char>| m.contains_key(k) && !whited_out(k, removed, opaque), |k: Seq<char>| m[k])
}

/// The tree after the whiteouts in order.
pub open spec fn apply_whiteouts_spec(m: Map<Seq<char>, FsEntry>, ws: Seq<(Seq<char>, bool)>) -> Map<Seq<char>, FsEntry>
    decreases ws.len(),
{
    if ws.len() == 0 {
        m
    } else {
        apply_whiteout_spec(apply_whiteouts_spec(m, ws.drop_last()), ws.last().0, ws.last().1)
    }
}

/// The tree of abstract entries without what a whiteout hides.
pub open spec fn apply_whiteout_view(m: Map<Seq<char>, EntryView>, removed: Seq<char>, opaque: bool) -> Map<Seq<char>, EntryView> {
    Map::new(|k: Seq<char>| m.contains_key(k) && !whited_out(k, removed, opaque), |k: Seq<char>| m[k])
}

/// The tree of abstract entries after the whiteouts in order.
pub open spec fn apply_whiteouts_view(m: Map<Seq<char>, EntryView>, ws: Seq<(Seq<char>, bool)>) -> Map<Seq<char>, EntryView>
    decreases ws.len(),
{
    if ws.len() == 0 {
        m
    } else {
        apply_whiteout_view(apply_whiteouts_view(m, ws.drop_last()), ws.last().0, ws.last().1)
    }
}

/// The tree of abstract entries after placing the items in order.
pub open spec fn insert_all_view(m: Map<Seq<char>, EntryView>, items: Seq<(Seq<char>, EntryView)>) -> Map<Seq<char>, EntryView>
    decreases items.len(),
{
    if items.len() == 0 {
        m
    } else {
        insert_view(insert_all_view(m, items.drop_last()), items.last().0, items.last().1)
    }
}

/// The abstract values of items.
pub open spec fn item_views(items: Seq<(String, FsEntry)>) -> Seq<(Seq<char>, EntryView)> {
    items.map_values(|kv: (String, FsEntry)| (kv.0@, kv.1@))
}

/// The abstract items of a well-formed tree are its abstract entries in path order.
pub proof fn lemma_item_views_pairs(t: StrMap<FsEntry>)
    requires
        t.wf(),
    ensures
        item_views(t.items()) == map_pairs(view_map(t.view())),
{
    t.lemma_items_are_map_pairs();
    t.lemma_view();
    assert(view_map(t.view()).dom() =~= t.view().dom());
    let pairs = t.items().map_values(|kv: (String, FsEntry)| (kv.0@, kv.1));
    assert forall|i: int| 0 <= i < item_views(t.items()).len() implies item_views(t.items())[i] == map_pairs(view_map(t.view()))[i] by {
        assert(pairs[i] == map_pairs(t.view())[i]);
        assert(t.view()[t.items()[i].0@] == t.items()[i].1);
    }
    assert(item_views(t.items()) =~= map_pairs(view_map(t.view())));
}

/// Whiteouts act on abstract values as on entries.
pub proof fn lemma_whiteouts_view(m: Map<Seq<char>, FsEntry>, ws: Seq<(Seq<char>, bool)>)
    ensures
        view_map(apply_whiteouts_spec(m, ws)) == apply_whiteouts_view(view_map(m), ws),
    decreases ws.len(),
{
    if ws.len() > 0 {
        lemma_whiteouts_view(m, ws.drop_last());
        let inner = apply_whiteouts_spec(m, ws.drop_last());
        assert(view_map(apply_whiteout_spec(inner, ws.last().0, ws.last().1))
            =~= apply_whiteout_view(view_map(inner), ws.last().0, ws.last().1));
    }
}

/// Placing items acts on abstract values as on entries.
pub proof fn lemma_insert_all_view(m: Map<Seq<char>, FsEntry>, items: Seq<(String, FsEntry)>)
    ensures
        view_map(insert_all_spec(m, items)) == insert_all_view(view_map(m), item_views(items)),
    decreases items.len(),
{
    if items.len() > 0 {
        lemma_insert_all_view(m, items.drop_last());
        assert(item_views(items).drop_last() =~= item_views(items.drop_last()));
        lemma_insert_view(insert_all_spec(m, items.drop_last()), items.last().0@, items.last().1);
    } else {
        assert(item_views(items) =~= Seq::<(Seq<char>, EntryView)>::empty());
    }
}

/// The tree after placing the items in order.
pub open spec fn insert_all_spec(m: Map<Seq<char>, FsEntry>, items: Seq<(String, FsEntry)>) -> Map<Seq<char>, FsEntry>
    decreases items.len(),
{
    if items.len() == 0 {
        m
    } else {
        insert_entry_spec(insert_all_spec(m, items.drop_last()), items.last().0@, items.last().1)
    }
}

/// Removes what a whiteout hides.
pub fn apply_whiteout(entries: &mut StrMap<FsEntry>, removed: &str, opaque: bool)
    requires
        old(entries).wf(),
    ensures
        final(entries).wf(),
        final(entries).view() == apply_whiteout_spec(old(entries).view(), removed@, opaque),
{
    proof {
        reveal_strlit("/");
        assert("/"@ =~= seq!['/']);
        entries.lemma_view();
    }
    let prefix = if removed.is_empty() {
        String::new()
    } else {
        concat(removed, "/")
    };
    let mut doomed: Vec<String> = Vec::new();
    let mut i: usize = 0;
    let ghost m = entries.view();
    let ghost items0 = entries.items();
    while i < entries.len()
        invariant
            entries.wf(),
            m == entries.view(),
            items0 == entries.items(),
            i <= entries.items().len(),
            prefix@ == whiteout_prefix(removed@),
            forall|q: Seq<char>| #[trigger] views(doomed@).contains(q) <==> (exists|j: int| 0 <= j < i
                && items0[j].0@ == q && whited_out(q, removed@, opaque)),
        decreases entries.items().len() - i,
    {
        let (k, _) = entries.at(i);
        let hidden = if opaque {
            starts_with(k.as_str(), prefix.as_str())
        } else {
            str_eq(k.as_str(), removed) || starts_with(k.as_str(), prefix.as_str())
        };
        let ghost before = doomed@;
        if hidden {
            doomed.push(k.clone());
        }
        proof {
            assert forall|q: Seq<char>| #[trigger] views(doomed@).contains(q) <==> (exists|j: int| 0 <= j < i + 1
                && items0[j].0@ == q && whited_out(q, removed@, opaque)) by {
                if views(doomed@).contains(q) {
                    let t = choose|t: int| 0 <= t < views(doomed@).len() && views(doomed@)[t] == q;
                    if t < before.len() {
                        assert(views(before)[t] == q);
                        assert(views(before).contains(q));
                    } else {
                        assert(q == k@);
                        assert(0 <= i < i + 1 && items0[i as int].0@ == q && whited_out(q, removed@, opaque));
                    }
                }
                if exists|j: int| 0 <= j < i + 1 && items0[j].0@ == q && whited_out(q, removed@, opaque) {
                    let j = choose|j: int| 0 <= j < i + 1 && items0[j].0@ == q && whited_out(q, removed@, opaque);
                    if j < i {
                        assert(views(before).contains(q));
                        let t = choose|t: int| 0 <= t < views(before).len() && views(before)[t] == q;
                        assert(views(doomed@)[t] == q);
                    } else {
                        assert(views(doomed@)[doomed@.len() - 1] == q);
                    }
                }
            }
        }
        i = i + 1;
    }
    entries.remove_all(&doomed);
    proof {
        let d = views(doomed@).to_set();
        assert forall|q: Seq<char>| d.contains(q) <==> (m.contains_key(q) && whited_out(q, removed@, opaque)) by {
            if d.contains(q) {
                assert(views(doomed@).contains(q));
                let j = choose|j: int| 0 <= j < i && items0[j].0@ == q && whited_out(q, removed@, opaque);
                assert(keys_of(items0)[j] == q);
            }
            if m.contains_key(q) && whited_out(q, removed@, opaque) {
                assert(keys_of(items0).contains(q));
                let j = choose|j: int| 0 <= j < keys_of(items0).len() && keys_of(items0)[j] == q;
                assert(items0[j].0@ == q);
                assert(0 <= j < i && items0[j].0@ == q && whited_out(q, removed@, opaque));
            }
        }
        assert(entries.view() =~= apply_whiteout_spec(m, removed@, opaque));
    }
}

/// Places the items in order.
pub fn insert_all(entries: &mut StrMap<FsEntry>, items: Vec<(String, FsEntry)>)
    requires
        old(entries).wf(),
    ensures
        final(entries).wf(),
        final(entries).view() == insert_all_spec(old(entries).view(), items@),
{
    let ghost all = items@;
    assert(all.len() == items.len());
    let mut rest = items;
    let ghost m0 = entries.view();
    let mut i: usize = 0;
    while rest.len() > 0
        invariant
            entries.wf(),
            i <= all.len(),
            all.len() <= usize::MAX,
            rest@ == all.skip(i as int),
            entries.view() == insert_all_spec(m0, all.take(i as int)),
        decreases rest@.len(),
    {
        let (k, e) = rest.remove(0);
        proof {
            assert(all.take(i + 1).drop_last() =~= all.take(i as int));
            assert(all.take(i + 1).last() == all[i as int]);
        }
        insert_entry(entries, k, e);
        i = i + 1;
        assert(rest@ =~= all.skip(i as int));
    }
    assert(all.take(i as int) =~= all);
}

/// Removes what each whiteout hides, in order.
pub fn apply_whiteouts(entries: &mut StrMap<FsEntry>, whiteouts: &Vec<(String, bool)>)
    requires
        old(entries).wf(),
    ensures
        final(entries).wf(),
        final(entries).view() == apply_whiteouts_spec(old(entries).view(), whiteout_views(whiteouts@)),
{
    let ghost m0 = entries.view();
    let mut i: usize = 0;
    while i < whiteouts.len()
        invariant
            entries.wf(),
            i <= whiteouts@.len(),
            entries.view() == apply_whiteouts_spec(m0, whiteout_views(whiteouts@).take(i as int)),
        decreases whiteouts@.len() - i,
    {
        let (removed, opaque) = &whiteouts[i];
        apply_whiteout(entries, removed.as_str(), *opaque);
        proof {
            let ws = whiteout_views(whiteouts@);
            assert(ws.take(i + 1).drop_last() =~= ws.take(i as int));
            assert(ws.take(i + 1).last() == ws[i as int]);
        }
        i = i + 1;
    }
    assert(whiteout_views(whiteouts@).take(i as int) =~= whiteout_views(whiteouts@));
}

pub open spec fn whiteout_views(ws: Seq<(String, bool)>) -> Seq<(Seq<char>, bool)> {
    ws.map_values(|w: (String, bool)| (w.0@, w.1))
}

} // verus!

verus! {

/// The entry a hard link at `p` stands for: follow link targets (written as portable paths)
/// until a regular file; `None` on a cycle, a missing target, a target that is neither a file
/// nor a hard link, or a target that is not a portable path. `fuel` bounds the steps.
pub open spec fn follow_link(m: Map<Seq<char>, EntryView>, p: Seq<char>, visited: Seq<Seq<char>>, fuel: nat) -> Option<EntryView>
    decreases fuel,
{
    if visited.contains(p) || !m.contains_key(p) {
        None
    } else if m[p].kind != EntryKind::HardLink {
        if m[p].kind == EntryKind::Regular {
            Some(m[p])
        } else {
            None
        }
    } else if fuel == 0 {
        None
    } else {
        match m[p].link {
            Some(l) => match slash_path_spec(l) {
                Some(t) => follow_link(m, t, visited.push(p), (fuel - 1) as nat),
                None => None,
            },
            None => None,
        }
    }
}

/// Steps enough to visit every entry once.
pub open spec fn link_fuel(m: Map<Seq<char>, EntryView>) -> nat {
    (m.dom().len() + 1) as nat
}

/// An entry without a local source or link target.
pub open spec fn cleared(e: EntryView) -> EntryView {
    EntryView {
        source: None,
        data: e.data,
        link: None,
        kind: e.kind,
        mode: e.mode,
        uid: e.uid,
        gid: e.gid,
        device_major: e.device_major,
        device_minor: e.device_minor,
    }
}

/// Replacing the hard links of a tree whose links resolve leaves none: each becomes a copy of
/// the regular file it resolves to, and every other entry stays.
pub proof fn lemma_materialized_has_no_hard_links(m: Map<Seq<char>, EntryView>)
    requires
        links_resolve(m),
    ensures
        materialize_spec(m).dom() == m.dom(),
        forall|k: Seq<char>| #[trigger] materialize_spec(m).contains_key(k) ==> materialize_spec(m)[k].kind != EntryKind::HardLink,
        forall|k: Seq<char>| #[trigger] m.contains_key(k) && m[k].kind == EntryKind::HardLink ==> materialize_spec(m)[k].kind == EntryKind::Regular,
        forall|k: Seq<char>| #[trigger] m.contains_key(k) && m[k].kind != EntryKind::HardLink ==> materialize_spec(m)[k] == m[k],
{
    assert(materialize_spec(m).dom() =~= m.dom());
    assert forall|k: Seq<char>| #[trigger] m.contains_key(k) && m[k].kind == EntryKind::HardLink implies materialize_spec(m)[k].kind == EntryKind::Regular by {
        lemma_follow_link_regular(m, k, Seq::empty(), link_fuel(m));
    }
}

/// The regular file that the hard link at `p` resolves to, as a standalone entry.
pub open spec fn resolve_hard_link(m: Map<Seq<char>, EntryView>, p: Seq<char>) -> Option<EntryView> {
    match follow_link(m, p, Seq::empty(), link_fuel(m)) {
        Some(e) => Some(cleared(e)),
        None => None,
    }
}

/// Whether every hard link in the tree resolves.
pub open spec fn links_resolve(m: Map<Seq<char>, EntryView>) -> bool {
    forall|k: Seq<char>| #[trigger] m.contains_key(k) && m[k].kind == EntryKind::HardLink ==> resolve_hard_link(m, k) is Some
}

/// The tree with every hard link replaced by a copy of the file it resolves to.
pub open spec fn materialize_spec(m: Map<Seq<char>, EntryView>) -> Map<Seq<char>, EntryView> {
    Map::new(
        |k: Seq<char>| m.contains_key(k),
        |k: Seq<char>| if m[k].kind == EntryKind::HardLink { resolve_hard_link(m, k).unwrap() } else { m[k] },
    )
}

proof fn lemma_distinct_bound(s: Seq<Seq<char>>, d: Set<Seq<char>>)
    requires
        s.no_duplicates(),
        d.finite(),
        forall|i: int| 0 <= i < s.len() ==> d.contains(#[trigger] s[i]),
    ensures
        s.len() <= d.len(),
{
    s.unique_seq_to_set();
    assert(s.to_set().subset_of(d));
    vstd::set_lib::lemma_len_subset(s.to_set(), d);
}

/// The standalone copy of the file that the hard link at `path` resolves to.
pub fn materialize_hard_link(path: &str, entries: &StrMap<FsEntry>) -> (r: Result<FsEntry, BuildError>)
    requires
        entries.wf(),
        view_map(entries.view()).contains_key(path@),
        view_map(entries.view())[path@].kind == EntryKind::HardLink,
    ensures
        match r {
            Ok(e) => resolve_hard_link(view_map(entries.view()), path@) == Some(e@),
            Err(err) => resolve_hard_link(view_map(entries.view()), path@) is None && err is Invalid,
        },
{
    let ghost m = view_map(entries.view());
    proof {
        entries.lemma_view();
        assert(m.dom() =~= entries.view().dom());
    }
    let ghost n = m.dom().len();
    let mut resolving: Vec<String> = Vec::new();
    let mut cur: String = path.to_owned();
    assert(views(resolving@) =~= Seq::<Seq<char>>::empty());
    loop
        invariant
            entries.wf(),
            m.contains_key(path@) && m[path@].kind == EntryKind::HardLink,
            m == view_map(entries.view()),
            n == m.dom().len(),
            m.dom().finite(),
            views(resolving@).no_duplicates(),
            forall|i: int| 0 <= i < resolving@.len() ==> m.contains_key(#[trigger] views(resolving@)[i]),
            resolving@.len() <= n,
            follow_link(m, path@, Seq::empty(), link_fuel(m))
                == follow_link(m, cur@, views(resolving@), (link_fuel(m) - resolving@.len()) as nat),
            resolving@.len() == 0 ==> cur@ == path@,
        decreases n - resolving@.len(),
    {
        let fuel = Ghost((link_fuel(m) - resolving@.len()) as nat);
        if crate::text::contains_str(&resolving, cur.as_str()) {
            return Err(BuildError::Invalid(concat("hard-link cycle includes ", cur.as_str())));
        }
        let found = entries.get(cur.as_str());
        match found {
            None => {
                return Err(BuildError::Invalid(concat("hard-link target does not exist: ", cur.as_str())));
            },
            Some(e) => {
                assert(m[cur@] == e@);
                match e.kind {
                    EntryKind::HardLink => {},
                    EntryKind::Regular => {
                        let mut r = e.duplicate();
                        r.source = None;
                        r.link = None;
                        assert(resolving@.len() > 0);
                        return Ok(r);
                    },
                    _ => {
                        assert(resolving@.len() > 0);
                        return Err(BuildError::Invalid(concat("hard-link target is not a file: ", cur.as_str())));
                    },
                }
                let target = match &e.link {
                    Some(l) => match slash_path(l.as_str()) {
                        Ok(t) => t,
                        Err(err) => {
                            return Err(err);
                        },
                    },
                    None => {
                        return Err(BuildError::Invalid(concat("hard link has no target: ", cur.as_str())));
                    },
                };
                let ghost before = views(resolving@);
                resolving.push(cur);
                proof {
                    assert(views(resolving@) =~= before.push(m_key(cur@)));
                    assert(fuel@ > 0) by {
                        if resolving@.len() - 1 == link_fuel(m) {
                        }
                    }
                    assert forall|i: int| 0 <= i < resolving@.len() implies m.contains_key(#[trigger] views(resolving@)[i]) by {
                        if i < before.len() {
                            assert(views(resolving@)[i] == before[i]);
                        }
                    }
                    assert(views(resolving@).no_duplicates()) by {
                        assert forall|i: int, j: int| 0 <= i < views(resolving@).len() && 0 <= j < views(resolving@).len() && i != j implies views(resolving@)[i] != views(resolving@)[j] by {
                            if i < before.len() && j < before.len() {
                                assert(views(resolving@)[i] == before[i]);
                                assert(views(resolving@)[j] == before[j]);
                            } else if i < before.len() {
                                assert(views(resolving@)[i] == before[i]);
                                assert(before.contains(before[i]));
                            } else if j < before.len() {
                                assert(views(resolving@)[j] == before[j]);
                                assert(before.contains(before[j]));
                            }
                        }
                    }
                    lemma_distinct_bound(views(resolving@), m.dom());
                }
                cur = target;
            },
        }
    }
}

pub open spec fn m_key(k: Seq<char>) -> Seq<char> {
    k
}

/// Replaces every hard link by a copy of the regular file it resolves to.
pub fn materialize_hard_links(entries: &mut StrMap<FsEntry>) -> (r: Result<(), BuildError>)
    requires
        old(entries).wf(),
    ensures
        final(entries).wf(),
        r is Ok <==> links_resolve(view_map(old(entries).view())),
        r is Ok ==> view_map(final(entries).view()) == materialize_spec(view_map(old(entries).view())),
        r is Err ==> r->Err_0 is Invalid,
{
    let ghost m = view_map(entries.view());
    proof {
        entries.lemma_view();
    }
    let mut results: Vec<(String, FsEntry)> = Vec::new();
    let mut i: usize = 0;
    let ghost items0 = entries.items();
    while i < entries.len()
        invariant
            entries.wf(),
            m == view_map(entries.view()),
            items0 == entries.items(),
            i <= items0.len(),
            forall|j: int| 0 <= j < i && items0[j].1.kind == EntryKind::HardLink ==> resolve_hard_link(m, #[trigger] items0[j].0@) is Some,
            forall|t: int| 0 <= t < results@.len() ==> #[trigger] results@[t].0@ == results@[t].0@
                && m.contains_key(results@[t].0@) && m[results@[t].0@].kind == EntryKind::HardLink
                && resolve_hard_link(m, results@[t].0@) == Some(results@[t].1@),
            forall|q: Seq<char>| m.contains_key(q) && m[q].kind == EntryKind::HardLink && (exists|j: int| 0 <= j < i && items0[j].0@ == q)
                ==> exists|t: int| 0 <= t < results@.len() && #[trigger] results@[t].0@ == q,
        decreases items0.len() - i,
    {
        proof {
            entries.lemma_view();
        }
        let (k, v) = entries.at(i);
        assert(keys_of(items0)[i as int] == k@);
        assert(keys_of(items0).contains(k@));
        assert(entries.view()[items0[i as int].0@] == items0[i as int].1);
        assert(m[k@] == v@);
        if v.kind == EntryKind::HardLink {
            match materialize_hard_link(k.as_str(), entries) {
                Ok(e) => {
                    let ghost before = results@;
                    results.push((k.clone(), e));
                    proof {
                        assert forall|q: Seq<char>| m.contains_key(q) && m[q].kind == EntryKind::HardLink && (exists|j: int| 0 <= j < i + 1 && items0[j].0@ == q)
                            implies exists|t: int| 0 <= t < results@.len() && #[trigger] results@[t].0@ == q by {
                            let j = choose|j: int| 0 <= j < i + 1 && items0[j].0@ == q;
                            if j < i {
                                let t = choose|t: int| 0 <= t < before.len() && #[trigger] before[t].0@ == q;
                                assert(results@[t] == before[t]);
                            } else {
                                assert(results@[before.len() as int].0@ == q);
                            }
                        }
                        assert forall|t: int| 0 <= t < results@.len() implies #[trigger] results@[t].0@ == results@[t].0@
                            && m.contains_key(results@[t].0@) && m[results@[t].0@].kind == EntryKind::HardLink
                            && resolve_hard_link(m, results@[t].0@) == Some(results@[t].1@) by {
                            if t < before.len() {
                                assert(results@[t] == before[t]);
                            }
                        }
                    }
                },
                Err(err) => {
                    proof {
                        assert(m.contains_key(k@) && m[k@].kind == EntryKind::HardLink);
                        assert(!links_resolve(m));
                    }
                    return Err(err);
                },
            }
        } else {
            proof {
                assert forall|q: Seq<char>| m.contains_key(q) && m[q].kind == EntryKind::HardLink && (exists|j: int| 0 <= j < i + 1 && items0[j].0@ == q)
                    implies exists|t: int| 0 <= t < results@.len() && #[trigger] results@[t].0@ == q by {
                    let j = choose|j: int| 0 <= j < i + 1 && items0[j].0@ == q;
                    if j == i {
                        assert(q == k@);
                    }
                }
            }
        }
        i = i + 1;
    }
    proof {
        assert forall|k: Seq<char>| #[trigger] m.contains_key(k) && m[k].kind == EntryKind::HardLink implies resolve_hard_link(m, k) is Some by {
            assert(keys_of(items0).contains(k));
            let j = choose|j: int| 0 <= j < keys_of(items0).len() && keys_of(items0)[j] == k;
            assert(items0[j].0@ == k);
            assert(m[items0[j].0@] == items0[j].1@);
        }
    }
    let ghost rs = results@;
    assert(rs.len() == results.len());
    let mut t: usize = 0;
    while results.len() > 0
        invariant
            entries.wf(),
            t <= rs.len(),
            results@ == rs.skip(t as int),
            rs.len() <= usize::MAX,
            entries.view().dom() == old(entries).view().dom(),
            forall|q: Seq<char>| #[trigger] entries.view().contains_key(q) ==> (
                if exists|s: int| 0 <= s < t && rs[s].0@ == q {
                    entries.view()[q]@ == resolve_hard_link(m, q).unwrap()
                } else {
                    entries.view()[q] == old(entries).view()[q]
                }),
            forall|s: int| 0 <= s < rs.len() ==> #[trigger] rs[s].0@ == rs[s].0@ && m.contains_key(rs[s].0@)
                && m[rs[s].0@].kind == EntryKind::HardLink && resolve_hard_link(m, rs[s].0@) == Some(rs[s].1@),
            m == view_map(old(entries).view()),
        decreases results@.len(),
    {
        let (k, e) = results.remove(0);
        assert((k, e) == rs[t as int]);
        let ghost before = entries.view();
        entries.insert(k, e);
        proof {
            assert(entries.view() == before.insert(rs[t as int].0@, rs[t as int].1));
            assert(entries.view().dom() =~= before.dom());
            assert forall|q: Seq<char>| #[trigger] entries.view().contains_key(q) implies (
                if exists|s: int| 0 <= s < t + 1 && rs[s].0@ == q {
                    entries.view()[q]@ == resolve_hard_link(m, q).unwrap()
                } else {
                    entries.view()[q] == old(entries).view()[q]
                }) by {
                if q != rs[t as int].0@ {
                    if exists|s: int| 0 <= s < t + 1 && rs[s].0@ == q {
                        let s = choose|s: int| 0 <= s < t + 1 && rs[s].0@ == q;
                        assert(s < t);
                    }
                } else {
                    assert(0 <= t < t + 1 && rs[t as int].0@ == q);
                }
            }
        }
        t = t + 1;
        assert(results@ =~= rs.skip(t as int));
    }
    proof {
        assert(view_map(entries.view()) =~= materialize_spec(m)) by {
            assert forall|q: Seq<char>| #[trigger] view_map(entries.view()).contains_key(q) implies view_map(entries.view())[q] == materialize_spec(m)[q] by {
                if m[q].kind == EntryKind::HardLink {
                    assert(exists|j: int| 0 <= j < items0.len() && items0[j].0@ == q) by {
                        assert(keys_of(items0).contains(q));
                        let j = choose|j: int| 0 <= j < keys_of(items0).len() && keys_of(items0)[j] == q;
                        assert(items0[j].0@ == q);
                    }
                    let s = choose|s: int| 0 <= s < rs.len() && #[trigger] rs[s].0@ == q;
                    assert(exists|s2: int| 0 <= s2 < t && rs[s2].0@ == q);
                } else {
                    if exists|s: int| 0 <= s < t && rs[s].0@ == q {
                        let s = choose|s: int| 0 <= s < t && rs[s].0@ == q;
                        assert(m[rs[s].0@].kind == EntryKind::HardLink);
                    }
                }
            }
        }
    }
    Ok(())
}

} // verus!

verus! {

/// Placing an entry puts it at its path, keeps every other surviving entry unchanged, leaves
/// nothing below a path that is not a directory, and leaves only directories above it.
pub proof fn lemma_insert_entry_laws(m: Map<Seq<char>, FsEntry>, p: Seq<char>, e: FsEntry)
    ensures
        insert_entry_spec(m, p, e).contains_key(p),
        insert_entry_spec(m, p, e)[p] == e,
        forall|k: Seq<char>| #[trigger] insert_entry_spec(m, p, e).contains_key(k) && k != p
            ==> m.contains_key(k) && insert_entry_spec(m, p, e)[k] == m[k],
        e.kind != EntryKind::Directory ==> forall|k: Seq<char>|
            #[trigger] insert_entry_spec(m, p, e).contains_key(k) ==> !is_within(k, p),
        forall|k: Seq<char>| #[trigger] insert_entry_spec(m, p, e).contains_key(k) && is_within(p, k)
            ==> insert_entry_spec(m, p, e)[k].kind == EntryKind::Directory,
{
    let r = insert_entry_spec(m, p, e);
    assert forall|k: Seq<char>| #[trigger] r.contains_key(k) && is_within(p, k) implies r[k].kind == EntryKind::Directory by {
        if k == p {
            assert(has_prefix(p, p + seq!['/']));
            assert(p.len() >= (p + seq!['/']).len());
        }
    }
    assert forall|k: Seq<char>| #[trigger] r.contains_key(k) && e.kind != EntryKind::Directory implies !is_within(k, p) by {
        if k == p {
            assert(!has_prefix(p, p + seq!['/']));
        }
    }
}

proof fn lemma_follow_link_regular(m: Map<Seq<char>, EntryView>, p: Seq<char>, visited: Seq<Seq<char>>, fuel: nat)
    ensures
        follow_link(m, p, visited, fuel) matches Some(e) ==> e.kind == EntryKind::Regular,
    decreases fuel,
{
    if fuel > 0 && !visited.contains(p) && m.contains_key(p) && m[p].kind == EntryKind::HardLink {
        if let Some(l) = m[p].link {
            if let Some(t) = slash_path_spec(l) {
                lemma_follow_link_regular(m, t, visited.push(p), (fuel - 1) as nat);
            }
        }
    }
}

/// Once hard links are resolved, none remains: each became a regular file.
pub proof fn lemma_no_hard_links_remain(m: Map<Seq<char>, EntryView>)
    requires
        links_resolve(m),
    ensures
        forall|k: Seq<char>| #[trigger] materialize_spec(m).contains_key(k)
            ==> materialize_spec(m)[k].kind != EntryKind::HardLink,
{
    assert forall|k: Seq<char>| #[trigger] materialize_spec(m).contains_key(k) implies materialize_spec(m)[k].kind != EntryKind::HardLink by {
        if m[k].kind == EntryKind::HardLink {
            assert(m.contains_key(k));
            lemma_follow_link_regular(m, k, Seq::empty(), link_fuel(m));
        }
    }
}

/// After a whiteout, nothing it hides remains.
pub proof fn lemma_whiteout_hides(m: Map<Seq<char>, FsEntry>, removed: Seq<char>, opaque: bool)
    ensures
        forall|k: Seq<char>| #[trigger] apply_whiteout_spec(m, removed, opaque).contains_key(k)
            ==> !whited_out(k, removed, opaque) && m.contains_key(k),
{
}

} // verus!
