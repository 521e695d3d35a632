//! Local sources copied into layers: which entries a file mapping contributes to a tree.
use vstd::prelude::*;
use vstd::string::*;

use crate::error::BuildError;
use crate::model::{FileMapping, Layer};
use crate::paths::{
    dot_dot, is_rooted, join_destination, lemma_path_names_join, lemma_path_names_join_relative, lemma_path_names_slash,
    lemma_single_name,
    names_of, normalize_destination, normalize_destination_spec, path_join, path_join_exec, path_names, slash_path,
    slash_path_spec,
};
use crate::strmap::StrMap;
use crate::text::{concat, str_eq, views};
use crate::tree::{insert_entry, insert_entry_spec, is_within, lemma_insert_view, view_map, EntryKind, FsEntry};

verus! {

/// Declares `globset::GlobSetBuilder`.
#[verifier::external_type_specification]
#[verifier::external_body]
pub struct ExGlobSetBuilder(globset::GlobSetBuilder);

/// Declares `globset::GlobSet`.
#[verifier::external_type_specification]
#[verifier::external_body]
pub struct ExGlobSet(globset::GlobSet);

/// Declares `globset::Error`.
#[verifier::external_type_specification]
#[verifier::external_body]
pub struct ExGlobError(globset::Error);

/// The patterns added to a glob set builder, in order.
pub uninterp spec fn globs_added(b: globset::GlobSetBuilder) -> Seq<Seq<char>>;

/// The patterns a glob set matches with.
pub uninterp spec fn glob_set_patterns(s: globset::GlobSet) -> Seq<Seq<char>>;

/// Whether a pattern is a valid glob when `/` must be matched literally and `\` escapes.
pub uninterp spec fn glob_valid(pattern: Seq<char>) -> bool;

/// Whether a set of valid globs compiles into a matcher.
pub uninterp spec fn glob_set_builds(patterns: Seq<Seq<char>>) -> bool;

/// Whether a path matches a valid glob in which `/` must be matched literally and `\` escapes.
pub uninterp spec fn glob_match(pattern: Seq<char>, path: Seq<char>) -> bool;

/// An empty glob set builder, through `globset::GlobSetBuilder::new`. Claims it holds no
/// patterns.
#[verifier::external_body]
fn glob_set_builder() -> (r: globset::GlobSetBuilder)
    ensures
        globs_added(r) == Seq::<Seq<char>>::empty(),
{
    globset::GlobSetBuilder::new()
}

/// Compiles `pattern` with `globset::GlobBuilder` (literal separator, backslash escapes) and
/// adds it with `globset::GlobSetBuilder::add`. Claims that it fails exactly for an invalid
/// pattern, and that on success the pattern is added.
#[verifier::external_body]
fn glob_set_add(b: &mut globset::GlobSetBuilder, pattern: &str) -> (r: Result<(), globset::Error>)
    ensures
        r is Ok <==> glob_valid(pattern@),
        r is Ok ==> globs_added(*final(b)) == globs_added(*old(b)).push(pattern@),
{
    let glob = globset::GlobBuilder::new(pattern).literal_separator(true).backslash_escape(true).build()?;
    b.add(glob);
    Ok(())
}

/// The matcher of the added patterns, through `globset::GlobSetBuilder::build`. Claims that
/// whether it succeeds depends on the patterns alone, that it succeeds with no pattern (the
/// empty set), and that the set holds them.
#[verifier::external_body]
fn glob_set_build(b: &globset::GlobSetBuilder) -> (r: Result<globset::GlobSet, globset::Error>)
    ensures
        r is Ok <==> glob_set_builds(globs_added(*b)),
        globs_added(*b).len() == 0 ==> r is Ok,
        r matches Ok(s) ==> glob_set_patterns(s) == globs_added(*b),
{
    b.build()
}

/// Whether any glob of the set matches `path`, through `globset::GlobSet::is_match`, as its
/// documentation states.
#[verifier::external_body]
fn glob_set_matches(s: &globset::GlobSet, path: &str) -> (r: bool)
    ensures
        r == (exists|i: int| 0 <= i < glob_set_patterns(*s).len() && glob_match(glob_set_patterns(*s)[i], path@)),
{
    s.is_match(path)
}

/// The message of a glob error, through its `Display`. Nothing is claimed of the text.
#[verifier::external_body]
fn glob_error_text(e: &globset::Error) -> String {
    format!("{e}")
}

/// Whether any of the globs matches `path`.
pub open spec fn any_glob(patterns: Seq<Seq<char>>, path: Seq<char>) -> bool {
    exists|i: int| 0 <= i < patterns.len() && glob_match(patterns[i], path)
}

/// Whether a walked path is copied: it matches an include glob, when there are any, and no
/// exclude glob.
pub open spec fn selected(includes: Seq<Seq<char>>, excludes: Seq<Seq<char>>, path: Seq<char>) -> bool {
    (includes.len() == 0 || any_glob(includes, path)) && !any_glob(excludes, path)
}

/// The kind of a local filesystem object, with what the layer takes from it.
#[derive(Debug)]
pub enum SourceKind {
    /// A regular file and its contents.
    File(Vec<u8>),
    Directory,
    /// A symbolic link and its target.
    Symlink(String),
    /// Anything else, which cannot be copied.
    Other,
}

/// A local filesystem object read for a file mapping.
#[derive(Debug)]
pub struct SourceItem {
    /// Its path on the local filesystem.
    pub path: String,
    /// Its path relative to the mapping's source (empty for the source itself).
    pub relative: String,
    pub kind: SourceKind,
    /// The permission bits the host reports.
    pub permissions: u32,
}

/// What reading a mapping's source gave: the source itself, the objects below it in walk order
/// (sorted by file name, depth first), and the error that stopped the walk after them, if any.
#[derive(Debug)]
pub struct SourceListing {
    pub root: SourceItem,
    pub walked: Vec<SourceItem>,
    pub walk_error: Option<String>,
}

/// Host permission bits, or `fallback` when they are all clear.
pub open spec fn host_mode(permissions: u32, fallback: u32) -> u32 {
    if permissions & 0o7777u32 == 0 {
        fallback
    } else {
        permissions & 0o7777u32
    }
}

pub open spec fn mode_or(mode: Option<u32>, default: u32) -> u32 {
    match mode {
        Some(m) => m,
        None => default,
    }
}

/// The entry a local object becomes under a mapping, or `None` when its kind cannot be copied.
pub open spec fn source_entry(m: FileMapping, item: SourceItem) -> Option<FsEntry> {
    match item.kind {
        SourceKind::Symlink(target) => Some(FsEntry {
            source: None,
            data: None,
            link: Some(target),
            kind: EntryKind::Symlink,
            mode: mode_or(m.mode, 0o777u32),
            uid: m.uid,
            gid: m.gid,
            device_major: None,
            device_minor: None,
        }),
        SourceKind::Directory => Some(FsEntry {
            source: None,
            data: None,
            link: None,
            kind: EntryKind::Directory,
            mode: mode_or(m.mode, 0o755u32),
            uid: m.uid,
            gid: m.gid,
            device_major: None,
            device_minor: None,
        }),
        SourceKind::File(data) => Some(FsEntry {
            source: Some(item.path),
            data: Some(data),
            link: None,
            kind: EntryKind::Regular,
            mode: mode_or(m.mode, host_mode(item.permissions, 0o644u32)),
            uid: m.uid,
            gid: m.gid,
            device_major: None,
            device_minor: None,
        }),
        SourceKind::Other => None,
    }
}

/// The last component of a path, as `Path::file_name` gives it: `None` when there is none or
/// the path ends in `..`.
pub open spec fn file_name_spec(s: Seq<char>) -> Option<Seq<char>> {
    let names = path_names(s);
    if names.len() == 0 || names.last() == dot_dot() {
        None
    } else {
        Some(names.last())
    }
}

/// The path the source keeps below the destination: its file name when paths are preserved.
pub open spec fn mapping_prefix(m: FileMapping) -> Option<Seq<char>> {
    if m.preserve_paths {
        file_name_spec(m.source@)
    } else {
        Some(Seq::empty())
    }
}

/// The tree after the walked objects, and whether any was copied; `None` on an error.
pub open spec fn walk_result(
    m: FileMapping,
    dest: Seq<char>,
    prefix: Seq<char>,
    items: Seq<SourceItem>,
    start: Map<Seq<char>, FsEntry>,
) -> Option<(Map<Seq<char>, FsEntry>, bool)>
    decreases items.len(),
{
    if items.len() == 0 {
        Some((start, false))
    } else {
        match walk_result(m, dest, prefix, items.drop_last(), start) {
            None => None,
            Some(acc) => {
                let it = items.last();
                match slash_path_spec(it.relative@) {
                    None => None,
                    Some(rel) => if !selected(views(m.includes@), views(m.exclude@), rel) {
                        Some(acc)
                    } else {
                        match slash_path_spec(path_join(dest, path_join(prefix, it.relative@))) {
                            None => None,
                            Some(target) => match source_entry(m, it) {
                                None => None,
                                Some(e) => Some((insert_entry_spec(acc.0, target, e), true)),
                            },
                        }
                    },
                }
            },
        }
    }
}

/// Whether every pattern is valid and the set compiles (a set of no pattern always does).
pub open spec fn globs_ok(patterns: Seq<Seq<char>>) -> bool {
    (forall|i: int| 0 <= i < patterns.len() ==> glob_valid(#[trigger] patterns[i])) && (patterns.len() == 0 || glob_set_builds(patterns))
}

/// Where a mapping places its source: the destination joined with the preserved file name;
/// `None` when either is refused.
pub open spec fn mapping_target(m: FileMapping) -> Option<Seq<char>> {
    match normalize_destination_spec(m.destination@) {
        None => None,
        Some(dest) => match mapping_prefix(m) {
            None => None,
            Some(prefix) => slash_path_spec(path_join(dest, prefix)),
        },
    }
}

/// The tree after a mapping copies its source, or `None` on an error.
pub open spec fn collect_spec(m: FileMapping, listing: SourceListing, tree: Map<Seq<char>, FsEntry>) -> Option<Map<Seq<char>, FsEntry>> {
    match normalize_destination_spec(m.destination@) {
        None => None,
        Some(dest) => match mapping_prefix(m) {
            None => None,
            Some(prefix) => match slash_path_spec(path_join(dest, prefix)) {
                None => None,
                Some(target) => if !(listing.root.kind is Directory) {
                    if target.len() == 0 {
                        None
                    } else {
                        match source_entry(m, listing.root) {
                            None => None,
                            Some(e) => Some(insert_entry_spec(tree, target, e)),
                        }
                    }
                } else {
                    let tree1 = if target.len() > 0 {
                        insert_entry_spec(tree, target, source_entry(m, listing.root).unwrap())
                    } else {
                        tree
                    };
                    if !globs_ok(views(m.includes@)) || !globs_ok(views(m.exclude@)) {
                        None
                    } else {
                        match walk_result(m, dest, prefix, listing.walked@, tree1) {
                            None => None,
                            Some(acc) => if listing.walk_error is Some {
                                None
                            } else if !acc.1 && (m.includes@.len() > 0 || m.exclude@.len() > 0) {
                                None
                            } else {
                                Some(acc.0)
                            },
                        }
                    }
                },
            },
        },
    }
}

/// Whether the names of `path` begin with `names`.
pub open spec fn names_begin(path: Seq<char>, names: Seq<Seq<char>>) -> bool {
    names.len() <= path_names(path).len() && path_names(path).take(names.len() as int) == names
}

proof fn lemma_insert_keys(m: Map<Seq<char>, FsEntry>, p: Seq<char>, e: FsEntry)
    ensures
        forall|k: Seq<char>| #[trigger] insert_entry_spec(m, p, e).contains_key(k) ==> m.contains_key(k) || k == p,
{
}

/// The place of a path below `dest` joined with `prefix`: its names are those of `dest`, then
/// those of `prefix`, then its own.
proof fn lemma_target_names(dest: Seq<char>, prefix: Seq<char>, r: Seq<char>)
    requires
        !is_rooted(prefix),
        !is_rooted(r),
    ensures
        slash_path_spec(path_join(dest, path_join(prefix, r))) matches Some(t)
            ==> path_names(t) == path_names(dest) + path_names(prefix) + path_names(r),
{
    lemma_path_names_join_relative(prefix, r);
    lemma_path_names_join_relative(dest, path_join(prefix, r));
    lemma_path_names_join(path_join(dest, path_join(prefix, r)));
    assert(path_names(dest) + (path_names(prefix) + path_names(r)) =~= path_names(dest) + path_names(prefix) + path_names(r));
}

proof fn lemma_walk_below(
    m: FileMapping,
    dest: Seq<char>,
    prefix: Seq<char>,
    items: Seq<SourceItem>,
    start: Map<Seq<char>, FsEntry>,
)
    requires
        !is_rooted(prefix),
    ensures
        walk_result(m, dest, prefix, items, start) matches Some(acc) ==> forall|k: Seq<char>|
            #[trigger] acc.0.contains_key(k) && !start.contains_key(k) ==> exists|j: int| 0 <= j < items.len()
                && path_names(k) == path_names(dest) + path_names(prefix) + path_names((#[trigger] items[j]).relative@),
    decreases items.len(),
{
    if items.len() > 0 {
        lemma_walk_below(m, dest, prefix, items.drop_last(), start);
        if let Some(prev) = walk_result(m, dest, prefix, items.drop_last(), start) {
            let it = items.last();
            if let Some(rel) = slash_path_spec(it.relative@) {
                if selected(views(m.includes@), views(m.exclude@), rel) {
                    if let Some(target) = slash_path_spec(path_join(dest, path_join(prefix, it.relative@))) {
                        if let Some(e) = source_entry(m, it) {
                            lemma_target_names(dest, prefix, it.relative@);
                            lemma_insert_keys(prev.0, target, e);
                            let acc = insert_entry_spec(prev.0, target, e);
                            assert forall|k: Seq<char>| #[trigger] acc.contains_key(k) && !start.contains_key(k)
                                implies exists|j: int| 0 <= j < items.len()
                                && path_names(k) == path_names(dest) + path_names(prefix) + path_names((#[trigger] items[j]).relative@) by {
                                if k == target {
                                    assert(items[items.len() - 1] == it);
                                } else {
                                    assert(prev.0.contains_key(k));
                                    let j = choose|j: int| 0 <= j < items.drop_last().len()
                                        && path_names(k) == path_names(dest) + path_names(prefix) + path_names((#[trigger] items.drop_last()[j]).relative@);
                                    assert(items[j] == items.drop_last()[j]);
                                }
                            }
                        }
                    }
                }
            }
        }
    }
}

/// Whether one sequence of names begins with the other.
pub open spec fn names_related(a: Seq<Seq<char>>, b: Seq<Seq<char>>) -> bool {
    ||| (a.len() <= b.len() && b.take(a.len() as int) == a)
    ||| (b.len() <= a.len() && a.take(b.len() as int) == b)
}

proof fn lemma_within_names(k: Seq<char>, p: Seq<char>)
    requires
        is_within(k, p),
    ensures
        path_names(p).len() <= path_names(k).len(),
        path_names(k).take(path_names(p).len() as int) == path_names(p),
{
    let rest = k.skip(p.len() as int + 1);
    assert(k =~= p + seq!['/'] + rest) by {
        assert forall|i: int| 0 <= i < k.len() implies k[i] == (p + seq!['/'] + rest)[i] by {
            if i <= p.len() {
                assert(k[i] == k.take(p.len() as int + 1)[i]);
            }
        }
    }
    lemma_path_names_slash(p, rest);
    assert((path_names(p) + path_names(rest)).take(path_names(p).len() as int) =~= path_names(p));
}

proof fn lemma_unrelated_targets(pre: Seq<Seq<char>>, a: Seq<Seq<char>>, b: Seq<Seq<char>>, ka: Seq<char>, kb: Seq<char>)
    requires
        path_names(ka) == pre + a,
        path_names(kb) == pre + b,
        !names_related(a, b),
    ensures
        ka != kb,
        !is_within(ka, kb),
        !is_within(kb, ka),
{
    if ka == kb {
        assert(a =~= (pre + a).skip(pre.len() as int));
        assert(b =~= (pre + b).skip(pre.len() as int));
        assert(a.take(b.len() as int) =~= b);
    }
    if is_within(ka, kb) {
        lemma_within_names(ka, kb);
        assert((pre + a).take((pre + b).len() as int) == pre + b);
        assert forall|i: int| 0 <= i < b.len() implies a[i] == b[i] by {
            assert((pre + a).take((pre + b).len() as int)[pre.len() + i] == (pre + b)[pre.len() + i]);
        }
        assert(a.take(b.len() as int) =~= b);
    }
    if is_within(kb, ka) {
        lemma_within_names(kb, ka);
        assert((pre + b).take((pre + a).len() as int) == pre + a);
        assert forall|i: int| 0 <= i < a.len() implies b[i] == a[i] by {
            assert((pre + b).take((pre + a).len() as int)[pre.len() + i] == (pre + a)[pre.len() + i]);
        }
        assert(b.take(a.len() as int) =~= a);
    }
}

proof fn lemma_walk_keeps(
    m: FileMapping,
    dest: Seq<char>,
    prefix: Seq<char>,
    items: Seq<SourceItem>,
    start: Map<Seq<char>, FsEntry>,
    j: int,
)
    requires
        !is_rooted(prefix),
        0 <= j < items.len(),
        source_entry(m, items[j]) is Some,
        slash_path_spec(items[j].relative@) matches Some(rel) && selected(views(m.includes@), views(m.exclude@), rel),
        forall|j2: int| j < j2 < items.len() ==> !names_related(path_names((#[trigger] items[j2]).relative@), path_names(items[j].relative@)),
    ensures
        walk_result(m, dest, prefix, items, start) matches Some(acc) ==> exists|k: Seq<char>| #[trigger] acc.0.contains_key(k)
            && path_names(k) == path_names(dest) + path_names(prefix) + path_names(items[j].relative@)
            && acc.0[k] == source_entry(m, items[j]).unwrap(),
    decreases items.len(),
{
    let pre = path_names(dest) + path_names(prefix);
    if let Some(acc) = walk_result(m, dest, prefix, items, start) {
        let prev = walk_result(m, dest, prefix, items.drop_last(), start).unwrap();
        let it = items.last();
        if j == items.len() - 1 {
            if let Some(rel) = slash_path_spec(it.relative@) {
                if selected(views(m.includes@), views(m.exclude@), rel) {
                    let target = slash_path_spec(path_join(dest, path_join(prefix, it.relative@))).unwrap();
                    lemma_target_names(dest, prefix, it.relative@);
                    assert(acc.0.contains_key(target));
                }
            }
        } else {
            assert forall|j2: int| j < j2 < items.drop_last().len() implies
                !names_related(path_names((#[trigger] items.drop_last()[j2]).relative@), path_names(items.drop_last()[j].relative@)) by {
                assert(items.drop_last()[j2] == items[j2]);
                assert(items.drop_last()[j] == items[j]);
            }
            assert(items.drop_last()[j] == items[j]);
            lemma_walk_keeps(m, dest, prefix, items.drop_last(), start, j);
            let k = choose|k: Seq<char>| #[trigger] prev.0.contains_key(k)
                && path_names(k) == pre + path_names(items[j].relative@)
                && prev.0[k] == source_entry(m, items[j]).unwrap();
            if acc != prev {
                let target = slash_path_spec(path_join(dest, path_join(prefix, it.relative@))).unwrap();
                let e = source_entry(m, it).unwrap();
                lemma_target_names(dest, prefix, it.relative@);
                assert(items[items.len() - 1] == it);
                lemma_unrelated_targets(pre, path_names(items[j].relative@), path_names(it.relative@), k, target);
                assert(acc.0 == insert_entry_spec(prev.0, target, e));
                assert(acc.0.contains_key(k));
            }
        }
    }
}

/// With paths preserved, each walked object of a directory whose source mapping selects and can
/// copy it lands at `destination/name/r`, its relative path `r` below the source's file name,
/// unless a later walked object's path lies on the same line (is it, holds it or lies in it).
pub proof fn lemma_walked_objects_land(m: FileMapping, listing: SourceListing, tree: Map<Seq<char>, FsEntry>, j: int)
    requires
        m.preserve_paths,
        listing.root.kind is Directory,
        0 <= j < listing.walked@.len(),
        slash_path_spec(listing.walked@[j].relative@) matches Some(rel) && selected(views(m.includes@), views(m.exclude@), rel),
        source_entry(m, listing.walked@[j]) is Some,
        forall|j2: int| j < j2 < listing.walked@.len()
            ==> !names_related(path_names((#[trigger] listing.walked@[j2]).relative@), path_names(listing.walked@[j].relative@)),
    ensures
        collect_spec(m, listing, tree) matches Some(t) ==> file_name_spec(m.source@) matches Some(name)
            && exists|k: Seq<char>| #[trigger] t.contains_key(k)
                && path_names(k) == path_names(m.destination@).push(name) + path_names(listing.walked@[j].relative@)
                && t[k] == source_entry(m, listing.walked@[j]).unwrap(),
{
    if let Some(t) = collect_spec(m, listing, tree) {
        let dest = normalize_destination_spec(m.destination@).unwrap();
        let name = file_name_spec(m.source@).unwrap();
        lemma_path_names_join(m.destination@);
        lemma_single_name(m.source@);
        assert(path_names(dest) + path_names(name) =~= path_names(m.destination@).push(name));
        let target = slash_path_spec(path_join(dest, name)).unwrap();
        let tree1 = if target.len() > 0 {
            insert_entry_spec(tree, target, source_entry(m, listing.root).unwrap())
        } else {
            tree
        };
        lemma_walk_keeps(m, dest, name, listing.walked@, tree1, j);
    }
}

/// With paths preserved, everything a mapping adds to a tree lies at or below its destination
/// joined with the source's file name: a walked directory keeps its own name, so an object at
/// relative path `r` goes under `destination/name/r`.
pub proof fn lemma_preserved_paths_keep_name(m: FileMapping, listing: SourceListing, tree: Map<Seq<char>, FsEntry>)
    requires
        m.preserve_paths,
    ensures
        collect_spec(m, listing, tree) matches Some(t) ==> file_name_spec(m.source@) matches Some(name)
            && forall|k: Seq<char>| #[trigger] t.contains_key(k) && !tree.contains_key(k)
                ==> names_begin(k, path_names(m.destination@).push(name)) && (path_names(k) == path_names(m.destination@).push(name)
                    || exists|j: int| 0 <= j < listing.walked@.len()
                        && path_names(k) == path_names(m.destination@).push(name) + path_names((#[trigger] listing.walked@[j]).relative@)),
{
    if let Some(t) = collect_spec(m, listing, tree) {
        let dest = normalize_destination_spec(m.destination@).unwrap();
        let name = file_name_spec(m.source@).unwrap();
        lemma_path_names_join(m.destination@);
        assert(path_names(dest) == path_names(m.destination@));
        lemma_single_name(m.source@);
        assert(path_names(name) == seq![name]);
        let pre = path_names(dest) + path_names(name);
        assert(pre =~= path_names(m.destination@).push(name));
        let target = slash_path_spec(path_join(dest, name)).unwrap();
        lemma_path_names_join_relative(dest, name);
        lemma_path_names_join(path_join(dest, name));
        assert(path_names(target) == pre);
        assert(path_names(target).take(pre.len() as int) =~= pre);
        if !(listing.root.kind is Directory) {
            lemma_insert_keys(tree, target, source_entry(m, listing.root).unwrap());
        } else {
            let tree1 = if target.len() > 0 {
                insert_entry_spec(tree, target, source_entry(m, listing.root).unwrap())
            } else {
                tree
            };
            lemma_insert_keys(tree, target, source_entry(m, listing.root).unwrap());
            lemma_walk_below(m, dest, name, listing.walked@, tree1);
            assert forall|k: Seq<char>| #[trigger] t.contains_key(k) && !tree.contains_key(k)
                implies names_begin(k, path_names(m.destination@).push(name)) by {
                if !tree1.contains_key(k) {
                    let j = choose|j: int| 0 <= j < listing.walked@.len()
                        && path_names(k) == path_names(dest) + path_names(name) + path_names((#[trigger] listing.walked@[j]).relative@);
                    assert(path_names(k).take(pre.len() as int) =~= pre);
                } else {
                    assert(k == target);
                }
            }
        }
    }
}

/// The last component of a path, as `Path::file_name` gives it.
pub fn file_name(path: &str) -> (r: Option<String>)
    ensures
        match r {
            Some(n) => file_name_spec(path@) == Some(n@),
            None => file_name_spec(path@) is None,
        },
{
    let mut names = names_of(path);
    proof {
        reveal_strlit("..");
        assert(".."@ =~= dot_dot());
    }
    match names.pop() {
        None => None,
        Some(last) => {
            if str_eq(last.as_str(), "..") {
                None
            } else {
                Some(last)
            }
        },
    }
}

/// Compiles the patterns into a glob set.
fn build_globs(patterns: &Vec<String>) -> (r: Result<globset::GlobSet, BuildError>)
    ensures
        match r {
            Ok(s) => globs_ok(views(patterns@)) && glob_set_patterns(s) == views(patterns@),
            Err(e) => !globs_ok(views(patterns@)) && e is Invalid,
        },
{
    let mut b = glob_set_builder();
    let mut i: usize = 0;
    while i < patterns.len()
        invariant
            i <= patterns@.len(),
            globs_added(b) == views(patterns@).take(i as int),
            forall|j: int| 0 <= j < i ==> glob_valid(#[trigger] views(patterns@)[j]),
        decreases patterns@.len() - i,
    {
        match glob_set_add(&mut b, patterns[i].as_str()) {
            Ok(()) => {},
            Err(e) => {
                assert(!glob_valid(views(patterns@)[i as int]));
                let quoted = concat("invalid glob \"", patterns[i].as_str());
                let head = concat(quoted.as_str(), "\": ");
                return Err(BuildError::Invalid(concat(head.as_str(), glob_error_text(&e).as_str())));
            },
        }
        assert(views(patterns@).take(i + 1) =~= views(patterns@).take(i as int).push(patterns@[i as int]@));
        i = i + 1;
    }
    assert(views(patterns@).take(i as int) =~= views(patterns@));
    match glob_set_build(&b) {
        Ok(s) => Ok(s),
        Err(e) => Err(BuildError::Invalid(glob_error_text(&e))),
    }
}

/// Host permission bits, or `fallback` when they are all clear.
fn host_mode_of(permissions: u32, fallback: u32) -> (r: u32)
    ensures
        r == host_mode(permissions, fallback),
{
    let m = permissions & 0o7777u32;
    if m == 0 {
        fallback
    } else {
        m
    }
}

impl FileMapping {
    /// The entry a local object becomes under this mapping.
    pub fn entry_for(&self, item: SourceItem) -> (r: Result<FsEntry, BuildError>)
        ensures
            match source_entry(*self, item) {
                Some(e) => r matches Ok(x) && x == e,
                None => r matches Err(BuildError::Invalid(_)),
            },
    {
        let SourceItem { path, relative, kind, permissions } = item;
        let mode_or_default = |d: u32| -> (m: u32)
            ensures
                m == mode_or(self.mode, d),
        {
            match self.mode {
                Some(m) => m,
                None => d,
            }
        };
        match kind {
            SourceKind::Symlink(target) => Ok(FsEntry {
                source: None,
                data: None,
                link: Some(target),
                kind: EntryKind::Symlink,
                mode: mode_or_default(0o777u32),
                uid: self.uid,
                gid: self.gid,
                device_major: None,
                device_minor: None,
            }),
            SourceKind::Directory => Ok(FsEntry {
                source: None,
                data: None,
                link: None,
                kind: EntryKind::Directory,
                mode: mode_or_default(0o755u32),
                uid: self.uid,
                gid: self.gid,
                device_major: None,
                device_minor: None,
            }),
            SourceKind::File(data) => Ok(FsEntry {
                source: Some(path),
                data: Some(data),
                link: None,
                kind: EntryKind::Regular,
                mode: mode_or_default(host_mode_of(permissions, 0o644u32)),
                uid: self.uid,
                gid: self.gid,
                device_major: None,
                device_minor: None,
            }),
            SourceKind::Other => Err(BuildError::Invalid(concat("unsupported file type at ", path.as_str()))),
        }
    }
}

impl FileMapping {
    /// Copies this mapping's source, as read in `listing`, into the tree `entries`: a file (or
    /// link) at the destination, or a directory and the walked objects selected by the globs.
    pub fn collect_into(&self, listing: SourceListing, entries: &mut StrMap<FsEntry>) -> (r: Result<(), BuildError>)
        requires
            old(entries).wf(),
        ensures
            final(entries).wf(),
            match collect_spec(*self, listing, old(entries).view()) {
                Some(t) => r is Ok && final(entries).view() == t,
                None => r matches Err(BuildError::Invalid(_)),
            },
            r is Err && (mapping_target(*self) is None || !(listing.root.kind is Directory)) ==> final(entries).view() == old(entries).view(),
    {
        let ghost lv = listing;
        let destination = match normalize_destination(self.destination.as_str()) {
            Ok(d) => d,
            Err(e) => {
                return Err(e);
            },
        };
        let prefix: String = if self.preserve_paths {
            match file_name(self.source.as_str()) {
                Some(n) => n,
                None => {
                    return Err(BuildError::Invalid(concat("cannot preserve path for ", self.source.as_str())));
                },
            }
        } else {
            String::new()
        };
        let SourceListing { root, walked, walk_error } = listing;
        let target = match join_destination(destination.as_str(), prefix.as_str()) {
            Ok(t) => t,
            Err(e) => {
                return Err(e);
            },
        };
        let is_dir = match &root.kind {
            SourceKind::Directory => true,
            _ => false,
        };
        assert(mapping_target(*self) == Some(target@));
        if !is_dir {
            if target.as_str().is_empty() {
                return Err(BuildError::Invalid("a file cannot be copied to the image root".to_owned()));
            }
            let e = match self.entry_for(root) {
                Ok(e) => e,
                Err(err) => {
                    return Err(err);
                },
            };
            insert_entry(entries, target, e);
            return Ok(());
        }
        if !target.as_str().is_empty() {
            let e = match self.entry_for(root) {
                Ok(e) => e,
                Err(err) => {
                    return Err(err);
                },
            };
            insert_entry(entries, target, e);
        }
        let includes = match build_globs(&self.includes) {
            Ok(g) => g,
            Err(e) => {
                return Err(e);
            },
        };
        let excludes = match build_globs(&self.exclude) {
            Ok(g) => g,
            Err(e) => {
                return Err(e);
            },
        };
        let ghost tree1 = entries.view();
        let ghost items = walked@;
        let mut rest = walked;
        let mut matched = false;
        let ghost mut i: int = 0;
        proof {
            assert(items.take(0) =~= Seq::<SourceItem>::empty());
            assert(items.skip(0) =~= items);
        }
        assert(walk_result(*self, destination@, prefix@, items, tree1) is None ==> collect_spec(*self, lv, old(entries).view()) is None);
        while rest.len() > 0
            invariant
                mapping_target(*self) is Some,
                lv.root.kind is Directory,
                walk_result(*self, destination@, prefix@, items, tree1) is None ==> collect_spec(*self, lv, old(entries).view()) is None,
                lv == listing,
                0 <= i <= items.len(),
                rest@ == items.skip(i),
                entries.wf(),
                walk_result(*self, destination@, prefix@, items.take(i), tree1) == Some((entries.view(), matched)),
                glob_set_patterns(includes) == views(self.includes@),
                glob_set_patterns(excludes) == views(self.exclude@),
            decreases rest@.len(),
        {
            let item = rest.remove(0);
            proof {
                assert(item == items[i]);
                assert(rest@ =~= items.skip(i + 1));
                assert(items.take(i + 1).drop_last() =~= items.take(i));
                assert(items.take(i + 1).last() == items[i]);
            }
            let rel = match slash_path(item.relative.as_str()) {
                Ok(p) => p,
                Err(e) => {
                    proof {
                        lemma_walk_stops(*self, destination@, prefix@, items, tree1, i + 1);
                    }
                    return Err(e);
                },
            };
            let inc_ok = self.includes.len() == 0 || glob_set_matches(&includes, rel.as_str());
            let excluded = glob_set_matches(&excludes, rel.as_str());
            if inc_ok && !excluded {
                let path = path_join_exec(prefix.as_str(), item.relative.as_str());
                let dest = match join_destination(destination.as_str(), path.as_str()) {
                    Ok(d) => d,
                    Err(e) => {
                        proof {
                            lemma_walk_stops(*self, destination@, prefix@, items, tree1, i + 1);
                        }
                        return Err(e);
                    },
                };
                let e = match self.entry_for(item) {
                    Ok(e) => e,
                    Err(err) => {
                        proof {
                            lemma_walk_stops(*self, destination@, prefix@, items, tree1, i + 1);
                        }
                        return Err(err);
                    },
                };
                insert_entry(entries, dest, e);
                matched = true;
            }
            proof {
                i = i + 1;
            }
        }
        proof {
            assert(items.take(i) =~= items);
        }
        if let Some(err) = walk_error {
            return Err(BuildError::Invalid(err));
        }
        if !matched && (self.includes.len() > 0 || self.exclude.len() > 0) {
            let head = concat("file mapping from ", self.source.as_str());
            return Err(BuildError::Invalid(concat(head.as_str(), " matched no files")));
        }
        Ok(())
    }
}

/// The tree after the mappings copy their sources in order, or `None` on an error.
pub open spec fn collect_all(files: Seq<FileMapping>, listings: Seq<SourceListing>, tree: Map<Seq<char>, FsEntry>) -> Option<Map<Seq<char>, FsEntry>>
    decreases files.len(),
{
    if files.len() == 0 {
        Some(tree)
    } else {
        match collect_all(files.drop_last(), listings.drop_last(), tree) {
            None => None,
            Some(t) => collect_spec(files.last(), listings.last(), t),
        }
    }
}

/// Whether two results of copying sources agree on which fails and on the abstract trees.
pub open spec fn same_tree_view(a: Option<Map<Seq<char>, FsEntry>>, b: Option<Map<Seq<char>, FsEntry>>) -> bool {
    match (a, b) {
        (None, None) => true,
        (Some(x), Some(y)) => view_map(x) == view_map(y),
        _ => false,
    }
}

/// Walking the same objects over trees with the same abstract entries gives trees with the
/// same abstract entries.
proof fn lemma_walk_views(
    m: FileMapping,
    dest: Seq<char>,
    prefix: Seq<char>,
    items: Seq<SourceItem>,
    s1: Map<Seq<char>, FsEntry>,
    s2: Map<Seq<char>, FsEntry>,
)
    requires
        view_map(s1) == view_map(s2),
    ensures
        match (walk_result(m, dest, prefix, items, s1), walk_result(m, dest, prefix, items, s2)) {
            (None, None) => true,
            (Some(a), Some(b)) => a.1 == b.1 && view_map(a.0) == view_map(b.0),
            _ => false,
        },
    decreases items.len(),
{
    if items.len() > 0 {
        lemma_walk_views(m, dest, prefix, items.drop_last(), s1, s2);
        match (walk_result(m, dest, prefix, items.drop_last(), s1), walk_result(m, dest, prefix, items.drop_last(), s2)) {
            (Some(a), Some(b)) => {
                let it = items.last();
                match slash_path_spec(path_join(dest, path_join(prefix, it.relative@))) {
                    Some(target) => match source_entry(m, it) {
                        Some(e) => {
                            lemma_insert_view(a.0, target, e);
                            lemma_insert_view(b.0, target, e);
                        },
                        None => {},
                    },
                    None => {},
                }
            },
            _ => {},
        }
    }
}

/// Copying a mapping's sources into trees with the same abstract entries gives trees with the
/// same abstract entries.
pub proof fn lemma_collect_views(m: FileMapping, listing: SourceListing, t1: Map<Seq<char>, FsEntry>, t2: Map<Seq<char>, FsEntry>)
    requires
        view_map(t1) == view_map(t2),
    ensures
        same_tree_view(collect_spec(m, listing, t1), collect_spec(m, listing, t2)),
{
    match normalize_destination_spec(m.destination@) {
        None => {},
        Some(dest) => match mapping_prefix(m) {
            None => {},
            Some(prefix) => match slash_path_spec(path_join(dest, prefix)) {
                None => {},
                Some(target) => {
                    if !(listing.root.kind is Directory) {
                        if target.len() > 0 {
                            match source_entry(m, listing.root) {
                                Some(e) => {
                                    lemma_insert_view(t1, target, e);
                                    lemma_insert_view(t2, target, e);
                                },
                                None => {},
                            }
                        }
                    } else {
                        let e = source_entry(m, listing.root).unwrap();
                        lemma_insert_view(t1, target, e);
                        lemma_insert_view(t2, target, e);
                        let a1 = if target.len() > 0 { insert_entry_spec(t1, target, e) } else { t1 };
                        let a2 = if target.len() > 0 { insert_entry_spec(t2, target, e) } else { t2 };
                        lemma_walk_views(m, dest, prefix, listing.walked@, a1, a2);
                    }
                },
            },
        },
    }
}

/// Copying all mappings' sources into trees with the same abstract entries gives trees with
/// the same abstract entries.
pub proof fn lemma_collect_all_views(
    files: Seq<FileMapping>,
    listings: Seq<SourceListing>,
    t1: Map<Seq<char>, FsEntry>,
    t2: Map<Seq<char>, FsEntry>,
)
    requires
        view_map(t1) == view_map(t2),
    ensures
        same_tree_view(collect_all(files, listings, t1), collect_all(files, listings, t2)),
    decreases files.len(),
{
    if files.len() > 0 {
        lemma_collect_all_views(files.drop_last(), listings.drop_last(), t1, t2);
        match (collect_all(files.drop_last(), listings.drop_last(), t1), collect_all(files.drop_last(), listings.drop_last(), t2)) {
            (Some(a), Some(b)) => lemma_collect_views(files.last(), listings.last(), a, b),
            _ => {},
        }
    }
}

impl Layer {
    /// Copies the sources of every mapping of this layer into `entries`, in order; later
    /// mappings replace earlier paths.
    pub fn collect_into(&self, listings: Vec<SourceListing>, entries: &mut StrMap<FsEntry>) -> (r: Result<(), BuildError>)
        requires
            old(entries).wf(),
            listings@.len() == self.files@.len(),
        ensures
            final(entries).wf(),
            match collect_all(self.files@, listings@, old(entries).view()) {
                Some(t) => r is Ok && final(entries).view() == t,
                None => r matches Err(BuildError::Invalid(_)),
            },
    {
        let ghost ls = listings@;
        let ghost start = entries.view();
        let mut rest = listings;
        let mut i: usize = 0;
        proof {
            assert(self.files@.take(0) =~= Seq::<FileMapping>::empty());
            assert(ls.take(0) =~= Seq::<SourceListing>::empty());
            assert(ls.skip(0) =~= ls);
        }
        while i < self.files.len()
            invariant
                start == old(entries).view(),
                ls == listings@,
                i <= self.files@.len(),
                ls.len() == self.files@.len(),
                rest@ == ls.skip(i as int),
                entries.wf(),
                collect_all(self.files@.take(i as int), ls.take(i as int), start) == Some(entries.view()),
            decreases self.files@.len() - i,
        {
            let listing = rest.remove(0);
            proof {
                assert(listing == ls[i as int]);
                assert(rest@ =~= ls.skip(i + 1));
                assert(self.files@.take(i + 1).drop_last() =~= self.files@.take(i as int));
                assert(ls.take(i + 1).drop_last() =~= ls.take(i as int));
                assert(self.files@.take(i + 1).last() == self.files@[i as int]);
                assert(ls.take(i + 1).last() == ls[i as int]);
            }
            let ghost before = entries.view();
            match self.files[i].collect_into(listing, entries) {
                Ok(()) => {},
                Err(e) => {
                    proof {
                        assert(collect_spec(self.files@[i as int], ls[i as int], before) is None);
                        assert(collect_all(self.files@.take(i + 1), ls.take(i + 1), start) is None);
                        lemma_collect_all_stops(self.files@, ls, start, i as int + 1);
                    }
                    return Err(e);
                },
            }
            i = i + 1;
        }
        proof {
            assert(self.files@.take(i as int) =~= self.files@);
            assert(ls.take(i as int) =~= ls);
        }
        Ok(())
    }
}

/// Once the walk fails, it fails.
proof fn lemma_walk_stops(
    m: FileMapping,
    dest: Seq<char>,
    prefix: Seq<char>,
    items: Seq<SourceItem>,
    tree: Map<Seq<char>, FsEntry>,
    k: int,
)
    requires
        0 <= k <= items.len(),
        walk_result(m, dest, prefix, items.take(k), tree) is None,
    ensures
        walk_result(m, dest, prefix, items, tree) is None,
    decreases items.len() - k,
{
    if k < items.len() {
        assert(items.take(k + 1).drop_last() =~= items.take(k));
        lemma_walk_stops(m, dest, prefix, items, tree, k + 1);
    } else {
        assert(items.take(k) =~= items);
    }
}

/// Once the mappings fail, the later ones change nothing.
proof fn lemma_collect_all_stops(files: Seq<FileMapping>, ls: Seq<SourceListing>, tree: Map<Seq<char>, FsEntry>, k: int)
    requires
        0 <= k <= files.len(),
        files.len() == ls.len(),
        collect_all(files.take(k), ls.take(k), tree) is None,
    ensures
        collect_all(files, ls, tree) is None,
    decreases files.len() - k,
{
    if k < files.len() {
        assert(files.take(k + 1).drop_last() =~= files.take(k));
        assert(ls.take(k + 1).drop_last() =~= ls.take(k));
        lemma_collect_all_stops(files, ls, tree, k + 1);
    } else {
        assert(files.take(k) =~= files);
        assert(ls.take(k) =~= ls);
    }
}

} // verus!
