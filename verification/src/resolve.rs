//! Resolving configured images into the image definitions a build takes.
use vstd::prelude::*;
use vstd::string::*;

use crate::cli::{parse_u64, u64_text, ImageSelection, KeyValue};
use crate::config::{self, base_chain, chain_of, config_wf, files_wf, image_maps_wf, mode_valid, value_for, Base, Config};
use crate::model;
use crate::platform::{platform_of, platform_string_valid, Platform};
use crate::paths::{has_parent_dir, has_parent_dir_exec, is_rooted, is_rooted_exec, path_join, path_join_exec};
use crate::strmap::{map_of, sorted_keys, StrMap};
use crate::text::{concat, split_once, split_once_spec, str_eq, views};

verus! {

/// Which images a command selects: every one with `all`, the named ones in order without
/// repeats, or the only one.
pub open spec fn selected_spec(config: Config, selection: ImageSelection) -> Option<Seq<Seq<char>>> {
    let images = config.images.view();
    if selection.all {
        Some(config.images.key_seq())
    } else if selection.targets@.len() > 0 {
        if forall|i: int| 0 <= i < selection.targets@.len() ==> images.contains_key(#[trigger] selection.targets@[i]@) {
            Some(sorted_keys(views(selection.targets@).to_set()))
        } else {
            None
        }
    } else if config.images.items().len() == 1 {
        Some(config.images.key_seq())
    } else {
        None
    }
}

/// The pieces with `sep` between each two of them.
pub open spec fn join_sep(parts: Seq<Seq<char>>, sep: Seq<char>) -> Seq<char>
    decreases parts.len(),
{
    if parts.len() == 0 {
        Seq::empty()
    } else if parts.len() == 1 {
        parts[0]
    } else {
        join_sep(parts.drop_last(), sep) + sep + parts.last()
    }
}

/// The configured image names, comma-separated.
fn available(config: &Config) -> (r: String)
    ensures
        r@ == join_sep(config.images.key_seq(), seq![',', ' ']),
{
    let keys = config.images.keys();
    let ghost ks = views(keys@);
    let mut out = String::new();
    let mut i: usize = 0;
    proof {
        reveal_strlit(", ");
        assert(", "@ =~= seq![',', ' ']);
        assert(ks.take(0) =~= Seq::<Seq<char>>::empty());
    }
    while i < keys.len()
        invariant
            ks == views(keys@),
            i <= keys@.len(),
            ", "@ == seq![',', ' '],
            out@ == join_sep(ks.take(i as int), seq![',', ' ']),
        decreases keys@.len() - i,
    {
        proof {
            assert(ks.take(i + 1).drop_last() =~= ks.take(i as int));
            assert(ks.take(i + 1).last() == keys@[i as int]@);
            if i == 0 {
                assert(ks.take(1) =~= seq![keys@[0]@]);
            }
        }
        if i > 0 {
            out = concat(out.as_str(), ", ");
        }
        out = concat(out.as_str(), keys[i].as_str());
        i = i + 1;
    }
    assert(ks.take(i as int) =~= ks);
    out
}

/// The strings in order, without repeats.
pub fn sorted_unique(v: &Vec<String>) -> (r: Vec<String>)
    ensures
        views(r@) == sorted_keys(views(v@).to_set()),
        views(r@).to_set() == views(v@).to_set(),
        crate::strmap::strictly_sorted(views(r@)),
{
    let mut set: StrMap<bool> = StrMap::new();
    let mut i: usize = 0;
    assert(views(v@).take(0).to_set() =~= Set::<Seq<char>>::empty());
    while i < v.len()
        invariant
            i <= v@.len(),
            set.wf(),
            set.view().dom() == views(v@).take(i as int).to_set(),
        decreases v@.len() - i,
    {
        set.insert(v[i].clone(), true);
        proof {
            let a = views(v@).take(i as int);
            let b = views(v@).take(i + 1);
            assert(b =~= a.push(v@[i as int]@));
            assert forall|q: Seq<char>| b.to_set().contains(q) <==> a.to_set().insert(v@[i as int]@).contains(q) by {
                if b.contains(q) {
                    let t = choose|t: int| 0 <= t < b.len() && b[t] == q;
                    if t < i {
                        assert(a[t] == q);
                    }
                }
                if a.contains(q) {
                    let t = choose|t: int| 0 <= t < a.len() && a[t] == q;
                    assert(b[t] == q);
                }
                if q == v@[i as int]@ {
                    assert(b[i as int] == q);
                }
            }
            assert(b.to_set() =~= a.to_set().insert(v@[i as int]@));
        }
        i = i + 1;
    }
    assert(views(v@).take(i as int) =~= views(v@));
    proof {
        set.lemma_items_are_map_pairs();
        set.lemma_view();
        assert(set.key_seq().to_set() =~= set.view().dom());
    }
    set.keys()
}

/// The images a command processes.
pub fn selected_images(config: &Config, selection: &ImageSelection) -> (r: Result<Vec<String>, String>)
    requires
        config.images.wf(),
    ensures
        match selected_spec(*config, *selection) {
            Some(names) => r matches Ok(v) && views(v@) == names,
            None => r is Err,
        },
{
    if selection.all {
        return Ok(config.images.keys());
    }
    if selection.targets.len() > 0 {
        let mut i: usize = 0;
        while i < selection.targets.len()
            invariant
                config.images.wf(),
                !selection.all,
                selection.targets@.len() > 0,
                i <= selection.targets@.len(),
                forall|j: int| 0 <= j < i ==> config.images.view().contains_key(#[trigger] selection.targets@[j]@),
            decreases selection.targets@.len() - i,
        {
            if !config.images.contains_key(selection.targets[i].as_str()) {
                assert(!config.images.view().contains_key(selection.targets@[i as int]@));
                let head = concat("unknown image ", selection.targets[i].as_str());
                let mid = concat(head.as_str(), "; available images: ");
                return Err(concat(mid.as_str(), available(config).as_str()));
            }
            i = i + 1;
        }
        return Ok(sorted_unique(&selection.targets));
    }
    if config.images.len() == 1 {
        return Ok(config.images.keys());
    }
    let head = "select an image or use --all; available images: ";
    Err(concat(head, available(config).as_str()))
}

/// The numeric owner in `UID` or `UID:GID` form; a lone `UID` is also the group.
pub open spec fn owner_spec(owner: Seq<char>) -> Option<(u64, u64)> {
    let parts = match split_once_spec(owner, ':') {
        Some(p) => p,
        None => (owner, owner),
    };
    match (u64_text(parts.0), u64_text(parts.1)) {
        (Some(u), Some(g)) => Some((u, g)),
        _ => None,
    }
}

/// Parses a numeric owner in `UID` or `UID:GID` form.
pub fn parse_owner(owner: &str) -> (r: Result<(u64, u64), String>)
    ensures
        match owner_spec(owner@) {
            Some(ids) => r == Ok::<(u64, u64), String>(ids),
            None => r is Err,
        },
{
    let (uid, gid) = match split_once(owner, ':') {
        Some(parts) => parts,
        None => (owner.to_owned(), owner.to_owned()),
    };
    let message = concat(owner, " must contain numeric UID[:GID]");
    let u = match parse_u64(uid.as_str()) {
        Some(u) => u,
        None => {
            return Err(concat("owner ", message.as_str()));
        },
    };
    let g = match parse_u64(gid.as_str()) {
        Some(g) => g,
        None => {
            return Err(concat("owner ", message.as_str()));
        },
    };
    Ok((u, g))
}

/// The value of a four-digit octal mode.
pub open spec fn octal_value(m: Seq<char>) -> u32 {
    (((m[0] as u32 - 48) * 512 + (m[1] as u32 - 48) * 64 + (m[2] as u32 - 48) * 8 + (m[3] as u32 - 48)) as u32)
}

fn octal_mode(mode: &str) -> (r: u32)
    requires
        mode_valid(mode@),
    ensures
        r == octal_value(mode@),
{
    let cs = crate::text::chars_of(mode);
    assert(48 <= cs@[0] as u32 <= 55 && 48 <= cs@[1] as u32 <= 55 && 48 <= cs@[2] as u32 <= 55 && 48 <= cs@[3] as u32 <= 55);
    let a = cs[0] as u32 - 48;
    let b = cs[1] as u32 - 48;
    let c = cs[2] as u32 - 48;
    let d = cs[3] as u32 - 48;
    a * 512 + b * 64 + c * 8 + d
}

/// The fields of a resolved file mapping.
pub struct MappingView {
    pub source: Seq<char>,
    pub destination: Seq<char>,
    pub includes: Seq<Seq<char>>,
    pub exclude: Seq<Seq<char>>,
    pub mode: Option<u32>,
    pub uid: u64,
    pub gid: u64,
    pub follow_symlinks: bool,
    pub preserve_paths: bool,
}

pub open spec fn mapping_view(f: model::FileMapping) -> MappingView {
    MappingView {
        source: f.source@,
        destination: f.destination@,
        includes: views(f.includes@),
        exclude: views(f.exclude@),
        mode: f.mode,
        uid: f.uid,
        gid: f.gid,
        follow_symlinks: f.follow_symlinks,
        preserve_paths: f.preserve_paths,
    }
}

pub open spec fn mapping_views(fs: Seq<model::FileMapping>) -> Seq<MappingView> {
    fs.map_values(|f: model::FileMapping| mapping_view(f))
}

/// The file mapping a configured file becomes for `platform`, its source below `directory`;
/// `None` when it has no source for the platform, the source is not a relative path without
/// `..`, or the owner is not numeric.
pub open spec fn resolved_file(f: config::FileMapping, directory: Seq<char>, platform: Seq<char>) -> Option<MappingView> {
    match value_for(f.source, platform) {
        None => None,
        Some(source) => if is_rooted(source@) || has_parent_dir(source@) {
            None
        } else {
            match owner_spec(match f.owner {
                Some(o) => o@,
                None => seq!['0'],
            }) {
                None => None,
                Some(ids) => Some(MappingView {
                    source: path_join(directory, source@),
                    destination: f.to@,
                    includes: views(f.includes@),
                    exclude: views(f.exclude@),
                    mode: match f.mode {
                        Some(m) => Some(octal_value(m@)),
                        None => None,
                    },
                    uid: ids.0,
                    gid: ids.1,
                    follow_symlinks: f.follow_symlinks,
                    preserve_paths: f.preserve_paths,
                }),
            }
        },
    }
}

/// The resolved files in order, or `None` at the first that fails.
pub open spec fn resolved_files(fs: Seq<config::FileMapping>, directory: Seq<char>, platform: Seq<char>) -> Option<Seq<MappingView>>
    decreases fs.len(),
{
    if fs.len() == 0 {
        Some(Seq::empty())
    } else {
        match resolved_files(fs.drop_last(), directory, platform) {
            None => None,
            Some(prev) => match resolved_file(fs.last(), directory, platform) {
                None => None,
                Some(m) => Some(prev.push(m)),
            },
        }
    }
}

proof fn lemma_octal_value(m: Seq<char>)
    requires
        mode_valid(m),
    ensures
        octal_value(m) as int == (m[0] as u32 - 48) * 512 + (m[1] as u32 - 48) * 64 + (m[2] as u32 - 48) * 8 + (m[3] as u32 - 48),
{
    assert(48 <= m[0] as u32 <= 55);
    assert(48 <= m[1] as u32 <= 55);
    assert(48 <= m[2] as u32 <= 55);
    assert(48 <= m[3] as u32 <= 55);
}

/// Resolving configured files keeps each file: the i-th mapping comes from the i-th configured
/// file, with its source for the platform below `directory`, and its destination, include and
/// exclude patterns and options as configured.
pub proof fn lemma_resolved_files_keep_fields(fs: Seq<config::FileMapping>, directory: Seq<char>, platform: Seq<char>)
    ensures
        resolved_files(fs, directory, platform) matches Some(ms) ==> {
            &&& ms.len() == fs.len()
            &&& forall|i: int| 0 <= i < fs.len() ==> {
                &&& value_for(fs[i].source, platform) matches Some(src) && (#[trigger] ms[i]).source == path_join(directory, src@)
                &&& ms[i].destination == fs[i].to@
                &&& ms[i].includes == views(fs[i].includes@)
                &&& ms[i].exclude == views(fs[i].exclude@)
                &&& ms[i].follow_symlinks == fs[i].follow_symlinks
                &&& ms[i].preserve_paths == fs[i].preserve_paths
                &&& fs[i].mode is None ==> ms[i].mode is None
                &&& fs[i].mode matches Some(m) ==> (mode_valid(m@) ==> (ms[i].mode matches Some(v)
                    && v == (m@[0] as u32 - 48) * 512 + (m@[1] as u32 - 48) * 64 + (m@[2] as u32 - 48) * 8 + (m@[3] as u32 - 48)))
            }
        },
    decreases fs.len(),
{
    if fs.len() > 0 {
        lemma_resolved_files_keep_fields(fs.drop_last(), directory, platform);
        if let Some(ms) = resolved_files(fs, directory, platform) {
            let prev = resolved_files(fs.drop_last(), directory, platform).unwrap();
            assert forall|i: int| 0 <= i < fs.len() implies {
                &&& value_for(fs[i].source, platform) matches Some(src) && (#[trigger] ms[i]).source == path_join(directory, src@)
                &&& ms[i].destination == fs[i].to@
                &&& ms[i].includes == views(fs[i].includes@)
                &&& ms[i].exclude == views(fs[i].exclude@)
                &&& ms[i].follow_symlinks == fs[i].follow_symlinks
                &&& ms[i].preserve_paths == fs[i].preserve_paths
                &&& fs[i].mode is None ==> ms[i].mode is None
                &&& fs[i].mode matches Some(m) ==> (mode_valid(m@) ==> (ms[i].mode matches Some(v)
                    && v == (m@[0] as u32 - 48) * 512 + (m@[1] as u32 - 48) * 64 + (m@[2] as u32 - 48) * 8 + (m@[3] as u32 - 48)))
            } by {
                if let Some(m) = fs[i].mode {
                    if mode_valid(m@) {
                        lemma_octal_value(m@);
                    }
                }
                if i < fs.len() - 1 {
                    assert(ms[i] == prev[i]);
                    assert(fs[i] == fs.drop_last()[i]);
                }
            }
        }
    }
}

/// Resolves configured files for one platform, with sources below `directory`.
pub fn resolve_files(files: &Vec<config::FileMapping>, directory: &str, platform: &str) -> (r: Result<Vec<model::FileMapping>, String>)
    requires
        config::files_wf(files@),
        forall|i: int| 0 <= i < files@.len() ==> ((#[trigger] files@[i]).mode matches Some(m) ==> mode_valid(m@)),
    ensures
        match resolved_files(files@, directory@, platform@) {
            Some(ms) => r matches Ok(v) && mapping_views(v@) == ms,
            None => r is Err,
        },
        r matches Ok(v) ==> v@.len() == files@.len() && forall|i: int| 0 <= i < files@.len() ==> {
            &&& views((#[trigger] v@[i]).includes@) == views(files@[i].includes@)
            &&& views(v@[i].exclude@) == views(files@[i].exclude@)
            &&& v@[i].destination@ == files@[i].to@
        },
{
    let mut out: Vec<model::FileMapping> = Vec::new();
    let mut i: usize = 0;
    assert(files@.take(0) =~= Seq::<config::FileMapping>::empty());
    assert(mapping_views(out@) =~= Seq::<MappingView>::empty());
    while i < files.len()
        invariant
            config::files_wf(files@),
            forall|j: int| 0 <= j < files@.len() ==> ((#[trigger] files@[j]).mode matches Some(m) ==> mode_valid(m@)),
            i <= files@.len(),
            resolved_files(files@.take(i as int), directory@, platform@) == Some(mapping_views(out@)),
        decreases files@.len() - i,
    {
        let file = &files[i];
        proof {
            assert(files@.take(i + 1).drop_last() =~= files@.take(i as int));
            assert(files@.take(i + 1).last() == files@[i as int]);
            assert(config::value_wf(files@[i as int].source));
        }
        let source = match file.source.for_platform(platform) {
            Some(s) => s,
            None => {
                proof {
                    lemma_resolved_stop(files@, directory@, platform@, i as int + 1);
                }
                let head = concat("file source has no value for platform ", platform);
                return Err(head);
            },
        };
        if is_rooted_exec(source.as_str()) || has_parent_dir_exec(source.as_str()) {
            proof {
                lemma_resolved_stop(files@, directory@, platform@, i as int + 1);
            }
            let head = concat("config file source ", source.as_str());
            return Err(concat(head.as_str(), " must be relative and cannot contain .."));
        }
        let owner = match &file.owner {
            Some(o) => o.clone(),
            None => "0".to_owned(),
        };
        proof {
            reveal_strlit("0");
            assert("0"@ =~= seq!['0']);
        }
        let (uid, gid) = match parse_owner(owner.as_str()) {
            Ok(ids) => ids,
            Err(e) => {
                proof {
                    lemma_resolved_stop(files@, directory@, platform@, i as int + 1);
                }
                return Err(e);
            },
        };
        let mode = match &file.mode {
            Some(m) => Some(octal_mode(m.as_str())),
            None => None,
        };
        let mapping = model::FileMapping {
            source: path_join_exec(directory, source.as_str()),
            destination: file.to.clone(),
            includes: crate::config::copy_vec(&file.includes),
            exclude: crate::config::copy_vec(&file.exclude),
            mode,
            uid,
            gid,
            follow_symlinks: file.follow_symlinks,
            preserve_paths: file.preserve_paths,
        };
        let ghost before = out@;
        out.push(mapping);
        proof {
            assert(mapping_views(out@) =~= mapping_views(before).push(mapping_view(mapping)));
        }
        i = i + 1;
    }
    assert(files@.take(i as int) =~= files@);
    proof {
        lemma_resolved_files_keep_fields(files@, directory@, platform@);
        let ms = mapping_views(out@);
        assert forall|j: int| 0 <= j < files@.len() implies {
            &&& views((#[trigger] out@[j]).includes@) == views(files@[j].includes@)
            &&& views(out@[j].exclude@) == views(files@[j].exclude@)
            &&& out@[j].destination@ == files@[j].to@
        } by {
            assert(ms[j] == mapping_view(out@[j]));
        }
    }
    Ok(out)
}

/// Once a file fails to resolve, the list fails.
proof fn lemma_resolved_stop(fs: Seq<config::FileMapping>, directory: Seq<char>, platform: Seq<char>, k: int)
    requires
        0 < k <= fs.len(),
        resolved_files(fs.take(k - 1), directory, platform) is Some,
        resolved_file(fs[k - 1], directory, platform) is None,
    ensures
        resolved_files(fs, directory, platform) is None,
{
    assert(fs.take(k).drop_last() =~= fs.take(k - 1));
    assert(fs.take(k).last() == fs[k - 1]);
    lemma_resolved_none_grows(fs, directory, platform, k);
}

proof fn lemma_resolved_none_grows(fs: Seq<config::FileMapping>, directory: Seq<char>, platform: Seq<char>, k: int)
    requires
        0 <= k <= fs.len(),
        resolved_files(fs.take(k), directory, platform) is None,
    ensures
        resolved_files(fs, directory, platform) is None,
    decreases fs.len() - k,
{
    if k < fs.len() {
        assert(fs.take(k + 1).drop_last() =~= fs.take(k));
        lemma_resolved_none_grows(fs, directory, platform, k + 1);
    } else {
        assert(fs.take(k) =~= fs);
    }
}

/// The map after setting each assignment in order.
pub open spec fn assigned(m: Map<Seq<char>, String>, kvs: Seq<KeyValue>) -> Map<Seq<char>, String>
    decreases kvs.len(),
{
    if kvs.len() == 0 {
        m
    } else {
        assigned(m, kvs.drop_last()).insert(kvs.last().key@, kvs.last().value)
    }
}

/// Sets each assignment in order; later ones win.
pub fn apply_assignments(values: &mut StrMap<String>, assignments: &Vec<KeyValue>)
    requires
        old(values).wf(),
    ensures
        final(values).wf(),
        final(values).view() == assigned(old(values).view(), assignments@),
{
    let ghost start = values.view();
    let mut i: usize = 0;
    assert(assignments@.take(0) =~= Seq::<KeyValue>::empty());
    while i < assignments.len()
        invariant
            i <= assignments@.len(),
            values.wf(),
            values.view() == assigned(start, assignments@.take(i as int)),
        decreases assignments@.len() - i,
    {
        values.insert(assignments[i].key.clone(), assignments[i].value.clone());
        proof {
            assert(assignments@.take(i + 1).drop_last() =~= assignments@.take(i as int));
            assert(assignments@.take(i + 1).last() == assignments@[i as int]);
        }
        i = i + 1;
    }
    assert(assignments@.take(i as int) =~= assignments@);
}

/// The references that tags scope to image `n` with `n=REFERENCE`.
pub open spec fn scoped(tags: Seq<String>, n: Seq<char>) -> Set<Seq<char>> {
    Set::new(|r: Seq<char>| exists|i: int| 0 <= i < tags.len() && split_once_spec(tags[i]@, '=') == Some((n, r)))
}

/// The tags without an image scope.
pub open spec fn unscoped(tags: Seq<String>) -> Set<Seq<char>> {
    Set::new(|r: Seq<char>| exists|i: int| 0 <= i < tags.len() && split_once_spec(tags[i]@, '=') is None && tags[i]@ == r)
}

/// The references of selected image `n`: its configured tags, the tags scoped to it, and the
/// unscoped tags when it is the only image selected.
pub open spec fn refs_set(config: Config, tags: Seq<String>, names: Seq<Seq<char>>, n: Seq<char>) -> Set<Seq<char>> {
    views(config.images.view()[n].tags@).to_set() + scoped(tags, n) + if names.len() == 1 && names[0] == n {
        unscoped(tags)
    } else {
        Set::empty()
    }
}

/// Whether every tag scopes to a selected image, or is unscoped with one image selected.
pub open spec fn tags_fit(tags: Seq<String>, names: Seq<Seq<char>>) -> bool {
    forall|i: int| 0 <= i < tags.len() ==> match split_once_spec(#[trigger] tags[i]@, '=') {
        Some(parts) => names.contains(parts.0),
        None => names.len() == 1,
    }
}

/// Whether no reference belongs to two selected images.
pub open spec fn refs_disjoint(config: Config, tags: Seq<String>, names: Seq<Seq<char>>) -> bool {
    forall|a: int, b: int| 0 <= a < b < names.len() ==> (#[trigger] refs_set(config, tags, names, names[a])).disjoint(#[trigger] refs_set(config, tags, names, names[b]))
}

/// The references of selected image `n`, in order without repeats.
fn refs_of_image(config: &Config, tags: &Vec<String>, names: &Vec<String>, n: &String) -> (r: Vec<String>)
    requires
        config.images.wf(),
        config.images.view().contains_key(n@),
        names@.len() > 0,
    ensures
        views(r@).to_set() == refs_set(*config, tags@, views(names@), n@),
        crate::strmap::strictly_sorted(views(r@)),
        views(r@) == sorted_keys(refs_set(*config, tags@, views(names@), n@)),
{
    let image = config.images.get(n.as_str()).unwrap();
    let mut all = crate::config::copy_vec(&image.tags);
    let single = names.len() == 1 && str_eq(names[0].as_str(), n.as_str());
    let ghost base = views(image.tags@).to_set();
    let ghost extra = if views(names@).len() == 1 && views(names@)[0] == n@ { unscoped(tags@) } else { Set::<Seq<char>>::empty() };
    let mut i: usize = 0;
    assert(views(all@).to_set() =~= base + Set::new(|r: Seq<char>| exists|t: int| 0 <= t < 0 && split_once_spec(tags@[t]@, '=') == Some((n@, r))) + Set::new(|r: Seq<char>| exists|t: int| 0 <= t < 0 && split_once_spec(tags@[t]@, '=') is None && tags@[t]@ == r && extra.contains(r)));
    while i < tags.len()
        invariant
            i <= tags@.len(),
            single == (views(names@).len() == 1 && views(names@)[0] == n@),
            extra == (if single { unscoped(tags@) } else { Set::<Seq<char>>::empty() }),
            views(all@).to_set() == base
                + Set::new(|r: Seq<char>| exists|t: int| 0 <= t < i && split_once_spec(tags@[t]@, '=') == Some((n@, r)))
                + Set::new(|r: Seq<char>| exists|t: int| 0 <= t < i && split_once_spec(tags@[t]@, '=') is None && tags@[t]@ == r && extra.contains(r)),
        decreases tags@.len() - i,
    {
        let ghost before = all@;
        let ghost added: Option<Seq<char>> = None;
        match split_once(tags[i].as_str(), '=') {
            Some((name, reference)) => {
                if str_eq(name.as_str(), n.as_str()) {
                    proof {
                        added = Some(reference@);
                    }
                    all.push(reference);
                }
            },
            None => {
                if single {
                    proof {
                        added = Some(tags@[i as int]@);
                        assert(unscoped(tags@).contains(tags@[i as int]@));
                    }
                    all.push(tags[i].clone());
                }
            },
        }
        proof {
            let s0 = Set::new(|r: Seq<char>| exists|t: int| 0 <= t < i && split_once_spec(tags@[t]@, '=') == Some((n@, r)));
            let s1 = Set::new(|r: Seq<char>| exists|t: int| 0 <= t < i + 1 && split_once_spec(tags@[t]@, '=') == Some((n@, r)));
            let u0 = Set::new(|r: Seq<char>| exists|t: int| 0 <= t < i && split_once_spec(tags@[t]@, '=') is None && tags@[t]@ == r && extra.contains(r));
            let u1 = Set::new(|r: Seq<char>| exists|t: int| 0 <= t < i + 1 && split_once_spec(tags@[t]@, '=') is None && tags@[t]@ == r && extra.contains(r));
            let new_part = match added { Some(x) => set![x], None => Set::<Seq<char>>::empty() };
            match added {
                Some(x) => {
                    crate::text::lemma_views_push(before, all@.last());
                    assert(views(all@) == views(before).push(x));
                    assert(views(all@).to_set() =~= views(before).to_set().insert(x)) by {
                        assert forall|q: Seq<char>| views(all@).contains(q) <==> views(before).to_set().insert(x).contains(q) by {
                            if views(all@).contains(q) {
                                let t = choose|t: int| 0 <= t < views(all@).len() && views(all@)[t] == q;
                                if t < views(before).len() {
                                    assert(views(before)[t] == q);
                                }
                            }
                            if views(before).contains(q) {
                                let t = choose|t: int| 0 <= t < views(before).len() && views(before)[t] == q;
                                assert(views(all@)[t] == q);
                            }
                            if q == x {
                                assert(views(all@)[views(before).len() as int] == q);
                            }
                        }
                    }
                },
                None => {
                    assert(all@ == before);
                },
            }
            assert forall|q: Seq<char>| (s1 + u1).contains(q) <==> (s0 + u0 + new_part).contains(q) by {
                if s1.contains(q) {
                    let t = choose|t: int| 0 <= t < i + 1 && split_once_spec(tags@[t]@, '=') == Some((n@, q));
                    if t < i {
                        assert(s0.contains(q));
                    }
                }
                if u1.contains(q) {
                    let t = choose|t: int| 0 <= t < i + 1 && split_once_spec(tags@[t]@, '=') is None && tags@[t]@ == q && extra.contains(q);
                    if t < i {
                        assert(u0.contains(q));
                    }
                }
                if s0.contains(q) {
                    let t = choose|t: int| 0 <= t < i && split_once_spec(tags@[t]@, '=') == Some((n@, q));
                    assert(s1.contains(q));
                }
                if u0.contains(q) {
                    let t = choose|t: int| 0 <= t < i && split_once_spec(tags@[t]@, '=') is None && tags@[t]@ == q && extra.contains(q);
                    assert(u1.contains(q));
                }
                if new_part.contains(q) {
                    if split_once_spec(tags@[i as int]@, '=') is None {
                        assert(u1.contains(q));
                    } else {
                        assert(s1.contains(q));
                    }
                }
            }
            assert(views(all@).to_set() =~= base + s1 + u1);
        }
        i = i + 1;
    }
    proof {
        let s0 = Set::new(|r: Seq<char>| exists|t: int| 0 <= t < i && split_once_spec(tags@[t]@, '=') == Some((n@, r)));
        let u0 = Set::new(|r: Seq<char>| exists|t: int| 0 <= t < i && split_once_spec(tags@[t]@, '=') is None && tags@[t]@ == r && extra.contains(r));
        assert(s0 =~= scoped(tags@, n@));
        assert forall|q: Seq<char>| u0.contains(q) <==> extra.contains(q) by {
            if single && unscoped(tags@).contains(q) {
                let t = choose|t: int| 0 <= t < tags@.len() && split_once_spec(tags@[t]@, '=') is None && tags@[t]@ == q;
                assert(u0.contains(q));
            }
        }
        assert(u0 =~= extra);
        assert(config.images.view()[n@] == *image);
    }
    sorted_unique(&all)
}

/// The references of each selected image: its configured tags and the tags given for it,
/// sorted without repeats; an error when a tag names an unselected image, an unscoped tag is
/// given for several images, or a reference is given to two images.
pub fn assign_references(config: &Config, names: &Vec<String>, tags: &Vec<String>) -> (r: Result<Vec<Vec<String>>, String>)
    requires
        config.images.wf(),
        names@.len() > 0,
        forall|i: int| 0 <= i < names@.len() ==> config.images.view().contains_key(#[trigger] names@[i]@),
    ensures
        r is Ok <==> tags_fit(tags@, views(names@)) && refs_disjoint(*config, tags@, views(names@)),
        r matches Ok(refs) ==> refs@.len() == names@.len() && forall|i: int| 0 <= i < names@.len()
            ==> views(#[trigger] refs@[i]@) == sorted_keys(refs_set(*config, tags@, views(names@), names@[i]@)),
{
    let mut i: usize = 0;
    while i < tags.len()
        invariant
            i <= tags@.len(),
            forall|j: int| 0 <= j < i ==> match split_once_spec(#[trigger] tags@[j]@, '=') {
                Some(parts) => views(names@).contains(parts.0),
                None => views(names@).len() == 1,
            },
        decreases tags@.len() - i,
    {
        match split_once(tags[i].as_str(), '=') {
            Some((name, _)) => {
                if !crate::text::contains_str(names, name.as_str()) {
                    return Err(concat("tag references unselected image ", name.as_str()));
                }
            },
            None => {
                if names.len() != 1 {
                    let head = concat("tag ", tags[i].as_str());
                    return Err(concat(head.as_str(), " must use IMAGE=REFERENCE when multiple images are selected"));
                }
            },
        }
        i = i + 1;
    }
    let mut refs: Vec<Vec<String>> = Vec::new();
    let mut k: usize = 0;
    while k < names.len()
        invariant
            config.images.wf(),
            names@.len() > 0,
            forall|x: int| 0 <= x < names@.len() ==> config.images.view().contains_key(#[trigger] names@[x]@),
            k <= names@.len(),
            refs@.len() == k,
            forall|x: int| 0 <= x < k ==> views(#[trigger] refs@[x]@) == sorted_keys(refs_set(*config, tags@, views(names@), names@[x]@))
                && views(refs@[x]@).to_set() == refs_set(*config, tags@, views(names@), names@[x]@),
        decreases names@.len() - k,
    {
        let v = refs_of_image(config, tags, names, &names[k]);
        refs.push(v);
        k = k + 1;
    }
    let mut b: usize = 0;
    while b < names.len()
        invariant
            b <= names@.len(),
            refs@.len() == names@.len(),
            forall|x: int| 0 <= x < names@.len() ==> views(#[trigger] refs@[x]@).to_set() == refs_set(*config, tags@, views(names@), names@[x]@),
            forall|x: int, y: int| 0 <= x < y < b ==> (#[trigger] refs_set(*config, tags@, views(names@), views(names@)[x])).disjoint(#[trigger] refs_set(*config, tags@, views(names@), views(names@)[y])),
        decreases names@.len() - b,
    {
        let mut q: usize = 0;
        while q < refs[b].len()
            invariant
                b < names@.len(),
                refs@.len() == names@.len(),
                q <= refs@[b as int]@.len(),
                forall|x: int| 0 <= x < names@.len() ==> views(#[trigger] refs@[x]@).to_set() == refs_set(*config, tags@, views(names@), names@[x]@),
                forall|a: int, t: int| 0 <= a < b && 0 <= t < q ==> !(#[trigger] views(refs@[a]@)).contains(#[trigger] views(refs@[b as int]@)[t]),
            decreases refs@[b as int]@.len() - q,
        {
            let mut a: usize = 0;
            while a < b
                invariant
                    b < names@.len(),
                    refs@.len() == names@.len(),
                    q < refs@[b as int]@.len(),
                    a <= b,
                    forall|x: int| 0 <= x < names@.len() ==> views(#[trigger] refs@[x]@).to_set() == refs_set(*config, tags@, views(names@), names@[x]@),
                    forall|x: int| 0 <= x < a ==> !views(refs@[x]@).contains(views(refs@[b as int]@)[q as int]),
                decreases b - a,
            {
                if crate::text::contains_str(&refs[a], refs[b][q].as_str()) {
                    proof {
                        assert(views(refs@[b as int]@)[q as int] == refs@[b as int]@[q as int]@);
                        let rr = refs@[b as int]@[q as int]@;
                        assert(views(refs@[b as int]@).contains(rr));
                        assert(refs_set(*config, tags@, views(names@), names@[a as int]@).contains(rr));
                        assert(refs_set(*config, tags@, views(names@), names@[b as int]@).contains(rr));
                        assert(views(names@)[a as int] == names@[a as int]@);
                        assert(views(names@)[b as int] == names@[b as int]@);
                        assert(!refs_disjoint(*config, tags@, views(names@)));
                    }
                    let head = concat("reference ", refs[b][q].as_str());
                    let mid = concat(head.as_str(), " is assigned to both ");
                    let mid2 = concat(mid.as_str(), names[a].as_str());
                    let mid3 = concat(mid2.as_str(), " and ");
                    return Err(concat(mid3.as_str(), names[b].as_str()));
                }
                a = a + 1;
            }
            q = q + 1;
        }
        proof {
            assert forall|x: int, y: int| 0 <= x < y < b + 1 implies (#[trigger] refs_set(*config, tags@, views(names@), views(names@)[x])).disjoint(#[trigger] refs_set(*config, tags@, views(names@), views(names@)[y])) by {
                if y == b {
                    assert(views(names@)[x] == names@[x]@);
                    assert(views(names@)[y] == names@[y]@);
                    assert forall|e: Seq<char>| refs_set(*config, tags@, views(names@), views(names@)[y]).contains(e) implies !refs_set(*config, tags@, views(names@), views(names@)[x]).contains(e) by {
                        assert(views(refs@[y]@).to_set().contains(e));
                        let t = choose|t: int| 0 <= t < views(refs@[y]@).len() && views(refs@[y]@)[t] == e;
                        assert(!views(refs@[x]@).contains(views(refs@[y]@)[t]));
                    }
                }
            }
        }
        b = b + 1;
    }
    Ok(refs)
}

/// Whether every configured file has a portable mode, when it has one.
pub open spec fn modes_ok(fs: Seq<config::FileMapping>) -> bool {
    forall|i: int| 0 <= i < fs.len() ==> ((#[trigger] fs[i]).mode matches Some(m) ==> mode_valid(m@))
}

/// Whether the images of a chain name only configured layers, and their files and those
/// layers' files have portable modes.
pub open spec fn chain_resolvable(c: Config, chain: Seq<Seq<char>>) -> bool {
    forall|k: int| 0 <= k < chain.len() ==> {
        let img = #[trigger] c.images.view()[chain[k]];
        &&& c.images.view().contains_key(chain[k])
        &&& modes_ok(img.files@)
        &&& forall|l: int| 0 <= l < img.layers@.len() ==> c.layers.view().contains_key(#[trigger] img.layers@[l]@)
            && modes_ok(c.layers.view()[img.layers@[l]@].files@)
    }
}

/// Whether every file mode is portable.
fn modes_ok_exec(fs: &Vec<config::FileMapping>) -> (r: bool)
    ensures
        r == modes_ok(fs@),
{
    let mut i: usize = 0;
    while i < fs.len()
        invariant
            i <= fs@.len(),
            forall|j: int| 0 <= j < i ==> ((#[trigger] fs@[j]).mode matches Some(m) ==> mode_valid(m@)),
        decreases fs@.len() - i,
    {
        if let Some(m) = &fs[i].mode {
            if !config::mode_is_valid(m.as_str()) {
                return false;
            }
        }
        i = i + 1;
    }
    true
}

/// Whether resolving a platform along `chain` can begin: its images are configured, name only
/// configured layers, and give their files, and those layers' files, portable modes.
pub fn chain_resolvable_exec(c: &Config, chain: &Vec<String>) -> (r: bool)
    requires
        config_wf(*c),
    ensures
        r == chain_resolvable(*c, views(chain@)),
{
    let mut k: usize = 0;
    while k < chain.len()
        invariant
            config_wf(*c),
            k <= chain@.len(),
            forall|x: int| 0 <= x < k ==> {
                let img = #[trigger] c.images.view()[views(chain@)[x]];
                &&& c.images.view().contains_key(views(chain@)[x])
                &&& modes_ok(img.files@)
                &&& forall|l: int| 0 <= l < img.layers@.len() ==> c.layers.view().contains_key(#[trigger] img.layers@[l]@)
                    && modes_ok(c.layers.view()[img.layers@[l]@].files@)
            },
        decreases chain@.len() - k,
    {
        assert(views(chain@)[k as int] == chain@[k as int]@);
        let image = match c.images.get(chain[k].as_str()) {
            Some(image) => image,
            None => {
                assert(!c.images.view().contains_key(views(chain@)[k as int]));
                return false;
            },
        };
        if !modes_ok_exec(&image.files) {
            assert(c.images.view()[views(chain@)[k as int]] == *image);
            return false;
        }
        let mut l: usize = 0;
        while l < image.layers.len()
            invariant
                config_wf(*c),
                k < chain@.len(),
                c.images.view()[views(chain@)[k as int]] == *image,
                l <= image.layers@.len(),
                forall|y: int| 0 <= y < l ==> c.layers.view().contains_key(#[trigger] image.layers@[y]@)
                    && modes_ok(c.layers.view()[image.layers@[y]@].files@),
            decreases image.layers@.len() - l,
        {
            match c.layers.get(image.layers[l].as_str()) {
                Some(layer) => {
                    if !modes_ok_exec(&layer.files) {
                        return false;
                    }
                },
                None => {
                    return false;
                },
            }
            l = l + 1;
        }
        assert(c.images.view()[views(chain@)[k as int]] == *image);
        k = k + 1;
    }
    true
}

/// The named layers of an image that resolve to files, in order; `None` when one fails.
pub open spec fn named_layers(c: Config, directory: Seq<char>, platform: Seq<char>, names: Seq<String>) -> Option<Seq<Seq<MappingView>>>
    decreases names.len(),
{
    if names.len() == 0 {
        Some(Seq::empty())
    } else {
        match named_layers(c, directory, platform, names.drop_last()) {
            None => None,
            Some(prev) => match resolved_files(c.layers.view()[names.last()@].files@, directory, platform) {
                None => None,
                Some(files) => Some(if files.len() > 0 {
                    prev.push(files)
                } else {
                    prev
                }),
            },
        }
    }
}

/// The files of layers, in order.
pub open spec fn flatten_layers(ls: Seq<Seq<MappingView>>) -> Seq<MappingView>
    decreases ls.len(),
{
    if ls.len() == 0 {
        Seq::empty()
    } else {
        flatten_layers(ls.drop_last()) + ls.last()
    }
}

/// The layers one configured image adds: its named layers, then its own files, combined into
/// one layer when it squashes; `None` when a file fails to resolve.
pub open spec fn image_layers(c: Config, directory: Seq<char>, platform: Seq<char>, img: config::Image) -> Option<Seq<Seq<MappingView>>> {
    match named_layers(c, directory, platform, img.layers@) {
        None => None,
        Some(named) => match resolved_files(img.files@, directory, platform) {
            None => None,
            Some(files) => {
                let all = if files.len() > 0 {
                    named.push(files)
                } else {
                    named
                };
                Some(if img.squash && all.len() > 1 {
                    seq![flatten_layers(all)]
                } else {
                    all
                })
            },
        },
    }
}

/// The layers of a chain of images, root first.
pub open spec fn chain_layers(c: Config, directory: Seq<char>, platform: Seq<char>, chain: Seq<Seq<char>>) -> Option<Seq<Seq<MappingView>>>
    decreases chain.len(),
{
    if chain.len() == 0 {
        Some(Seq::empty())
    } else {
        match chain_layers(c, directory, platform, chain.drop_last()) {
            None => None,
            Some(prev) => match image_layers(c, directory, platform, c.images.view()[chain.last()]) {
                None => None,
                Some(own) => Some(prev + own),
            },
        }
    }
}

/// The mapping a `--copy` becomes: its source below the working directory unless absolute.
pub open spec fn copy_view(copy: crate::cli::CopyInput, working_directory: Seq<char>) -> MappingView {
    MappingView {
        source: path_join(working_directory, copy.source@),
        destination: copy.destination@,
        includes: Seq::empty(),
        exclude: Seq::empty(),
        mode: None,
        uid: 0,
        gid: 0,
        follow_symlinks: false,
        preserve_paths: false,
    }
}

pub open spec fn copy_views(copies: Seq<crate::cli::CopyInput>, working_directory: Seq<char>) -> Seq<MappingView>
    decreases copies.len(),
{
    if copies.len() == 0 {
        Seq::empty()
    } else {
        copy_views(copies.drop_last(), working_directory).push(copy_view(copies.last(), working_directory))
    }
}

/// The layers of a platform image: the chain's, then the copies as one more layer; all in one
/// layer when the build squashes.
pub open spec fn final_layers(chain: Seq<Seq<MappingView>>, copies: Seq<MappingView>, squash: bool) -> Seq<Seq<MappingView>> {
    if squash {
        let files = flatten_layers(chain) + copies;
        if files.len() > 0 {
            seq![files]
        } else {
            Seq::empty()
        }
    } else if copies.len() > 0 {
        chain.push(copies)
    } else {
        chain
    }
}

pub open spec fn layer_views(ls: Seq<model::Layer>) -> Seq<Seq<MappingView>> {
    ls.map_values(|l: model::Layer| mapping_views(l.files@))
}

/// The views of lists of file mappings.
pub open spec fn files_views(ls: Seq<Vec<model::FileMapping>>) -> Seq<Seq<MappingView>> {
    ls.map_values(|l: Vec<model::FileMapping>| mapping_views(l@))
}

/// Moves the files of layers into one list.
fn flatten_exec(ls: Vec<Vec<model::FileMapping>>) -> (r: Vec<model::FileMapping>)
    ensures
        mapping_views(r@) == flatten_layers(files_views(ls@)),
{
    let ghost lv = files_views(ls@);
    let mut out: Vec<model::FileMapping> = Vec::new();
    let mut rest = ls;
    let ghost mut i: int = 0;
    let ghost orig = rest@;
    assert(orig.skip(0) =~= orig);
    assert(mapping_views(out@) =~= flatten_layers(lv.take(0)));
    while rest.len() > 0
        invariant
            0 <= i <= orig.len(),
            rest@ == orig.skip(i),
            lv == files_views(orig),
            mapping_views(out@) == flatten_layers(lv.take(i)),
        decreases rest@.len(),
    {
        let mut layer = rest.remove(0);
        let ghost o = out@;
        let ghost lay = layer@;
        out.append(&mut layer);
        proof {
            assert(lay == orig[i]@);
            assert(rest@ =~= orig.skip(i + 1));
            assert(lv.take(i + 1).drop_last() =~= lv.take(i));
            assert(lv.take(i + 1).last() == mapping_views(lay));
            assert(mapping_views(out@) =~= mapping_views(o) + mapping_views(lay));
        }
        proof {
            i = i + 1;
        }
    }
    assert(lv.take(i) =~= lv);
    out
}

/// The named layers of an image that resolve to files.
fn named_layers_exec(c: &Config, directory: &str, platform: &str, names: &Vec<String>) -> (r: Result<Vec<Vec<model::FileMapping>>, String>)
    requires
        config_wf(*c),
        forall|l: int| 0 <= l < names@.len() ==> c.layers.view().contains_key(#[trigger] names@[l]@)
            && modes_ok(c.layers.view()[names@[l]@].files@),
    ensures
        match named_layers(*c, directory@, platform@, names@) {
            Some(ls) => r matches Ok(v) && files_views(v@) == ls,
            None => r is Err,
        },
{
    let mut out: Vec<Vec<model::FileMapping>> = Vec::new();
    let mut i: usize = 0;
    assert(names@.take(0) =~= Seq::<String>::empty());
    assert(files_views(out@) =~= Seq::<Seq<MappingView>>::empty());
    while i < names.len()
        invariant
            config_wf(*c),
            forall|l: int| 0 <= l < names@.len() ==> c.layers.view().contains_key(#[trigger] names@[l]@)
                && modes_ok(c.layers.view()[names@[l]@].files@),
            i <= names@.len(),
            named_layers(*c, directory@, platform@, names@.take(i as int)) == Some(files_views(out@)),
        decreases names@.len() - i,
    {
        proof {
            assert(names@.take(i + 1).drop_last() =~= names@.take(i as int));
            assert(names@.take(i + 1).last() == names@[i as int]);
            assert(c.layers.view().contains_key(names@[i as int]@));
        }
        let layer = c.layers.get(names[i].as_str()).unwrap();
        assert(files_wf(layer.files@));
        let files = match resolve_files(&layer.files, directory, platform) {
            Ok(f) => f,
            Err(e) => {
                proof {
                    lemma_named_stop(*c, directory@, platform@, names@, i as int + 1);
                }
                return Err(e);
            },
        };
        if files.len() > 0 {
            let ghost before = out@;
            out.push(files);
            assert(files_views(out@) =~= files_views(before).push(mapping_views(files@)));
        }
        i = i + 1;
    }
    assert(names@.take(i as int) =~= names@);
    Ok(out)
}

proof fn lemma_named_stop(c: Config, directory: Seq<char>, platform: Seq<char>, names: Seq<String>, k: int)
    requires
        0 < k <= names.len(),
        named_layers(c, directory, platform, names.take(k - 1)) is Some,
        resolved_files(c.layers.view()[names[k - 1]@].files@, directory, platform) is None,
    ensures
        named_layers(c, directory, platform, names) is None,
    decreases names.len() - k,
{
    assert(names.take(k).drop_last() =~= names.take(k - 1));
    assert(names.take(k).last() == names[k - 1]);
    lemma_named_none_grows(c, directory, platform, names, k);
}

proof fn lemma_named_none_grows(c: Config, directory: Seq<char>, platform: Seq<char>, names: Seq<String>, k: int)
    requires
        0 <= k <= names.len(),
        named_layers(c, directory, platform, names.take(k)) is None,
    ensures
        named_layers(c, directory, platform, names) is None,
    decreases names.len() - k,
{
    if k < names.len() {
        assert(names.take(k + 1).drop_last() =~= names.take(k));
        lemma_named_none_grows(c, directory, platform, names, k + 1);
    } else {
        assert(names.take(k) =~= names);
    }
}

/// The layers one configured image adds.
fn image_layers_exec(c: &Config, directory: &str, platform: &str, img: &config::Image) -> (r: Result<Vec<Vec<model::FileMapping>>, String>)
    requires
        config_wf(*c),
        files_wf(img.files@),
        modes_ok(img.files@),
        forall|l: int| 0 <= l < img.layers@.len() ==> c.layers.view().contains_key(#[trigger] img.layers@[l]@)
            && modes_ok(c.layers.view()[img.layers@[l]@].files@),
    ensures
        match image_layers(*c, directory@, platform@, *img) {
            Some(ls) => r matches Ok(v) && files_views(v@) == ls,
            None => r is Err,
        },
{
    let mut all = match named_layers_exec(c, directory, platform, &img.layers) {
        Ok(v) => v,
        Err(e) => {
            return Err(e);
        },
    };
    let files = match resolve_files(&img.files, directory, platform) {
        Ok(f) => f,
        Err(e) => {
            return Err(e);
        },
    };
    if files.len() > 0 {
        let ghost before = all@;
        all.push(files);
        assert(files_views(all@) =~= files_views(before).push(mapping_views(files@)));
    }
    if img.squash && all.len() > 1 {
        let ghost av = files_views(all@);
        let merged = flatten_exec(all);
        let mut one: Vec<Vec<model::FileMapping>> = Vec::new();
        one.push(merged);
        assert(files_views(one@) =~= seq![flatten_layers(av)]);
        Ok(one)
    } else {
        Ok(all)
    }
}

/// The layers of a chain of images, root first.
fn chain_layers_exec(c: &Config, directory: &str, platform: &str, chain: &Vec<String>) -> (r: Result<Vec<Vec<model::FileMapping>>, String>)
    requires
        config_wf(*c),
        chain_resolvable(*c, views(chain@)),
    ensures
        match chain_layers(*c, directory@, platform@, views(chain@)) {
            Some(ls) => r matches Ok(v) && files_views(v@) == ls,
            None => r is Err,
        },
{
    let mut out: Vec<Vec<model::FileMapping>> = Vec::new();
    let mut i: usize = 0;
    assert(views(chain@).take(0) =~= Seq::<Seq<char>>::empty());
    assert(files_views(out@) =~= Seq::<Seq<MappingView>>::empty());
    while i < chain.len()
        invariant
            config_wf(*c),
            chain_resolvable(*c, views(chain@)),
            i <= chain@.len(),
            chain_layers(*c, directory@, platform@, views(chain@).take(i as int)) == Some(files_views(out@)),
        decreases chain@.len() - i,
    {
        proof {
            assert(views(chain@).take(i + 1).drop_last() =~= views(chain@).take(i as int));
            assert(views(chain@).take(i + 1).last() == chain@[i as int]@);
            assert(views(chain@)[i as int] == chain@[i as int]@);
            assert(c.images.view().contains_key(chain@[i as int]@));
        }
        let img = c.images.get(chain[i].as_str()).unwrap();
        proof {
            assert(files_wf(img.files@));
            assert(c.images.view()[views(chain@)[i as int]] == *img);
        }
        let mut own = match image_layers_exec(c, directory, platform, img) {
            Ok(v) => v,
            Err(e) => {
                proof {
                    lemma_chain_layers_stop(*c, directory@, platform@, views(chain@), i as int + 1);
                }
                return Err(e);
            },
        };
        let ghost before = out@;
        let ghost ov = own@;
        out.append(&mut own);
        assert(files_views(out@) =~= files_views(before) + files_views(ov));
        i = i + 1;
    }
    assert(views(chain@).take(i as int) =~= views(chain@));
    Ok(out)
}

proof fn lemma_chain_layers_stop(c: Config, directory: Seq<char>, platform: Seq<char>, chain: Seq<Seq<char>>, k: int)
    requires
        0 < k <= chain.len(),
        chain_layers(c, directory, platform, chain.take(k - 1)) is Some,
        image_layers(c, directory, platform, c.images.view()[chain[k - 1]]) is None,
    ensures
        chain_layers(c, directory, platform, chain) is None,
{
    assert(chain.take(k).drop_last() =~= chain.take(k - 1));
    assert(chain.take(k).last() == chain[k - 1]);
    lemma_chain_none_grows(c, directory, platform, chain, k);
}

proof fn lemma_chain_none_grows(c: Config, directory: Seq<char>, platform: Seq<char>, chain: Seq<Seq<char>>, k: int)
    requires
        0 <= k <= chain.len(),
        chain_layers(c, directory, platform, chain.take(k)) is None,
    ensures
        chain_layers(c, directory, platform, chain) is None,
    decreases chain.len() - k,
{
    if k < chain.len() {
        assert(chain.take(k + 1).drop_last() =~= chain.take(k));
        lemma_chain_none_grows(c, directory, platform, chain, k + 1);
    } else {
        assert(chain.take(k) =~= chain);
    }
}

pub open spec fn ostrs(o: Option<Vec<String>>) -> Option<Seq<Seq<char>>> {
    match o {
        Some(v) => Some(views(v@)),
        None => None,
    }
}

/// The runtime settings that a chain of images gives, root first: each setting from the last
/// image that sets it, maps merged with later images winning, and whether any flattens.
pub struct RuntimePick {
    pub entrypoint: Option<Seq<Seq<char>>>,
    pub command: Option<Seq<Seq<char>>>,
    pub user: Option<Seq<char>>,
    pub workdir: Option<Seq<char>>,
    pub stop_signal: Option<Seq<char>>,
    pub expose: Option<Seq<Seq<char>>>,
    pub volumes: Option<Seq<Seq<char>>>,
    pub env: Map<Seq<char>, String>,
    pub labels: Map<Seq<char>, String>,
    pub annotations: Map<Seq<char>, String>,
    pub flatten: bool,
}

pub open spec fn runtime_fold(imgs: Seq<config::Image>) -> RuntimePick
    decreases imgs.len(),
{
    if imgs.len() == 0 {
        RuntimePick {
            entrypoint: None,
            command: None,
            user: None,
            workdir: None,
            stop_signal: None,
            expose: None,
            volumes: None,
            env: Map::empty(),
            labels: Map::empty(),
            annotations: Map::empty(),
            flatten: false,
        }
    } else {
        let p = runtime_fold(imgs.drop_last());
        let i = imgs.last();
        RuntimePick {
            entrypoint: if i.entrypoint is Some { ostrs(i.entrypoint) } else { p.entrypoint },
            command: if i.command is Some { ostrs(i.command) } else { p.command },
            user: if i.user is Some { crate::tree::opt_view(i.user) } else { p.user },
            workdir: if i.workdir is Some { crate::tree::opt_view(i.workdir) } else { p.workdir },
            stop_signal: if i.stop_signal is Some { crate::tree::opt_view(i.stop_signal) } else { p.stop_signal },
            expose: if i.expose is Some { ostrs(i.expose) } else { p.expose },
            volumes: if i.volumes is Some { ostrs(i.volumes) } else { p.volumes },
            env: p.env.union_prefer_right(i.env.view()),
            labels: p.labels.union_prefer_right(i.labels.view()),
            annotations: p.annotations.union_prefer_right(i.annotations.view()),
            flatten: p.flatten || i.flatten,
        }
    }
}

/// Along a chain of images, root first, the last image that sets a setting decides it, a map
/// key takes its value from the last image that sets it, and the chain flattens when any of its
/// images does.
pub proof fn lemma_later_images_decide(imgs: Seq<config::Image>, i: int, k: Seq<char>)
    requires
        0 <= i < imgs.len(),
    ensures
        (imgs[i].entrypoint is Some && forall|j: int| i < j < imgs.len() ==> (#[trigger] imgs[j]).entrypoint is None)
            ==> runtime_fold(imgs).entrypoint == ostrs(imgs[i].entrypoint),
        (imgs[i].command is Some && forall|j: int| i < j < imgs.len() ==> (#[trigger] imgs[j]).command is None)
            ==> runtime_fold(imgs).command == ostrs(imgs[i].command),
        (imgs[i].user is Some && forall|j: int| i < j < imgs.len() ==> (#[trigger] imgs[j]).user is None)
            ==> runtime_fold(imgs).user == crate::tree::opt_view(imgs[i].user),
        (imgs[i].workdir is Some && forall|j: int| i < j < imgs.len() ==> (#[trigger] imgs[j]).workdir is None)
            ==> runtime_fold(imgs).workdir == crate::tree::opt_view(imgs[i].workdir),
        (imgs[i].stop_signal is Some && forall|j: int| i < j < imgs.len() ==> (#[trigger] imgs[j]).stop_signal is None)
            ==> runtime_fold(imgs).stop_signal == crate::tree::opt_view(imgs[i].stop_signal),
        (imgs[i].expose is Some && forall|j: int| i < j < imgs.len() ==> (#[trigger] imgs[j]).expose is None)
            ==> runtime_fold(imgs).expose == ostrs(imgs[i].expose),
        (imgs[i].volumes is Some && forall|j: int| i < j < imgs.len() ==> (#[trigger] imgs[j]).volumes is None)
            ==> runtime_fold(imgs).volumes == ostrs(imgs[i].volumes),
        (imgs[i].env.view().contains_key(k) && forall|j: int| i < j < imgs.len() ==> !(#[trigger] imgs[j]).env.view().contains_key(k))
            ==> runtime_fold(imgs).env.contains_key(k) && runtime_fold(imgs).env[k] == imgs[i].env.view()[k],
        (imgs[i].labels.view().contains_key(k) && forall|j: int| i < j < imgs.len() ==> !(#[trigger] imgs[j]).labels.view().contains_key(k))
            ==> runtime_fold(imgs).labels.contains_key(k) && runtime_fold(imgs).labels[k] == imgs[i].labels.view()[k],
        (imgs[i].annotations.view().contains_key(k) && forall|j: int| i < j < imgs.len() ==> !(#[trigger] imgs[j]).annotations.view().contains_key(k))
            ==> runtime_fold(imgs).annotations.contains_key(k) && runtime_fold(imgs).annotations[k] == imgs[i].annotations.view()[k],
        imgs[i].flatten ==> runtime_fold(imgs).flatten,
    decreases imgs.len(),
{
    let init = imgs.drop_last();
    if i < imgs.len() - 1 {
        lemma_later_images_decide(init, i, k);
        assert(init[i] == imgs[i]);
        assert(imgs[imgs.len() - 1] == imgs.last());
        assert forall|j: int| i < j < init.len() implies #[trigger] init[j] == imgs[j] by {}
    }
}

/// A squashed image has at most one layer, holding every file of the chain's layers in order,
/// then the copies.
pub proof fn lemma_squash_one_layer(chain: Seq<Seq<MappingView>>, copies: Seq<MappingView>)
    ensures
        final_layers(chain, copies, true).len() <= 1,
        final_layers(chain, copies, true).len() == 1 ==> final_layers(chain, copies, true)[0] == flatten_layers(chain) + copies,
{
}

/// The configured images of a chain.
pub open spec fn chain_images(c: Config, chain: Seq<Seq<char>>) -> Seq<config::Image> {
    chain.map_values(|n: Seq<char>| c.images.view()[n])
}

/// Sets every entry of `src` over `dst`.
pub fn extend_map(dst: &mut StrMap<String>, src: &StrMap<String>)
    requires
        old(dst).wf(),
    ensures
        final(dst).wf(),
        final(dst).view() == old(dst).view().union_prefer_right(src.view()),
{
    let ghost start = dst.view();
    let n = src.len();
    let mut i: usize = 0;
    assert(map_of(src.items().take(0)) =~= Map::<Seq<char>, String>::empty());
    assert(start.union_prefer_right(Map::<Seq<char>, String>::empty()) =~= start);
    while i < n
        invariant
            n == src.items().len(),
            i <= n,
            dst.wf(),
            dst.view() == start.union_prefer_right(map_of(src.items().take(i as int))),
        decreases n - i,
    {
        let (k, v) = src.at(i);
        dst.insert(k.clone(), v.clone());
        proof {
            let items = src.items();
            assert(items.take(i + 1).drop_last() =~= items.take(i as int));
            assert(items.take(i + 1).last() == items[i as int]);
            assert(dst.view() =~= start.union_prefer_right(map_of(items.take(i + 1))));
        }
        i = i + 1;
    }
    assert(src.items().take(n as int) =~= src.items());
}

fn copy_opt_vec(o: &Option<Vec<String>>) -> (r: Option<Vec<String>>)
    ensures
        ostrs(r) == ostrs(*o),
{
    match o {
        Some(v) => Some(crate::config::copy_vec(v)),
        None => None,
    }
}

/// Whether a runtime configuration and annotations carry the settings picked from a chain,
/// with the build's labels and annotations set over them.
pub open spec fn runtime_matches(rc: model::RuntimeConfig, annotations: StrMap<String>, pick: RuntimePick, options: crate::cli::BuildOptions) -> bool {
    &&& ostrs(rc.entrypoint) == pick.entrypoint
    &&& ostrs(rc.command) == pick.command
    &&& crate::tree::opt_view(rc.user) == pick.user
    &&& crate::tree::opt_view(rc.workdir) == pick.workdir
    &&& crate::tree::opt_view(rc.stop_signal) == pick.stop_signal
    &&& ostrs(rc.expose) == pick.expose
    &&& ostrs(rc.volumes) == pick.volumes
    &&& rc.env.wf() && rc.env.view() == pick.env
    &&& rc.labels.wf() && rc.labels.view() == assigned(pick.labels, options.labels@)
    &&& annotations.wf() && annotations.view() == assigned(pick.annotations, options.annotations@)
}

/// The runtime settings of a chain of images, root first.
fn runtime_exec(c: &Config, chain: &Vec<String>, options: &crate::cli::BuildOptions) -> (r: (model::RuntimeConfig, StrMap<String>, bool))
    requires
        config_wf(*c),
        forall|k: int| 0 <= k < chain@.len() ==> c.images.view().contains_key(#[trigger] chain@[k]@),
    ensures
        runtime_matches(r.0, r.1, runtime_fold(chain_images(*c, views(chain@))), *options),
        r.2 == runtime_fold(chain_images(*c, views(chain@))).flatten,
{
    let mut rc = model::RuntimeConfig::new();
    let mut annotations: StrMap<String> = StrMap::new();
    let mut flatten = false;
    let ghost imgs = chain_images(*c, views(chain@));
    let mut i: usize = 0;
    proof {
        assert(imgs.take(0) =~= Seq::<config::Image>::empty());
        assert(rc.env.view() =~= Map::<Seq<char>, String>::empty());
        assert(rc.labels.view() =~= Map::<Seq<char>, String>::empty());
        assert(annotations.view() =~= Map::<Seq<char>, String>::empty());
    }
    while i < chain.len()
        invariant
            config_wf(*c),
            forall|k: int| 0 <= k < chain@.len() ==> c.images.view().contains_key(#[trigger] chain@[k]@),
                imgs == chain_images(*c, views(chain@)),
            i <= chain@.len(),
            rc.env.wf(),
            rc.labels.wf(),
            annotations.wf(),
            ({
                let p = runtime_fold(imgs.take(i as int));
                &&& ostrs(rc.entrypoint) == p.entrypoint
                &&& ostrs(rc.command) == p.command
                &&& crate::tree::opt_view(rc.user) == p.user
                &&& crate::tree::opt_view(rc.workdir) == p.workdir
                &&& crate::tree::opt_view(rc.stop_signal) == p.stop_signal
                &&& ostrs(rc.expose) == p.expose
                &&& ostrs(rc.volumes) == p.volumes
                &&& rc.env.view() == p.env
                &&& rc.labels.view() == p.labels
                &&& annotations.view() == p.annotations
                &&& flatten == p.flatten
            }),
        decreases chain@.len() - i,
    {
        assert(c.images.view().contains_key(chain@[i as int]@));
        let img = c.images.get(chain[i].as_str()).unwrap();
        proof {
            assert(imgs.take(i + 1).drop_last() =~= imgs.take(i as int));
            assert(imgs.take(i + 1).last() == imgs[i as int]);
            assert(views(chain@)[i as int] == chain@[i as int]@);
            assert(imgs[i as int] == *img);
            assert(image_maps_wf(*img));
        }
        if img.entrypoint.is_some() {
            rc.entrypoint = copy_opt_vec(&img.entrypoint);
        }
        if img.command.is_some() {
            rc.command = copy_opt_vec(&img.command);
        }
        if img.user.is_some() {
            rc.user = crate::tree::clone_opt_string(&img.user);
        }
        if img.workdir.is_some() {
            rc.workdir = crate::tree::clone_opt_string(&img.workdir);
        }
        if img.stop_signal.is_some() {
            rc.stop_signal = crate::tree::clone_opt_string(&img.stop_signal);
        }
        if img.expose.is_some() {
            rc.expose = copy_opt_vec(&img.expose);
        }
        if img.volumes.is_some() {
            rc.volumes = copy_opt_vec(&img.volumes);
        }
        extend_map(&mut rc.env, &img.env);
        extend_map(&mut rc.labels, &img.labels);
        extend_map(&mut annotations, &img.annotations);
        flatten = flatten || img.flatten;
        i = i + 1;
    }
    assert(imgs.take(i as int) =~= imgs);
    apply_assignments(&mut rc.labels, &options.labels);
    apply_assignments(&mut annotations, &options.annotations);
    (rc, annotations, flatten)
}

/// Whether `pi` is the platform image that a chain of images (root first) resolves to for
/// platform `pn`, with `base` as its pulled base.
pub open spec fn platform_resolved(
    c: Config,
    directory: Seq<char>,
    working_directory: Seq<char>,
    chain: Seq<Seq<char>>,
    options: crate::cli::BuildOptions,
    pn: Seq<char>,
    base: Option<model::BaseImage>,
    pi: model::PlatformImage,
) -> bool {
    let pick = runtime_fold(chain_images(c, chain));
    &&& platform_string_valid(pn)
    &&& pi.platform@ == platform_of(pn)
    &&& pi.base == base
    &&& chain_layers(c, directory, pn, chain) matches Some(ls)
    &&& layer_views(pi.layers@) == final_layers(ls, copy_views(options.copies@, working_directory), options.squash)
    &&& runtime_matches(pi.runtime_config, pi.annotations, pick, options)
    &&& pi.flatten == (options.flatten || pick.flatten)
}

/// Whether a chain resolves for platform `pn`: a valid platform whose files all resolve.
pub open spec fn platform_resolvable(c: Config, directory: Seq<char>, chain: Seq<Seq<char>>, pn: Seq<char>) -> bool {
    platform_string_valid(pn) && chain_layers(c, directory, pn, chain) is Some
}

/// Layers holding the lists of files.
fn to_layers(ls: Vec<Vec<model::FileMapping>>) -> (r: Vec<model::Layer>)
    ensures
        layer_views(r@) == files_views(ls@),
{
    let mut out: Vec<model::Layer> = Vec::new();
    let mut rest = ls;
    let ghost orig = rest@;
    let ghost mut i: int = 0;
    assert(orig.skip(0) =~= orig);
    assert(layer_views(out@) =~= files_views(orig.take(0)));
    while rest.len() > 0
        invariant
            0 <= i <= orig.len(),
            rest@ == orig.skip(i),
            layer_views(out@) == files_views(orig.take(i)),
        decreases rest@.len(),
    {
        let files = rest.remove(0);
        let ghost before = out@;
        let ghost fv = mapping_views(files@);
        out.push(model::Layer { files });
        proof {
            assert(files == orig[i]);
            assert(rest@ =~= orig.skip(i + 1));
            assert(out@ == before.push(model::Layer { files }));
            assert(layer_views(out@) =~= layer_views(before).push(fv));
            assert(orig.take(i + 1) =~= orig.take(i).push(orig[i]));
            assert(files_views(orig.take(i + 1)) =~= files_views(orig.take(i)).push(fv));
            i = i + 1;
        }
    }
    assert(orig.take(i) =~= orig);
    out
}

/// The mappings of `--copy` values, sources below the working directory unless absolute.
fn copy_mappings(copies: &Vec<crate::cli::CopyInput>, working_directory: &str) -> (r: Vec<model::FileMapping>)
    ensures
        mapping_views(r@) == copy_views(copies@, working_directory@),
{
    let mut out: Vec<model::FileMapping> = Vec::new();
    let mut i: usize = 0;
    assert(copies@.take(0) =~= Seq::<crate::cli::CopyInput>::empty());
    assert(mapping_views(out@) =~= Seq::<MappingView>::empty());
    while i < copies.len()
        invariant
            i <= copies@.len(),
            mapping_views(out@) == copy_views(copies@.take(i as int), working_directory@),
        decreases copies@.len() - i,
    {
        let source = path_join_exec(working_directory, copies[i].source.as_str());
        let m = model::FileMapping::new(source.as_str(), copies[i].destination.as_str());
        let ghost before = out@;
        out.push(m);
        proof {
            assert(copies@.take(i + 1).drop_last() =~= copies@.take(i as int));
            assert(copies@.take(i + 1).last() == copies@[i as int]);
            assert(views(m.includes@) =~= Seq::<Seq<char>>::empty());
            assert(views(m.exclude@) =~= Seq::<Seq<char>>::empty());
            assert(mapping_views(out@) =~= mapping_views(before).push(mapping_view(m)));
        }
        i = i + 1;
    }
    assert(copies@.take(i as int) =~= copies@);
    out
}

/// Resolves a chain of configured images (root first) into the image for one platform, with
/// `base` as the base pulled for it.
pub fn resolve_platform(
    c: &Config,
    directory: &str,
    working_directory: &str,
    chain: &Vec<String>,
    options: &crate::cli::BuildOptions,
    platform_name: &str,
    base: Option<model::BaseImage>,
) -> (r: Result<model::PlatformImage, String>)
    requires
        config_wf(*c),
        chain_resolvable(*c, views(chain@)),
    ensures
        r is Ok <==> platform_resolvable(*c, directory@, views(chain@), platform_name@),
        r matches Ok(pi) ==> platform_resolved(*c, directory@, working_directory@, views(chain@), *options, platform_name@, base, pi),
{
    let platform = match Platform::parse(platform_name) {
        Ok(p) => p,
        Err(e) => {
            return Err(e.message());
        },
    };
    let chain_files = match chain_layers_exec(c, directory, platform_name, chain) {
        Ok(v) => v,
        Err(e) => {
            return Err(e);
        },
    };
    let ghost cv = files_views(chain_files@);
    let mut copies = copy_mappings(&options.copies, working_directory);
    let ghost copy_v = mapping_views(copies@);
    let layers: Vec<model::Layer> = if options.squash {
        let mut files = flatten_exec(chain_files);
        let ghost fv = mapping_views(files@);
        files.append(&mut copies);
        assert(mapping_views(files@) =~= fv + copy_v);
        if files.len() > 0 {
            let mut one: Vec<model::Layer> = Vec::new();
            one.push(model::Layer { files });
            assert(layer_views(one@) =~= seq![flatten_layers(cv) + copy_v]);
            one
        } else {
            let none: Vec<model::Layer> = Vec::new();
            assert(layer_views(none@) =~= Seq::<Seq<MappingView>>::empty());
            none
        }
    } else {
        let mut ls = to_layers(chain_files);
        if copies.len() > 0 {
            let ghost before = ls@;
            ls.push(model::Layer { files: copies });
            assert(layer_views(ls@) =~= layer_views(before).push(copy_v));
        }
        ls
    };
    proof {
        assert forall|k: int| 0 <= k < chain@.len() implies c.images.view().contains_key(#[trigger] chain@[k]@) by {
            assert(views(chain@)[k] == chain@[k]@);
            assert(c.images.view().contains_key(views(chain@)[k]));
        }
    }
    let (rc, annotations, fl) = runtime_exec(c, chain, options);
    Ok(model::PlatformImage {
        platform,
        base,
        layers,
        runtime_config: rc,
        annotations,
        flatten: options.flatten || fl,
    })
}


proof fn lemma_chain_from_members(images: Map<Seq<char>, config::Image>, name: Seq<char>, visited: Seq<Seq<char>>, fuel: nat)
    requires
        forall|k: int| 0 <= k < visited.len() ==> images.contains_key(#[trigger] visited[k]),
    ensures
        config::chain_from(images, name, visited, fuel) matches Some(ch) ==> {
            &&& ch.len() > visited.len()
            &&& forall|k: int| 0 <= k < visited.len() ==> ch[k] == visited[k]
            &&& ch[visited.len() as int] == name
            &&& forall|k: int| 0 <= k < ch.len() ==> images.contains_key(#[trigger] ch[k])
            &&& images[ch.last()].base is External
        },
    decreases fuel,
{
    if fuel == 0 || !images.contains_key(name) || visited.contains(name) {
    } else {
        let next = visited.push(name);
        assert forall|k: int| 0 <= k < next.len() implies images.contains_key(#[trigger] next[k]) by {
            if k < visited.len() {
                assert(next[k] == visited[k]);
            }
        }
        match images[name].base {
            Base::External(_) => {},
            Base::Local { image } => {
                lemma_chain_from_members(images, image@, next, (fuel - 1) as nat);
                assert(next[visited.len() as int] == name);
            },
        }
    }
}

/// The base chain of a configured image starts at the image, holds only configured images,
/// and ends at an image with an external base.
pub proof fn lemma_base_chain_shape(images: Map<Seq<char>, config::Image>, name: Seq<char>)
    ensures
        base_chain(images, name) matches Some(ch) ==> {
            &&& ch.len() > 0
            &&& ch[0] == name
            &&& forall|k: int| 0 <= k < ch.len() ==> images.contains_key(#[trigger] ch[k])
            &&& images[ch.last()].base is External
        },
{
    lemma_chain_from_members(images, name, Seq::empty(), images.dom().len() + 1);
}

/// A valid configuration resolves: the base chain of each of its images, in either order,
/// holds only configured images whose layers are configured and whose files, and those
/// layers' files, have portable modes.
pub proof fn lemma_valid_config_resolvable(c: Config, host: Seq<char>, name: Seq<char>)
    requires
        config::valid_config(c, host),
        c.images.view().contains_key(name),
    ensures
        base_chain(c.images.view(), name) is Some,
        chain_resolvable(c, base_chain(c.images.view(), name).unwrap()),
        chain_resolvable(c, base_chain(c.images.view(), name).unwrap().reverse()),
{
    let images = c.images.view();
    lemma_base_chain_shape(images, name);
    let ch = base_chain(images, name).unwrap();
    assert forall|k: int| 0 <= k < ch.len() implies {
        let img = #[trigger] c.images.view()[ch[k]];
        &&& c.images.view().contains_key(ch[k])
        &&& modes_ok(img.files@)
        &&& forall|l: int| 0 <= l < img.layers@.len() ==> c.layers.view().contains_key(#[trigger] img.layers@[l]@)
            && modes_ok(c.layers.view()[img.layers@[l]@].files@)
    } by {
        let n = ch[k];
        assert(images.contains_key(n));
        assert(config::image_ok(c, n, host));
        let img = images[n];
        assert forall|i: int| 0 <= i < img.files@.len() implies ((#[trigger] img.files@[i]).mode matches Some(m) ==> mode_valid(m@)) by {
            assert(config::file_options_valid(img.files@[i]));
        }
        assert forall|l: int| 0 <= l < img.layers@.len() implies c.layers.view().contains_key(#[trigger] img.layers@[l]@)
            && modes_ok(c.layers.view()[img.layers@[l]@].files@) by {
            let lf = c.layers.view()[img.layers@[l]@].files@;
            assert(c.layers.view().contains_key(img.layers@[l]@));
            assert(config::files_valid(lf));
            assert forall|i: int| 0 <= i < lf.len() implies ((#[trigger] lf[i]).mode matches Some(m) ==> mode_valid(m@)) by {
                assert(config::file_options_valid(lf[i]));
            }
        }
    }
    let rv = ch.reverse();
    assert forall|k: int| 0 <= k < rv.len() implies {
        let img = #[trigger] c.images.view()[rv[k]];
        &&& c.images.view().contains_key(rv[k])
        &&& modes_ok(img.files@)
        &&& forall|l: int| 0 <= l < img.layers@.len() ==> c.layers.view().contains_key(#[trigger] img.layers@[l]@)
            && modes_ok(c.layers.view()[img.layers@[l]@].files@)
    } by {
        assert(rv[k] == ch[ch.len() - 1 - k]);
        let _ = c.images.view()[ch[ch.len() - 1 - k]];
    }
}

/// The images that `name` builds on, and `name` itself, root first.
pub fn image_chain(c: &Config, name: &str) -> (r: Option<Vec<String>>)
    requires
        config_wf(*c),
    ensures
        match r {
            Some(v) => base_chain(c.images.view(), name@) == Some(views(v@).reverse()),
            None => base_chain(c.images.view(), name@) is None,
        },
{
    let v = match chain_of(&c.images, name) {
        Some(v) => v,
        None => {
            return None;
        },
    };
    let mut out: Vec<String> = Vec::new();
    let mut i: usize = v.len();
    assert(views(out@) =~= views(v@).skip(v@.len() as int).reverse());
    while i > 0
        invariant
            i <= v@.len(),
            views(out@) == views(v@).skip(i as int).reverse(),
        decreases i,
    {
        let ghost before = views(out@);
        out.push(v[i - 1].clone());
        proof {
            assert(views(out@) =~= before.push(v@[i - 1]@));
            assert(views(v@).skip(i - 1) =~= seq![v@[i - 1]@] + views(v@).skip(i as int));
            assert(views(v@).skip(i - 1).reverse() =~= views(v@).skip(i as int).reverse().push(v@[i - 1]@));
        }
        i = i - 1;
    }
    assert(views(v@).skip(0) =~= views(v@));
    Some(out)
}

/// The name `scratch`, which stands for no base image.
pub open spec fn scratch_name() -> Seq<char> {
    seq!['s', 'c', 'r', 'a', 't', 'c', 'h']
}

/// The base image that the root of a chain names, `None` when that is `scratch`.
pub open spec fn root_base(c: Config, chain: Seq<Seq<char>>) -> Option<Seq<char>> {
    match c.images.view()[chain[0]].base {
        Base::External(b) => if b@ == scratch_name() { None } else { Some(b@) },
        Base::Local { .. } => None,
    }
}

/// The base image to pull for a chain of images (root first): the root's external base, or
/// `None` for `scratch`.
pub fn base_to_pull(c: &Config, chain: &Vec<String>) -> (r: Option<String>)
    requires
        config_wf(*c),
        chain@.len() > 0,
        c.images.view().contains_key(chain@[0]@),
    ensures
        crate::tree::opt_view(r) == root_base(*c, views(chain@)),
{
    proof {
        c.images.lemma_view();
    }
    let root = c.images.get(chain[0].as_str()).unwrap();
    assert(views(chain@)[0] == chain@[0]@);
    match &root.base {
        Base::External(b) => {
            proof {
                reveal_strlit("scratch");
                assert("scratch"@ =~= scratch_name());
            }
            if str_eq(b.as_str(), "scratch") {
                None
            } else {
                Some(b.clone())
            }
        },
        Base::Local { .. } => None,
    }
}

/// The platforms to build an image for: those the build names, else those the configuration
/// gives or infers for it.
pub open spec fn platform_names_spec(c: Config, name: Seq<char>, options: crate::cli::BuildOptions, host: Seq<char>) -> Option<Seq<Seq<char>>> {
    if options.platforms@.len() == 0 {
        config::platforms_spec(c, name, host)
    } else {
        Some(views(options.platforms@))
    }
}

/// The platforms to build image `name` for, with `host_platform` as the host's platform.
pub fn image_platform_names(c: &Config, name: &str, options: &crate::cli::BuildOptions, host_platform: &str) -> (r: Result<Vec<String>, String>)
    requires
        config_wf(*c),
    ensures
        match platform_names_spec(*c, name@, *options, host_platform@) {
            Some(ps) => r matches Ok(v) && views(v@) == ps,
            None => r is Err,
        },
{
    if options.platforms.len() > 0 {
        return Ok(crate::config::copy_vec(&options.platforms));
    }
    match c.platforms_for_image(name, host_platform) {
        Some(v) => Ok(v),
        None => Err(concat("cannot resolve platforms for image ", name)),
    }
}

/// The reference a tag gives the one image of a publish: the part after `=` when scoped.
pub open spec fn source_reference(tag: Seq<char>) -> Seq<char> {
    match split_once_spec(tag, '=') {
        Some((_, r)) => r,
        None => tag,
    }
}

pub open spec fn source_references(tags: Seq<String>) -> Seq<Seq<char>> {
    views(tags).map_values(|t: Seq<char>| source_reference(t))
}

/// The path `/app`, where a published executable is placed.
pub open spec fn app_path() -> Seq<char> {
    seq!['/', 'a', 'p', 'p']
}

/// The files of a published executable: the executable at `/app` with mode `0755`, then the
/// copies.
pub open spec fn source_files(source: Seq<char>, working_directory: Seq<char>, copies: Seq<crate::cli::CopyInput>) -> Seq<MappingView> {
    seq![MappingView {
        source: path_join(working_directory, source),
        destination: app_path(),
        includes: Seq::empty(),
        exclude: Seq::empty(),
        mode: Some(493u32),
        uid: 0,
        gid: 0,
        follow_symlinks: false,
        preserve_paths: false,
    }] + copy_views(copies, working_directory)
}

/// The platforms a publish builds: those it names, else the host's.
pub open spec fn source_platforms(options: crate::cli::BuildOptions, host: crate::platform::PlatformView) -> Seq<crate::platform::PlatformView> {
    if options.platforms@.len() == 0 {
        seq![host]
    } else {
        views(options.platforms@).map_values(|p: Seq<char>| platform_of(p))
    }
}

/// Whether a publish can build: it has a tag, its platforms are valid and its source is a file.
pub open spec fn source_buildable(options: crate::cli::BuildOptions, source_is_file: bool) -> bool {
    &&& options.tags@.len() > 0
    &&& forall|j: int| 0 <= j < options.platforms@.len() ==> platform_string_valid(#[trigger] options.platforms@[j]@)
    &&& source_is_file
}

/// Whether `pi` is the image that publishing an executable builds for platform `p`.
pub open spec fn source_platform_image(pi: model::PlatformImage, p: crate::platform::PlatformView, files: Seq<MappingView>, options: crate::cli::BuildOptions) -> bool {
    let rc = pi.runtime_config;
    &&& pi.platform@ == p
    &&& pi.base is None
    &&& layer_views(pi.layers@) == seq![files]
    &&& ostrs(rc.entrypoint) == Some(seq![app_path()])
    &&& rc.command is None && rc.user is None && rc.workdir is None && rc.stop_signal is None
    &&& rc.expose is None && rc.volumes is None
    &&& rc.env.wf() && rc.env.view() == Map::<Seq<char>, String>::empty()
    &&& rc.labels.wf() && rc.labels.view() == assigned(Map::empty(), options.labels@)
    &&& pi.annotations.wf() && pi.annotations.view() == assigned(Map::empty(), options.annotations@)
    &&& pi.flatten == options.flatten
}

/// Whether `set` is what publishing the executable `source` builds: one image named `image`
/// with the tags' references and one platform image per platform.
pub open spec fn source_image_set(
    set: model::ImageSet,
    options: crate::cli::BuildOptions,
    source: Seq<char>,
    working_directory: Seq<char>,
    host: crate::platform::PlatformView,
) -> bool {
    let imgs = set.spec_images();
    let platforms = source_platforms(options, host);
    let files = source_files(source, working_directory, options.copies@);
    &&& imgs.len() == 1
    &&& imgs[0].name@ == seq!['i', 'm', 'a', 'g', 'e']
    &&& views(imgs[0].references@) == source_references(options.tags@)
    &&& imgs[0].platforms@.len() == platforms.len()
    &&& forall|j: int| 0 <= j < platforms.len() ==> source_platform_image(#[trigger] imgs[0].platforms@[j], platforms[j], files, options)
    &&& set.spec_source_date_epoch() == 0
}

fn duplicate_mapping(f: &model::FileMapping) -> (r: model::FileMapping)
    ensures
        mapping_view(r) == mapping_view(*f),
{
    model::FileMapping {
        source: f.source.clone(),
        destination: f.destination.clone(),
        includes: crate::config::copy_vec(&f.includes),
        exclude: crate::config::copy_vec(&f.exclude),
        mode: f.mode,
        uid: f.uid,
        gid: f.gid,
        follow_symlinks: f.follow_symlinks,
        preserve_paths: f.preserve_paths,
    }
}

fn duplicate_mappings(v: &Vec<model::FileMapping>) -> (r: Vec<model::FileMapping>)
    ensures
        mapping_views(r@) == mapping_views(v@),
{
    let mut out: Vec<model::FileMapping> = Vec::new();
    let mut i: usize = 0;
    while i < v.len()
        invariant
            i <= v@.len(),
            mapping_views(out@) == mapping_views(v@.take(i as int)),
        decreases v@.len() - i,
    {
        let ghost before = out@;
        out.push(duplicate_mapping(&v[i]));
        proof {
            assert(v@.take(i + 1) =~= v@.take(i as int).push(v@[i as int]));
            assert(mapping_views(out@) =~= mapping_views(before).push(mapping_view(v@[i as int])));
            assert(mapping_views(v@.take(i + 1)) =~= mapping_views(v@.take(i as int)).push(mapping_view(v@[i as int])));
        }
        i = i + 1;
    }
    assert(v@.take(i as int) =~= v@);
    out
}

/// The references of a publish's tags, the part after `=` of scoped ones.
fn source_reference_list(tags: &Vec<String>) -> (r: Vec<String>)
    ensures
        views(r@) == source_references(tags@),
{
    let mut out: Vec<String> = Vec::new();
    let mut i: usize = 0;
    while i < tags.len()
        invariant
            i <= tags@.len(),
            views(out@) == source_references(tags@.take(i as int)),
        decreases tags@.len() - i,
    {
        let t = match split_once(tags[i].as_str(), '=') {
            Some((_, reference)) => reference,
            None => tags[i].clone(),
        };
        let ghost before = views(out@);
        out.push(t);
        proof {
            assert(tags@.take(i + 1) =~= tags@.take(i as int).push(tags@[i as int]));
            assert(views(out@) =~= before.push(t@));
            assert(source_references(tags@.take(i + 1)) =~= source_references(tags@.take(i as int)).push(source_reference(tags@[i as int]@)));
        }
        i = i + 1;
    }
    assert(tags@.take(i as int) =~= tags@);
    out
}

/// The image set that publishing the executable `source` builds, with `working_directory` as
/// the directory that relative paths start from, `host` as the platform when the build names
/// none, and `source_is_file` telling whether the source path names a regular file.
pub fn resolve_source(
    options: &crate::cli::BuildOptions,
    source: &str,
    working_directory: &str,
    host: Platform,
    source_is_file: bool,
) -> (r: Result<model::ImageSet, String>)
    ensures
        r is Ok <==> source_buildable(*options, source_is_file),
        r matches Ok(set) ==> source_image_set(set, *options, source@, working_directory@, host@),
{
    let references = source_reference_list(&options.tags);
    assert(views(references@).len() == options.tags@.len());
    if references.len() == 0 {
        return Err("publish --from requires at least one --tag REFERENCE".to_owned());
    }
    let mut platforms: Vec<Platform> = Vec::new();
    if options.platforms.len() == 0 {
        platforms.push(host);
    } else {
        let mut i: usize = 0;
        while i < options.platforms.len()
            invariant
                i <= options.platforms@.len(),
                platforms@.len() == i,
                forall|j: int| 0 <= j < i ==> platform_string_valid(#[trigger] options.platforms@[j]@),
                forall|j: int| 0 <= j < i ==> (#[trigger] platforms@[j])@ == platform_of(options.platforms@[j]@),
            decreases options.platforms@.len() - i,
        {
            match Platform::parse(options.platforms[i].as_str()) {
                Ok(p) => {
                    platforms.push(p);
                },
                Err(e) => {
                    return Err(e.message());
                },
            }
            i = i + 1;
        }
    }
    let ghost wanted = source_platforms(*options, host@);
    proof {
        if options.platforms@.len() > 0 {
            assert forall|j: int| 0 <= j < platforms@.len() implies (#[trigger] platforms@[j])@ == wanted[j] by {
                assert(views(options.platforms@)[j] == options.platforms@[j]@);
            }
        }
    }
    if !source_is_file {
        return Err(concat("publish --from source must be a file: ", source));
    }
    let mut files: Vec<model::FileMapping> = Vec::new();
    let mut app = model::FileMapping::new(path_join_exec(working_directory, source).as_str(), "/app");
    app.mode = Some(0o755u32);
    proof {
        reveal_strlit("/app");
        assert(views(app.includes@) =~= Seq::<Seq<char>>::empty());
        assert(views(app.exclude@) =~= Seq::<Seq<char>>::empty());
        assert(app.destination@ =~= app_path());
    }
    files.push(app);
    let mut copies = copy_mappings(&options.copies, working_directory);
    let ghost cv = mapping_views(copies@);
    let ghost first = mapping_views(files@);
    files.append(&mut copies);
    let ghost fv = source_files(source@, working_directory@, options.copies@);
    proof {
        reveal_strlit("/app");
        assert(first =~= seq![fv[0]]);
        assert(mapping_views(files@) =~= first + cv);
        assert(mapping_views(files@) =~= fv);
    }
    let mut labels: StrMap<String> = StrMap::new();
    apply_assignments(&mut labels, &options.labels);
    let mut annotations: StrMap<String> = StrMap::new();
    apply_assignments(&mut annotations, &options.annotations);
    let mut images: Vec<model::PlatformImage> = Vec::new();
    let mut rest = platforms;
    let ghost all = rest@;
    let ghost mut i: int = 0;
    assert(all.skip(0) =~= all);
    while rest.len() > 0
        invariant
            0 <= i <= all.len(),
            all.len() == wanted.len(),
            forall|j: int| 0 <= j < all.len() ==> (#[trigger] all[j])@ == wanted[j],
            rest@ == all.skip(i),
            images@.len() == i,
            mapping_views(files@) == fv,
            labels.wf() && labels.view() == assigned(Map::empty(), options.labels@),
            annotations.wf() && annotations.view() == assigned(Map::empty(), options.annotations@),
            forall|j: int| 0 <= j < i ==> source_platform_image(#[trigger] images@[j], wanted[j], fv, *options),
        decreases rest@.len(),
    {
        let platform = rest.remove(0);
        let layer_files = duplicate_mappings(&files);
        let mut layers: Vec<model::Layer> = Vec::new();
        layers.push(model::Layer { files: layer_files });
        let mut entry: Vec<String> = Vec::new();
        let app_name = "/app".to_owned();
        proof {
            reveal_strlit("/app");
            assert(app_name@ =~= app_path());
        }
        entry.push(app_name);
        assert(views(entry@) =~= seq![app_path()]);
        let mut rc = model::RuntimeConfig::new();
        rc.entrypoint = Some(entry);
        rc.labels = labels.duplicate();
        let pi = model::PlatformImage {
            platform,
            base: None,
            layers,
            runtime_config: rc,
            annotations: annotations.duplicate(),
            flatten: options.flatten,
        };
        proof {
            reveal_strlit("/app");
            assert(platform == all[i]);
            assert(rest@ =~= all.skip(i + 1));
            assert(layer_views(pi.layers@) =~= seq![fv]);
            assert(pi.runtime_config.env.items() =~= Seq::<(String, String)>::empty());
            assert(pi.runtime_config.env.view() =~= Map::<Seq<char>, String>::empty());
        }
        images.push(pi);
        proof {
            i = i + 1;
        }
    }
    assert(i == all.len());
    let mut image = model::Image::new("image", images);
    image.references = references;
    proof {
        reveal_strlit("image");
        assert(image.name@ =~= seq!['i', 'm', 'a', 'g', 'e']);
    }
    let mut list: Vec<model::Image> = Vec::new();
    list.push(image);
    let set = model::ImageSet::new(list);
    assert(set.spec_images()[0] == image);
    Ok(set)
}
} // verus!
