//! Slash-separated paths, read component by component as Unix paths are.
use vstd::prelude::*;
use vstd::string::*;

use crate::error::BuildError;
use crate::text::{
    views,
    concat, has_prefix, join_with, lemma_join_split, lemma_split_all_len, lemma_split_join, split_all, split_all_exec,
    starts_with, str_eq,
};

verus! {

pub open spec fn dot() -> Seq<char> {
    seq!['.']
}

pub open spec fn dot_dot() -> Seq<char> {
    seq!['.', '.']
}

/// A segment that names something: neither empty (a repeated or trailing `/`) nor `.`.
pub open spec fn names_something(p: Seq<char>) -> bool {
    p.len() > 0 && p != dot()
}

/// The segments of a path that remain as components: empty and `.` segments are dropped.
pub open spec fn normal_segs(segs: Seq<Seq<char>>) -> Seq<Seq<char>>
    decreases segs.len(),
{
    if segs.len() == 0 {
        Seq::empty()
    } else if names_something(segs.last()) {
        normal_segs(segs.drop_last()).push(segs.last())
    } else {
        normal_segs(segs.drop_last())
    }
}

/// Whether the path text starts at the root.
pub open spec fn is_rooted(s: Seq<char>) -> bool {
    s.len() > 0 && s[0] == '/'
}

/// The component names of a path: its non-empty segments other than `.`.
pub open spec fn path_names(s: Seq<char>) -> Seq<Seq<char>> {
    normal_segs(split_all(s, '/'))
}

/// Whether some component of the path is `..`.
pub open spec fn has_parent_dir(s: Seq<char>) -> bool {
    split_all(s, '/').contains(dot_dot())
}

/// A relative path written with `/` between its components, or `None` when the path is
/// absolute or climbs with `..` and so is not portable inside an archive.
pub open spec fn slash_path_spec(s: Seq<char>) -> Option<Seq<char>> {
    if is_rooted(s) || has_parent_dir(s) {
        None
    } else {
        Some(join_with(path_names(s), '/'))
    }
}

/// The normalized form of an absolute image destination: its components relative to the root.
pub open spec fn normalize_destination_spec(s: Seq<char>) -> Option<Seq<char>> {
    if !is_rooted(s) || has_parent_dir(s) {
        None
    } else {
        Some(join_with(path_names(s), '/'))
    }
}

/// `base` extended by `relative` as `PathBuf::push` does: an absolute `relative` replaces
/// `base`, and a `/` is put between them unless `base` is empty or already ends with one.
pub open spec fn path_join(base: Seq<char>, relative: Seq<char>) -> Seq<char> {
    if is_rooted(relative) || base.len() == 0 {
        relative
    } else if base.last() == '/' {
        base + relative
    } else {
        base + seq!['/'] + relative
    }
}

/// The parent of a path as `Path::parent` yields it, written in normal form, with `.` in place
/// of a missing or empty parent.
pub open spec fn output_parent_spec(s: Seq<char>) -> Seq<char> {
    let segs = split_all(s, '/');
    let names = normal_segs(segs);
    if names.len() == 0 {
        dot()
    } else {
        let rest = names.drop_last();
        if is_rooted(s) {
            seq!['/'] + join_with(rest, '/')
        } else if segs[0] == dot() {
            if rest.len() == 0 {
                dot()
            } else {
                seq!['.', '/'] + join_with(rest, '/')
            }
        } else if rest.len() == 0 {
            dot()
        } else {
            join_with(rest, '/')
        }
    }
}

/// The segments that remain name something and are segments of the input.
proof fn lemma_normal_segs_members(segs: Seq<Seq<char>>)
    ensures
        forall|i: int| 0 <= i < normal_segs(segs).len() ==> names_something(#[trigger] normal_segs(segs)[i])
            && segs.contains(normal_segs(segs)[i]),
    decreases segs.len(),
{
    if segs.len() > 0 {
        let init = segs.drop_last();
        lemma_normal_segs_members(init);
        assert forall|i: int| 0 <= i < normal_segs(segs).len() implies names_something(#[trigger] normal_segs(segs)[i])
            && segs.contains(normal_segs(segs)[i]) by {
            if i < normal_segs(init).len() {
                let j = choose|j: int| 0 <= j < init.len() && init[j] == normal_segs(init)[i];
                assert(segs[j] == init[j]);
            } else {
                assert(segs[segs.len() - 1] == segs.last());
            }
        }
    }
}

/// Segments that all name something remain as they are.
proof fn lemma_normal_segs_fixed(segs: Seq<Seq<char>>)
    requires
        forall|i: int| 0 <= i < segs.len() ==> names_something(#[trigger] segs[i]),
    ensures
        normal_segs(segs) == segs,
    decreases segs.len(),
{
    if segs.len() > 0 {
        lemma_normal_segs_fixed(segs.drop_last());
        assert(segs.drop_last().push(segs.last()) =~= segs);
    }
}

/// Writing a path's names with `/` between them gives a path with the same names.
pub proof fn lemma_path_names_join(s: Seq<char>)
    ensures
        path_names(join_with(path_names(s), '/')) == path_names(s),
{
    let ns = path_names(s);
    let pieces = split_all(s, '/');
    lemma_join_split(s, '/');
    lemma_normal_segs_members(pieces);
    if ns.len() == 0 {
        assert(join_with(ns, '/') == Seq::<char>::empty());
        crate::text::lemma_first_index(Seq::<char>::empty(), '/');
        assert(split_all(Seq::<char>::empty(), '/') == seq![Seq::<char>::empty()]);
        let one = seq![Seq::<char>::empty()];
        assert(one.drop_last() =~= Seq::<Seq<char>>::empty());
        assert(one.last() == Seq::<char>::empty());
        assert(!names_something(one.last()));
        assert(normal_segs(one.drop_last()) == Seq::<Seq<char>>::empty());
        assert(normal_segs(one) =~= Seq::<Seq<char>>::empty());
    } else {
        assert forall|k: int| 0 <= k < ns.len() implies !(#[trigger] ns[k]).contains('/') by {
            let j = choose|j: int| 0 <= j < pieces.len() && pieces[j] == ns[k];
            assert(!pieces[j].contains('/'));
        }
        lemma_split_join(ns, '/');
        lemma_normal_segs_fixed(ns);
    }
}

/// Splitting around a separator splits each side.
proof fn lemma_split_concat(x: Seq<char>, y: Seq<char>, c: char)
    ensures
        split_all(x + seq![c] + y, c) == split_all(x, c) + split_all(y, c),
    decreases x.len(),
{
    let s = x + seq![c] + y;
    crate::text::lemma_first_index(x, c);
    match crate::text::first_index(x, c) {
        Some(i) => {
            assert forall|j: int| 0 <= j < i implies s[j] != c by {
                assert(s[j] == x[j]);
                assert(x.take(i)[j] == x[j]);
            }
            assert(s[i] == x[i]);
            crate::text::lemma_first_index_at(s, c, i);
            assert(s.take(i) =~= x.take(i));
            assert(s.skip(i + 1) =~= x.skip(i + 1) + seq![c] + y);
            lemma_split_concat(x.skip(i + 1), y, c);
            assert(split_all(s, c) =~= split_all(x, c) + split_all(y, c));
        },
        None => {
            assert forall|j: int| 0 <= j < x.len() implies s[j] != c by {
                assert(s[j] == x[j]);
            }
            assert(s[x.len() as int] == c);
            crate::text::lemma_first_index_at(s, c, x.len() as int);
            assert(s.take(x.len() as int) =~= x);
            assert(s.skip(x.len() as int + 1) =~= y);
            assert(split_all(s, c) =~= split_all(x, c) + split_all(y, c));
        },
    }
}

proof fn lemma_normal_segs_concat(a: Seq<Seq<char>>, b: Seq<Seq<char>>)
    ensures
        normal_segs(a + b) == normal_segs(a) + normal_segs(b),
    decreases b.len(),
{
    if b.len() == 0 {
        assert(a + b =~= a);
        assert(normal_segs(a) + normal_segs(b) =~= normal_segs(a));
    } else {
        lemma_normal_segs_concat(a, b.drop_last());
        assert((a + b).drop_last() =~= a + b.drop_last());
        assert((a + b).last() == b.last());
        if names_something(b.last()) {
            assert(normal_segs(a) + normal_segs(b) =~= (normal_segs(a) + normal_segs(b.drop_last())).push(b.last()));
        }
    }
}

proof fn lemma_path_names_empty()
    ensures
        path_names(Seq::<char>::empty()) == Seq::<Seq<char>>::empty(),
{
    crate::text::lemma_first_index(Seq::<char>::empty(), '/');
    let one = seq![Seq::<char>::empty()];
    assert(split_all(Seq::<char>::empty(), '/') == one);
    assert(one.drop_last() =~= Seq::<Seq<char>>::empty());
    assert(one.last() == Seq::<char>::empty());
    assert(!names_something(one.last()));
    assert(normal_segs(one.drop_last()) == Seq::<Seq<char>>::empty());
    assert(normal_segs(one) =~= Seq::<Seq<char>>::empty());
}

/// The names of two paths joined by `/` are the names of each, in order.
pub proof fn lemma_path_names_slash(a: Seq<char>, b: Seq<char>)
    ensures
        path_names(a + seq!['/'] + b) == path_names(a) + path_names(b),
{
    lemma_split_concat(a, b, '/');
    lemma_normal_segs_concat(split_all(a, '/'), split_all(b, '/'));
}

/// Extending a path by a relative one adds the relative path's names after its own.
pub proof fn lemma_path_names_join_relative(a: Seq<char>, b: Seq<char>)
    requires
        !is_rooted(b),
    ensures
        path_names(path_join(a, b)) == path_names(a) + path_names(b),
        !is_rooted(a) ==> !is_rooted(path_join(a, b)),
{
    if a.len() == 0 {
        lemma_path_names_empty();
        assert(a =~= Seq::<char>::empty());
        assert(path_join(a, b) == b);
        assert(Seq::<Seq<char>>::empty() + path_names(b) =~= path_names(b));
    } else if a.last() == '/' {
        let a0 = a.drop_last();
        assert(a =~= a0 + seq!['/'] + Seq::<char>::empty());
        assert(a + b =~= a0 + seq!['/'] + b);
        lemma_path_names_slash(a0, b);
        lemma_path_names_slash(a0, Seq::<char>::empty());
        lemma_path_names_empty();
        assert(path_names(a0) + Seq::<Seq<char>>::empty() =~= path_names(a0));
        if !is_rooted(a) {
            assert((a + b)[0] == a[0]);
        }
    } else {
        lemma_path_names_slash(a, b);
        if !is_rooted(a) {
            assert((a + seq!['/'] + b)[0] == a[0]);
        }
    }
}

/// The file name of a path is a single name: it holds no `/`, is not empty and is not `.`.
pub proof fn lemma_single_name(s: Seq<char>)
    requires
        path_names(s).len() > 0,
    ensures
        path_names(path_names(s).last()) == seq![path_names(s).last()],
        !is_rooted(path_names(s).last()),
{
    let n = path_names(s).last();
    let pieces = split_all(s, '/');
    crate::text::lemma_join_split(s, '/');
    lemma_normal_segs_members(pieces);
    let ns = path_names(s);
    assert(names_something(ns[ns.len() - 1]));
    assert(pieces.contains(n));
    let j = choose|j: int| 0 <= j < pieces.len() && pieces[j] == n;
    assert(!n.contains('/'));
    assert forall|q: int| 0 <= q < n.len() implies n[q] != '/' by {
        if n[q] == '/' {
            assert(n.contains('/'));
        }
    }
    crate::text::lemma_first_index_none(n, '/');
    assert(split_all(n, '/') == seq![n]);
    lemma_normal_segs_fixed(seq![n]);
    assert(n[0] != '/');
}

pub proof fn lemma_join_push(parts: Seq<Seq<char>>, x: Seq<char>)
    requires
        parts.len() > 0,
    ensures
        join_with(parts.push(x), '/') == join_with(parts, '/') + seq!['/'] + x,
    decreases parts.len(),
{
    if parts.len() == 1 {
        let q = parts.push(x);
        assert(q.drop_first() =~= seq![x]);
        assert(join_with(seq![x], '/') == x);
        assert(join_with(q, '/') =~= parts[0] + seq!['/'] + x);
    } else {
        let q = parts.push(x);
        lemma_join_push(parts.drop_first(), x);
        assert(q.drop_first() =~= parts.drop_first().push(x));
        assert(join_with(q, '/') =~= join_with(parts, '/') + seq!['/'] + x);
    }
}

/// Joins segments with `/`.
pub fn join_segments(v: &Vec<String>) -> (r: String)
    ensures
        r@ == join_with(views(v@), '/'),
{
    proof {
        reveal_strlit("/");
        assert("/"@ =~= seq!['/']);
    }
    let mut r = String::new();
    let mut i: usize = 0;
    while i < v.len()
        invariant
            i <= v@.len(),
            r@ == join_with(views(v@).take(i as int), '/'),
        decreases v@.len() - i,
    {
        let ghost before = views(v@).take(i as int);
        proof {
            reveal_strlit("/");
            assert("/"@ =~= seq!['/']);
        }
        if i == 0 {
            r = v[0].clone();
            assert(views(v@).take(1) =~= seq![v@[0]@]);
        } else {
            r = r.concat("/").concat(v[i].as_str());
            proof {
                lemma_join_push(before, v@[i as int]@);
                assert(views(v@).take(i + 1) =~= before.push(v@[i as int]@));
            }
        }
        i = i + 1;
    }
    assert(views(v@).take(v@.len() as int) =~= views(v@));
    r
}

/// The segments of `s` between `/`s that name something.
pub fn names_of(s: &str) -> (r: Vec<String>)
    ensures
        views(r@) == path_names(s@),
{
    proof {
        reveal_strlit(".");
        assert("."@ =~= dot());
    }
    let parts = split_all_exec(s, '/');
    let ghost segs = split_all(s@, '/');
    assert(views(parts@) == segs);
    let mut r: Vec<String> = Vec::new();
    let mut i: usize = 0;
    while i < parts.len()
        invariant
            views(parts@) == segs,
            segs == split_all(s@, '/'),
            i <= parts@.len(),
            views(r@) == normal_segs(segs.take(i as int)),
        decreases parts@.len() - i,
    {
        proof {
            reveal_strlit(".");
            assert("."@ =~= dot());
        }
        let p = parts[i].as_str();
        let keep = !p.is_empty() && !str_eq(p, ".");
        proof {
            assert(p@ == segs[i as int]);
            assert(segs.take(i + 1).drop_last() =~= segs.take(i as int));
            assert(segs.take(i + 1).last() == segs[i as int]);
            assert("."@ =~= dot());
        }
        if keep {
            r.push(parts[i].clone());
            assert(views(r@) =~= normal_segs(segs.take(i as int)).push(segs[i as int]));
        }
        i = i + 1;
    }
    assert(segs.take(parts@.len() as int) =~= segs);
    r
}

/// Whether some `/`-separated segment of `s` is `..`.
pub fn has_parent_dir_exec(s: &str) -> (r: bool)
    ensures
        r == has_parent_dir(s@),
{
    proof {
        reveal_strlit("..");
        assert(".."@ =~= dot_dot());
    }
    assert(".."@ =~= dot_dot());
    let parts = split_all_exec(s, '/');
    let ghost segs = split_all(s@, '/');
    assert(views(parts@) == segs);
    let mut i: usize = 0;
    while i < parts.len()
        invariant
            views(parts@) == segs,
            segs == split_all(s@, '/'),
            i <= parts@.len(),
            forall|j: int| 0 <= j < i ==> segs[j] != dot_dot(),
        decreases parts@.len() - i,
    {
        proof {
            reveal_strlit("..");
            assert(".."@ =~= dot_dot());
        }
        if str_eq(parts[i].as_str(), "..") {
            assert(segs[i as int] == dot_dot());
            return true;
        }
        i = i + 1;
    }
    false
}

/// Whether `s` starts with `/`.
pub fn is_rooted_exec(s: &str) -> (r: bool)
    ensures
        r == is_rooted(s@),
{
    proof {
        reveal_strlit("/");
        assert("/"@ =~= seq!['/']);
    }
    let r = starts_with(s, "/");
    assert(r == is_rooted(s@)) by {
        if is_rooted(s@) {
            assert(s@.take(1) =~= seq!['/']);
        }
        if r {
            assert(s@.take(1)[0] == '/');
        }
    }
    r
}

/// Writes a relative path with `/` between its components.
pub fn slash_path(path: &str) -> (r: Result<String, BuildError>)
    ensures
        match r {
            Ok(p) => slash_path_spec(path@) == Some(p@),
            Err(e) => slash_path_spec(path@) is None && e is Invalid,
        },
{
    if is_rooted_exec(path) || has_parent_dir_exec(path) {
        return Err(BuildError::Invalid(concat("path is not portable: ", path)));
    }
    let names = names_of(path);
    Ok(join_segments(&names))
}

/// Normalizes an absolute image destination to its components relative to the root.
pub fn normalize_destination(destination: &str) -> (r: Result<String, BuildError>)
    ensures
        match r {
            Ok(p) => normalize_destination_spec(destination@) == Some(p@),
            Err(e) => normalize_destination_spec(destination@) is None && e is Invalid,
        },
{
    if !is_rooted_exec(destination) {
        return Err(BuildError::Invalid(concat("image destination must be absolute: ", destination)));
    }
    if has_parent_dir_exec(destination) {
        return Err(BuildError::Invalid(concat("image destination cannot contain . or ..: ", destination)));
    }
    let names = names_of(destination);
    Ok(join_segments(&names))
}

/// `base` extended by `relative`, as `PathBuf::push` does.
pub fn path_join_exec(base: &str, relative: &str) -> (r: String)
    ensures
        r@ == path_join(base@, relative@),
{
    proof {
        reveal_strlit("/");
        assert("/"@ =~= seq!['/']);
    }
    if is_rooted_exec(relative) || base.is_empty() {
        return relative.to_owned();
    }
    let ends = crate::text::ends_with(base, "/");
    assert(base@.skip(base@.len() - 1) =~= seq![base@.last()]);
    assert(ends == (base@.last() == '/')) by {
        assert("/"@ =~= seq!['/']);
        if base@.last() == '/' {
            assert(base@.skip(base@.len() - 1) =~= "/"@);
        }
        if ends {
            assert(base@.skip(base@.len() - 1)[0] == "/"@[0]);
        }
    }
    if ends {
        concat(base, relative)
    } else {
        let r = concat(base, "/").concat(relative);
        assert(r@ =~= base@ + seq!['/'] + relative@);
        r
    }
}

/// The image path of `relative` below the normalized destination `base`.
pub fn join_destination(base: &str, relative: &str) -> (r: Result<String, BuildError>)
    ensures
        match r {
            Ok(p) => slash_path_spec(path_join(base@, relative@)) == Some(p@),
            Err(e) => slash_path_spec(path_join(base@, relative@)) is None && e is Invalid,
        },
{
    let joined = path_join_exec(base, relative);
    slash_path(joined.as_str())
}

/// The directory that holds an output path: its parent, or `.` when it has none.
pub fn output_parent(path: &str) -> (r: String)
    ensures
        r@ == output_parent_spec(path@),
{
    proof {
        reveal_strlit(".");
        reveal_strlit("/");
        reveal_strlit("./");
        assert("/"@ =~= seq!['/']);
        assert("./"@ =~= seq!['.', '/']);
        assert("."@ =~= dot());
        lemma_split_all_len(path@, '/');
    }
    let mut names = names_of(path);
    if names.len() == 0 {
        assert("."@ =~= dot());
        return ".".to_owned();
    }
    let ghost all = views(names@);
    names.pop();
    assert(views(names@) =~= all.drop_last());
    let rest = join_segments(&names);
    let parts = split_all_exec(path, '/');
    assert(views(parts@) == split_all(path@, '/'));
    if is_rooted_exec(path) {
        let r = concat("/", rest.as_str());
        assert(r@ =~= seq!['/'] + join_with(all.drop_last(), '/'));
        return r;
    }
    assert(parts@.len() >= 1);
    let lead_dot = str_eq(parts[0].as_str(), ".");
    assert("."@ =~= dot());
    assert(lead_dot == (split_all(path@, '/')[0] == dot()));
    if names.len() == 0 {
        ".".to_owned()
    } else if lead_dot {
        let r = concat("./", rest.as_str());
        assert(r@ =~= seq!['.', '/'] + join_with(all.drop_last(), '/'));
        r
    } else {
        rest
    }
}

/// Whether two paths name the same place, component by component.
pub open spec fn same_path(a: Seq<char>, b: Seq<char>) -> bool {
    is_rooted(a) == is_rooted(b) && path_names(a) == path_names(b)
}

/// Whether `path` lies at or below `dir`, component by component: both rooted alike, and the
/// names of `dir` begin the names of `path`.
pub open spec fn path_within(path: Seq<char>, dir: Seq<char>) -> bool {
    &&& is_rooted(path) == is_rooted(dir)
    &&& path_names(dir).len() <= path_names(path).len()
    &&& path_names(path).take(path_names(dir).len() as int) == path_names(dir)
}

/// Whether an output at `output` would be written inside a source at `source`: at the source
/// itself, or below it when it is a directory. Both are resolved paths.
pub fn output_inside_source(output: &str, source: &str, source_is_dir: bool) -> (r: bool)
    ensures
        r == (same_path(output@, source@) || (source_is_dir && path_within(output@, source@))),
{
    let out = names_of(output);
    let src = names_of(source);
    if is_rooted_exec(output) != is_rooted_exec(source) {
        return false;
    }
    assert(views(out@).len() == out@.len() && views(src@).len() == src@.len());
    if src.len() > out.len() {
        return false;
    }
    if !source_is_dir && src.len() != out.len() {
        return false;
    }
    let mut i: usize = 0;
    while i < src.len()
        invariant
            views(out@) == path_names(output@),
            views(src@) == path_names(source@),
            src@.len() <= out@.len(),
            i <= src@.len(),
            forall|j: int| 0 <= j < i ==> out@[j]@ == src@[j]@,
        decreases src@.len() - i,
    {
        if !str_eq(out[i].as_str(), src[i].as_str()) {
            proof {
                assert(views(out@)[i as int] != views(src@)[i as int]);
                assert(path_names(output@).take(path_names(source@).len() as int)[i as int] == views(out@)[i as int]);
            }
            return false;
        }
        i = i + 1;
    }
    proof {
        assert(views(out@).take(views(src@).len() as int) =~= views(src@));
        if src@.len() == out@.len() {
            assert(views(out@) =~= views(src@));
        }
    }
    true
}

} // verus!
