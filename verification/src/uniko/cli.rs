//! The arguments of the `uniko` commands and the artifacts they pack.
use std::str::FromStr;
use vstd::prelude::*;
use vstd::string::*;

use crate::text::{chars_of, contains_char, split_all, split_all_exec, split_once, split_once_spec, substring, views};

verus! {

/// Inspect a binary or image.
#[derive(Debug)]
pub struct InspectCommand {
    /// Binary path or image reference.
    pub input: String,
    /// Print JSON.
    pub json: bool,
}

/// Pack one or more existing binaries into an image.
#[derive(Debug)]
pub struct PackCommand {
    pub args: PackArgs,
}

/// Build using a supported build system, then pack.
#[derive(Debug)]
pub struct BuildCommand {
    pub args: PackArgs,
    /// Build system to use; inferred from the current directory when `Auto`.
    pub build_system: BuildPreset,
}

/// What to pack, for which platforms, and where to send it.
#[derive(Debug)]
pub struct PackArgs {
    /// Artifacts to include.
    pub artifacts: Vec<Artifact>,
    /// Output platforms; inferred when empty.
    pub platform: Vec<String>,
    /// Image tag or reference.
    pub tag: Option<String>,
    /// Push after packing.
    pub push: bool,
}

/// A file to pack: `[PLATFORMS=]PATH:DEST`.
#[derive(Debug)]
pub struct Artifact {
    pub path: String,
    pub dest: String,
    pub platforms: Option<Vec<String>>,
}

/// A supported build system.
#[derive(Debug, Clone, Copy, PartialEq, Eq, Structural)]
pub enum BuildPreset {
    Auto,
    Cargo,
    Go,
    Zig,
}

impl Default for BuildPreset {
    fn default() -> (r: Self)
        ensures
            r == BuildPreset::Auto,
    {
        BuildPreset::Auto
    }
}

/// Whether `c` is white space, as `char::is_whitespace` decides: the Unicode `White_Space`
/// characters.
pub open spec fn is_space(c: char) -> bool {
    let n = c as u32;
    ||| 9 <= n <= 13
    ||| n == 32
    ||| n == 0x85
    ||| n == 0xA0
    ||| n == 0x1680
    ||| 0x2000 <= n <= 0x200A
    ||| n == 0x2028
    ||| n == 0x2029
    ||| n == 0x202F
    ||| n == 0x205F
    ||| n == 0x3000
}

/// `s` without its leading white space.
pub open spec fn trim_start(s: Seq<char>) -> Seq<char>
    decreases s.len(),
{
    if s.len() > 0 && is_space(s[0]) {
        trim_start(s.drop_first())
    } else {
        s
    }
}

/// `s` without its trailing white space.
pub open spec fn trim_end(s: Seq<char>) -> Seq<char>
    decreases s.len(),
{
    if s.len() > 0 && is_space(s.last()) {
        trim_end(s.drop_last())
    } else {
        s
    }
}

/// `s` without leading and trailing white space, as `str::trim` gives it.
pub open spec fn trim(s: Seq<char>) -> Seq<char> {
    trim_end(trim_start(s))
}

fn space(c: char) -> (r: bool)
    ensures
        r == is_space(c),
{
    let n = c as u32;
    (9 <= n && n <= 13) || n == 32 || n == 0x85 || n == 0xA0 || n == 0x1680 || (0x2000 <= n && n <= 0x200A)
        || n == 0x2028 || n == 0x2029 || n == 0x202F || n == 0x205F || n == 0x3000
}

/// `s` without leading and trailing white space.
pub fn trimmed(s: &str) -> (r: String)
    ensures
        r@ == trim(s@),
{
    let v = chars_of(s);
    let n = v.len();
    let mut a: usize = 0;
    assert(s@.skip(0) =~= s@);
    while a < n && space(v[a])
        invariant
            v@ == s@,
            n == v@.len(),
            a <= n,
            trim_start(s@) == trim_start(s@.skip(a as int)),
        decreases n - a,
    {
        assert(s@.skip(a as int).drop_first() =~= s@.skip(a + 1));
        a = a + 1;
    }
    let ghost t = s@.skip(a as int);
    assert(trim_start(t) == t);
    let mut b: usize = n;
    assert(t.take(t.len() as int) =~= t);
    while b > a && space(v[b - 1])
        invariant
            v@ == s@,
            n == v@.len(),
            a <= b <= n,
            t == s@.skip(a as int),
            trim_end(t) == trim_end(t.take(b - a)),
        decreases b,
    {
        assert(t.take(b - a).drop_last() =~= t.take(b - a - 1));
        assert(t.take(b - a).last() == v@[b - 1]);
        b = b - 1;
    }
    let r = substring(s, a, b);
    assert(r@ =~= t.take(b - a));
    r
}

/// Whether a name is not empty.
pub open spec fn nonempty() -> spec_fn(Seq<char>) -> bool {
    |p: Seq<char>| p.len() > 0
}

/// The platforms of an artifact's platform list: the comma-separated names, trimmed, empty
/// ones left out.
pub open spec fn platform_list(lhs: Seq<char>) -> Seq<Seq<char>> {
    split_all(lhs, ',').map_values(|p: Seq<char>| trim(p)).filter(nonempty())
}

/// What parsing an artifact gives: its platforms, path and destination, or the error message.
pub open spec fn artifact_spec(input: Seq<char>) -> Result<(Option<Seq<Seq<char>>>, Seq<char>, Seq<char>), Seq<char>> {
    let head: Result<(Option<Seq<Seq<char>>>, Seq<char>), Seq<char>> = match split_once_spec(input, '=') {
        Some((lhs, rhs)) => if lhs.contains('/') {
            if platform_list(lhs).len() == 0 {
                Err("artifact platform list cannot be empty"@)
            } else {
                Ok((Some(platform_list(lhs)), rhs))
            }
        } else {
            Ok((None, input))
        },
        None => Ok((None, input)),
    };
    match head {
        Err(m) => Err(m),
        Ok((platforms, rest)) => match split_once_spec(rest, ':') {
            None => Err("artifact must be in the form <path>:<dest>"@),
            Some((path, dest)) => if path.len() == 0 {
                Err("artifact path cannot be empty"@)
            } else if dest.len() == 0 {
                Err("artifact destination cannot be empty"@)
            } else {
                Ok((platforms, path, dest))
            },
        },
    }
}

pub open spec fn opt_views(o: Option<Vec<String>>) -> Option<Seq<Seq<char>>> {
    match o {
        Some(v) => Some(views(v@)),
        None => None,
    }
}

fn platforms_of(lhs: &str) -> (r: Vec<String>)
    ensures
        views(r@) == platform_list(lhs@),
{
    let parts = split_all_exec(lhs, ',');
    let ghost ps = split_all(lhs@, ',');
    let ghost trimmed_all = ps.map_values(|p: Seq<char>| trim(p));
    let mut out: Vec<String> = Vec::new();
    let mut i: usize = 0;
    assert(trimmed_all.take(0) =~= Seq::<Seq<char>>::empty());
    proof {
        reveal(Seq::filter);
    }
    while i < parts.len()
        invariant
            views(parts@) == ps,
            trimmed_all == ps.map_values(|p: Seq<char>| trim(p)),
            i <= parts@.len(),
            views(out@) == trimmed_all.take(i as int).filter(nonempty()),
        decreases parts@.len() - i,
    {
        let t = trimmed(parts[i].as_str());
        proof {
            assert(ps[i as int] == parts@[i as int]@);
            assert(trimmed_all[i as int] == t@);
            assert(trimmed_all.take(i + 1).drop_last() =~= trimmed_all.take(i as int));
            assert(trimmed_all.take(i + 1).last() == t@);
        }
        proof {
            reveal(Seq::filter);
            let sub = trimmed_all.take(i + 1);
            assert(sub.filter(nonempty()) == if nonempty()(sub.last()) {
                sub.drop_last().filter(nonempty()).push(sub.last())
            } else {
                sub.drop_last().filter(nonempty())
            });
        }
        if t.as_str().is_empty() {
        } else {
            let ghost before = views(out@);
            out.push(t);
            assert(views(out@) =~= before.push(t@));
        }
        i = i + 1;
    }
    assert(trimmed_all.take(i as int) =~= trimmed_all);
    out
}

impl Artifact {
    /// Parses `[PLATFORMS=]PATH:DEST`: a part before `=` that holds a `/` is a comma-separated
    /// platform list, and the rest is split at its first `:`.
    pub fn parse(input: &str) -> (r: Result<Artifact, String>)
        ensures
            match artifact_spec(input@) {
                Ok((platforms, path, dest)) => r matches Ok(a) && opt_views(a.platforms) == platforms && a.path@ == path
                    && a.dest@ == dest,
                Err(m) => r matches Err(e) && e@ == m,
            },
    {
        proof {
            reveal_strlit("artifact platform list cannot be empty");
            reveal_strlit("artifact must be in the form <path>:<dest>");
            reveal_strlit("artifact path cannot be empty");
            reveal_strlit("artifact destination cannot be empty");
        }
        let (platforms, rest) = match split_once(input, '=') {
            Some((lhs, rhs)) => {
                if contains_char(lhs.as_str(), '/') {
                    let ps = platforms_of(lhs.as_str());
                    if ps.len() == 0 {
                        return Err("artifact platform list cannot be empty".to_owned());
                    }
                    (Some(ps), rhs)
                } else {
                    (None, input.to_owned())
                }
            },
            None => (None, input.to_owned()),
        };
        let (path, dest) = match split_once(rest.as_str(), ':') {
            Some(parts) => parts,
            None => {
                return Err("artifact must be in the form <path>:<dest>".to_owned());
            },
        };
        if path.as_str().is_empty() {
            return Err("artifact path cannot be empty".to_owned());
        }
        if dest.as_str().is_empty() {
            return Err("artifact destination cannot be empty".to_owned());
        }
        Ok(Artifact { path, dest, platforms })
    }
}

impl FromStr for Artifact {
    type Err = String;

    fn from_str(input: &str) -> (r: Result<Self, Self::Err>)
        ensures
            match artifact_spec(input@) {
                Ok((platforms, path, dest)) => r matches Ok(a) && opt_views(a.platforms) == platforms && a.path@ == path
                    && a.dest@ == dest,
                Err(m) => r matches Err(e) && e@ == m,
            },
    {
        Artifact::parse(input)
    }
}

} // verus!
