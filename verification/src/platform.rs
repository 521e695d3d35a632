//! OCI target platforms in `OS/ARCH[/VARIANT]` notation.
use vstd::prelude::*;
use vstd::string::*;

use crate::text::{concat, join_with, lemma_join_split, lemma_split_join, split_all, split_all_exec, str_eq};

verus! {

/// An invalid OCI platform string.
#[derive(Debug)]
pub struct PlatformParseError {
    /// The rejected platform string.
    pub value: String,
}

impl PlatformParseError {
    /// The rejected platform string.
    pub fn value(&self) -> (r: &str)
        ensures
            r@ == self.value@,
    {
        self.value.as_str()
    }

    /// The error message: the rejected value and the expected form.
    pub fn message(&self) -> (r: String)
        ensures
            r@ == seq!['i', 'n', 'v', 'a', 'l', 'i', 'd', ' ', 'O', 'C', 'I', ' ', 'p', 'l', 'a', 't', 'f', 'o', 'r', 'm', ' ', '"'] + self.value@ + seq!['"', ';', ' ', 'e', 'x', 'p', 'e', 'c', 't', 'e', 'd', ' ', 'O', 'S', '/', 'A', 'R', 'C', 'H', '[', '/', 'V', 'A', 'R', 'I', 'A', 'N', 'T', ']'],
    {
        let head = "invalid OCI platform \"";
        let tail = "\"; expected OS/ARCH[/VARIANT]";
        proof {
            reveal_strlit("invalid OCI platform \"");
            reveal_strlit("\"; expected OS/ARCH[/VARIANT]");
        }
        let r = concat(head, self.value.as_str()).concat(tail);
        assert(r@ =~= seq!['i', 'n', 'v', 'a', 'l', 'i', 'd', ' ', 'O', 'C', 'I', ' ', 'p', 'l', 'a', 't', 'f', 'o', 'r', 'm', ' ', '"'] + self.value@ + seq!['"', ';', ' ', 'e', 'x', 'p', 'e', 'c', 't', 'e', 'd', ' ', 'O', 'S', '/', 'A', 'R', 'C', 'H', '[', '/', 'V', 'A', 'R', 'I', 'A', 'N', 'T', ']']);
        r
    }
}

/// An OCI target platform.
#[derive(Debug, Clone, PartialEq, Eq, Hash)]
pub struct Platform {
    os: String,
    architecture: String,
    variant: Option<String>,
}

/// The abstract value of a platform: OS, architecture and optional variant.
pub struct PlatformView {
    pub os: Seq<char>,
    pub architecture: Seq<char>,
    pub variant: Option<Seq<char>>,
}

impl View for Platform {
    type V = PlatformView;

    closed spec fn view(&self) -> PlatformView {
        PlatformView {
            os: self.os@,
            architecture: self.architecture@,
            variant: match self.variant {
                Some(v) => Some(v@),
                None => None,
            },
        }
    }
}

/// The parts of a platform in the order they are written.
pub open spec fn platform_parts(p: PlatformView) -> Seq<Seq<char>> {
    match p.variant {
        Some(v) => seq![p.os, p.architecture, v],
        None => seq![p.os, p.architecture],
    }
}

/// The textual form `OS/ARCH[/VARIANT]`.
pub open spec fn platform_text(p: PlatformView) -> Seq<char> {
    join_with(platform_parts(p), '/')
}

/// Whether `s` is a well-formed platform: two or three non-empty `/`-separated parts.
pub open spec fn platform_string_valid(s: Seq<char>) -> bool {
    (split_all(s, '/').len() == 2 || split_all(s, '/').len() == 3) && parts_nonempty(split_all(s, '/'))
}

/// Whether every part is non-empty.
pub open spec fn parts_nonempty(parts: Seq<Seq<char>>) -> bool {
    forall|k: int| 0 <= k < parts.len() ==> (#[trigger] parts[k]).len() > 0
}

/// The platform that a well-formed string denotes.
pub open spec fn platform_of(s: Seq<char>) -> PlatformView {
    let parts = split_all(s, '/');
    PlatformView {
        os: parts[0],
        architecture: parts[1],
        variant: if parts.len() == 3 {
            Some(parts[2])
        } else {
            None
        },
    }
}

/// Whether the platform can be written and read back: every part is non-empty and has no `/`.
pub open spec fn platform_well_formed(p: PlatformView) -> bool {
    &&& p.os.len() > 0 && !p.os.contains('/')
    &&& p.architecture.len() > 0 && !p.architecture.contains('/')
    &&& match p.variant {
        Some(v) => v.len() > 0 && !v.contains('/'),
        None => true,
    }
}

/// The OCI architecture name for a Rust target architecture name.
pub open spec fn oci_architecture(arch: Seq<char>, little_endian: bool) -> Seq<char> {
    if arch == seq!['x', '8', '6', '_', '6', '4'] {
        seq!['a', 'm', 'd', '6', '4']
    } else if arch == seq!['x', '8', '6'] {
        seq!['3', '8', '6']
    } else if arch == seq!['a', 'a', 'r', 'c', 'h', '6', '4'] {
        seq!['a', 'r', 'm', '6', '4']
    } else if arch == seq!['p', 'o', 'w', 'e', 'r', 'p', 'c', '6', '4'] {
        if little_endian {
            seq!['p', 'p', 'c', '6', '4', 'l', 'e']
        } else {
            seq!['p', 'p', 'c', '6', '4']
        }
    } else {
        arch
    }
}

impl Platform {
    /// Creates a platform without an architecture variant.
    pub fn new(os: &str, architecture: &str) -> (r: Self)
        ensures
            r@.os == os@,
            r@.architecture == architecture@,
            r@.variant is None,
    {
        Platform { os: os.to_owned(), architecture: architecture.to_owned(), variant: None }
    }

    /// Sets the architecture variant, such as `v7`.
    pub fn with_variant(self, variant: &str) -> (r: Self)
        ensures
            r@.os == self@.os,
            r@.architecture == self@.architecture,
            r@.variant == Some(variant@),
    {
        Platform { os: self.os, architecture: self.architecture, variant: Some(variant.to_owned()) }
    }

    /// Linux on the given Rust target architecture (as in `std::env::consts::ARCH`).
    pub fn linux_for_arch(arch: &str, little_endian: bool) -> (r: Self)
        ensures
            r@.os == seq!['l', 'i', 'n', 'u', 'x'],
            r@.architecture == oci_architecture(arch@, little_endian),
            r@.variant is None,
    {
        proof {
            reveal_strlit("x86_64");
            reveal_strlit("x86");
            reveal_strlit("aarch64");
            reveal_strlit("powerpc64");
            reveal_strlit("amd64");
            reveal_strlit("386");
            reveal_strlit("arm64");
            reveal_strlit("ppc64le");
            reveal_strlit("ppc64");
            reveal_strlit("linux");
            assert("x86_64"@ =~= seq!['x', '8', '6', '_', '6', '4']);
            assert("x86"@ =~= seq!['x', '8', '6']);
            assert("aarch64"@ =~= seq!['a', 'a', 'r', 'c', 'h', '6', '4']);
            assert("powerpc64"@ =~= seq!['p', 'o', 'w', 'e', 'r', 'p', 'c', '6', '4']);
            assert("amd64"@ =~= seq!['a', 'm', 'd', '6', '4']);
            assert("386"@ =~= seq!['3', '8', '6']);
            assert("arm64"@ =~= seq!['a', 'r', 'm', '6', '4']);
            assert("ppc64le"@ =~= seq!['p', 'p', 'c', '6', '4', 'l', 'e']);
            assert("ppc64"@ =~= seq!['p', 'p', 'c', '6', '4']);
            assert("linux"@ =~= seq!['l', 'i', 'n', 'u', 'x']);
        }
        let architecture = if str_eq(arch, "x86_64") {
            "amd64"
        } else if str_eq(arch, "x86") {
            "386"
        } else if str_eq(arch, "aarch64") {
            "arm64"
        } else if str_eq(arch, "powerpc64") {
            if little_endian {
                "ppc64le"
            } else {
                "ppc64"
            }
        } else {
            arch
        };
        Self::new("linux", architecture)
    }

    /// Returns the operating system, such as `linux`.
    pub fn os(&self) -> (r: &str)
        ensures
            r@ == self@.os,
    {
        self.os.as_str()
    }

    /// Returns the architecture, such as `amd64` or `arm64`.
    pub fn architecture(&self) -> (r: &str)
        ensures
            r@ == self@.architecture,
    {
        self.architecture.as_str()
    }

    /// Returns the optional architecture variant, such as `v7`.
    pub fn variant(&self) -> (r: Option<&str>)
        ensures
            match r {
                Some(v) => self@.variant == Some(v@),
                None => self@.variant is None,
            },
    {
        match &self.variant {
            Some(v) => Some(v.as_str()),
            None => None,
        }
    }

    /// Parses `OS/ARCH[/VARIANT]`.
    pub fn parse(value: &str) -> (r: Result<Self, PlatformParseError>)
        ensures
            match r {
                Ok(p) => platform_string_valid(value@) && p@ == platform_of(value@),
                Err(e) => !platform_string_valid(value@) && e.value@ == value@,
            },
    {
        let parts = split_all_exec(value, '/');
        let ghost spec_parts = split_all(value@, '/');
        assert(parts@.len() == spec_parts.len());
        assert forall|k: int| 0 <= k < parts@.len() implies parts@[k]@ == spec_parts[k] by {
            assert(crate::text::views(parts@)[k] == parts@[k]@);
        }
        if !(parts.len() == 2 || parts.len() == 3) {
            return Err(PlatformParseError { value: value.to_owned() });
        }
        let mut k: usize = 0;
        while k < parts.len()
            invariant
                spec_parts == split_all(value@, '/'),
                parts@.len() == spec_parts.len(),
                forall|m: int| 0 <= m < parts@.len() ==> parts@[m]@ == spec_parts[m],
                k <= parts@.len(),
                forall|m: int| 0 <= m < k ==> (#[trigger] spec_parts[m]).len() > 0,
            decreases parts@.len() - k,
        {
            let part = parts[k].as_str();
            if part.is_empty() {
                assert(part@ == parts@[k as int]@);
                assert(spec_parts[k as int].len() == 0);
                assert(!parts_nonempty(spec_parts));
                let e = PlatformParseError { value: value.to_owned() };
                assert(e.value@ == value@);
                return Err(e);
            }
            k = k + 1;
        }
        let platform = Platform::new(parts[0].as_str(), parts[1].as_str());
        if parts.len() == 3 {
            Ok(platform.with_variant(parts[2].as_str()))
        } else {
            Ok(platform)
        }
    }

    /// The textual form `OS/ARCH[/VARIANT]`.
    pub fn to_text(&self) -> (r: String)
        ensures
            r@ == platform_text(self@),
    {
        proof {
            reveal_strlit("/");
            reveal_with_fuel(join_with, 4);
        }
        let a = concat(self.os.as_str(), "/").concat(self.architecture.as_str());
        match &self.variant {
            Some(v) => {
                let r = a.concat("/").concat(v.as_str());
                proof {
                    let parts = platform_parts(self@);
                    assert(parts.drop_first().drop_first() =~= seq![v@]);
                    assert(parts.drop_first() =~= seq![self@.architecture, v@]);
                    assert(join_with(parts.drop_first(), '/') =~= self@.architecture + seq!['/'] + v@);
                    assert(r@ =~= platform_text(self@));
                }
                r
            },
            None => {
                proof {
                    let parts = platform_parts(self@);
                    assert(parts.drop_first() =~= seq![self@.architecture]);
                    assert(a@ =~= platform_text(self@));
                }
                a
            },
        }
    }
}

/// Writing a well-formed platform and parsing the text gives back the same platform.
pub proof fn lemma_platform_text_roundtrip(p: PlatformView)
    requires
        platform_well_formed(p),
    ensures
        platform_string_valid(platform_text(p)),
        platform_of(platform_text(p)) == p,
{
    let parts = platform_parts(p);
    assert forall|k: int| 0 <= k < parts.len() implies !(#[trigger] parts[k]).contains('/') by {
    }
    lemma_split_join(parts, '/');
    assert(split_all(platform_text(p), '/') == parts);
    let q = platform_of(platform_text(p));
    assert(q.os == p.os);
    assert(q.architecture == p.architecture);
    assert(q.variant == p.variant);
}

/// Parsing a valid platform string and writing the result gives back the same string.
pub proof fn lemma_platform_parse_roundtrip(s: Seq<char>)
    requires
        platform_string_valid(s),
    ensures
        platform_text(platform_of(s)) == s,
        platform_well_formed(platform_of(s)),
{
    let parts = split_all(s, '/');
    lemma_join_split(s, '/');
    let p = platform_of(s);
    assert(platform_parts(p) =~= parts);
    assert(parts[0].len() > 0);
    assert(parts[1].len() > 0);
    if parts.len() == 3 {
        assert(parts[2].len() > 0);
    }
}

impl core::str::FromStr for Platform {
    type Err = PlatformParseError;

    fn from_str(value: &str) -> (r: Result<Self, Self::Err>)
        ensures
            match r {
                Ok(p) => platform_string_valid(value@) && p@ == platform_of(value@),
                Err(e) => !platform_string_valid(value@) && e.value@ == value@,
            },
    {
        Platform::parse(value)
    }
}

} // verus!
