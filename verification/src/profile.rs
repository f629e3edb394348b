//! Task modes: named retrieval biases selected by name.

use vstd::prelude::*;
use crate::candidates::edge_reason_spec;
use crate::model::EdgeKind;
use crate::text::{chars_of, contains_seq, has_substring, str_eq, str_to_lowercase, string_from_chars, unicode_lowercase};

verus! {

/// A task mode.
#[derive(Debug, Clone, Copy, PartialEq, Eq, Structural)]
pub enum Mode {
    Default,
    Bugfix,
    Refactor,
    Test,
    Security,
    Architecture,
    Pr,
}

/// The names of the modes, in declaration order.
pub fn mode_names() -> (r: Vec<&'static str>)
    ensures
        r@.len() == 7,
        forall|i: int| 0 <= i < 7 ==> (#[trigger] r@[i])@ == mode_name_spec(mode_at(i)),
{
    vec!["default", "bugfix", "refactor", "test", "security", "architecture", "pr"]
}

/// The `i`-th mode in declaration order.
pub open spec fn mode_at(i: int) -> Mode {
    if i == 0 {
        Mode::Default
    } else if i == 1 {
        Mode::Bugfix
    } else if i == 2 {
        Mode::Refactor
    } else if i == 3 {
        Mode::Test
    } else if i == 4 {
        Mode::Security
    } else if i == 5 {
        Mode::Architecture
    } else {
        Mode::Pr
    }
}

/// The name of a mode.
pub open spec fn mode_name_spec(m: Mode) -> Seq<char> {
    match m {
        Mode::Default => "default"@,
        Mode::Bugfix => "bugfix"@,
        Mode::Refactor => "refactor"@,
        Mode::Test => "test"@,
        Mode::Security => "security"@,
        Mode::Architecture => "architecture"@,
        Mode::Pr => "pr"@,
    }
}

/// The mode a name selects: each mode's own name, and the empty name for
/// the default mode.
pub open spec fn parse_mode_spec(s: Seq<char>) -> Option<Mode> {
    if s == ""@ || s == "default"@ {
        Some(Mode::Default)
    } else if s == "bugfix"@ {
        Some(Mode::Bugfix)
    } else if s == "refactor"@ {
        Some(Mode::Refactor)
    } else if s == "test"@ {
        Some(Mode::Test)
    } else if s == "security"@ {
        Some(Mode::Security)
    } else if s == "architecture"@ {
        Some(Mode::Architecture)
    } else if s == "pr"@ {
        Some(Mode::Pr)
    } else {
        None
    }
}

/// A name that selects no mode.
#[derive(Debug)]
pub struct UnknownMode {
    pub given: String,
}

/// Text of an unknown-mode error.
pub open spec fn unknown_mode_message(given: Seq<char>) -> Seq<char> {
    "unknown mode '"@ + given + "' (expected one of: default|bugfix|refactor|test|security|architecture|pr)"@
}

impl UnknownMode {
    /// The error's message.
    pub fn message(&self) -> (r: String)
        ensures
            r@ == unknown_mode_message(self.given@),
    {
        let mut v = chars_of("unknown mode '");
        let mut g = chars_of(self.given.as_str());
        v.append(&mut g);
        let mut t = chars_of(
            "' (expected one of: default|bugfix|refactor|test|security|architecture|pr)",
        );
        v.append(&mut t);
        string_from_chars(&v)
    }
}

impl Mode {
    /// The mode named `s`; any other name is an error.
    pub fn parse(s: &str) -> (r: Result<Mode, UnknownMode>)
        ensures
            match parse_mode_spec(s@) {
                Some(m) => r == Ok::<Mode, UnknownMode>(m),
                None => r matches Err(e) && e.given@ == s@,
            },
    {
        if str_eq(s, "") || str_eq(s, "default") {
            Ok(Mode::Default)
        } else if str_eq(s, "bugfix") {
            Ok(Mode::Bugfix)
        } else if str_eq(s, "refactor") {
            Ok(Mode::Refactor)
        } else if str_eq(s, "test") {
            Ok(Mode::Test)
        } else if str_eq(s, "security") {
            Ok(Mode::Security)
        } else if str_eq(s, "architecture") {
            Ok(Mode::Architecture)
        } else if str_eq(s, "pr") {
            Ok(Mode::Pr)
        } else {
            Err(UnknownMode { given: s.to_string() })
        }
    }

    /// The mode's name.
    pub fn name(&self) -> (r: &'static str)
        ensures
            r@ == mode_name_spec(*self),
    {
        match self {
            Mode::Default => "default",
            Mode::Bugfix => "bugfix",
            Mode::Refactor => "refactor",
            Mode::Test => "test",
            Mode::Security => "security",
            Mode::Architecture => "architecture",
            Mode::Pr => "pr",
        }
    }
}

/// Parsing a mode's name gives the mode back.
pub proof fn lemma_mode_name_roundtrip(m: Mode)
    ensures
        parse_mode_spec(mode_name_spec(m)) == Some(m),
{
    reveal_strlit("");
    reveal_strlit("default");
    reveal_strlit("bugfix");
    reveal_strlit("refactor");
    reveal_strlit("test");
    reveal_strlit("security");
    reveal_strlit("architecture");
    reveal_strlit("pr");
    assert("security"@[0] != "refactor"@[0]);
    assert(""@.len() == 0);
    match m {
        Mode::Default => {
            assert(parse_mode_spec(mode_name_spec(m)) == Some(m));
        },
        Mode::Bugfix => {
            assert("bugfix"@.len() == 6);
            assert(parse_mode_spec(mode_name_spec(m)) == Some(m));
        },
        Mode::Refactor => {
            assert("refactor"@.len() == 8);
            assert(parse_mode_spec(mode_name_spec(m)) == Some(m));
        },
        Mode::Test => {
            assert("test"@.len() == 4);
            assert(parse_mode_spec(mode_name_spec(m)) == Some(m));
        },
        Mode::Security => {
            assert("security"@ != "refactor"@);
            assert(parse_mode_spec(mode_name_spec(m)) == Some(m));
        },
        Mode::Architecture => {
            assert("architecture"@.len() == 12);
            assert(parse_mode_spec(mode_name_spec(m)) == Some(m));
        },
        Mode::Pr => {
            assert("pr"@.len() == 2);
            assert(parse_mode_spec(mode_name_spec(m)) == Some(m));
        },
    }
}

/// Which prior of a mode weighs an inclusion reason.
#[derive(Debug, Clone, Copy, PartialEq, Eq, Structural)]
pub enum PriorClass {
    /// `anchor`
    Anchor,
    /// `calls`, `called_by`
    Calls,
    /// `tested_by`
    TestedBy,
    /// `inherits`, `imports`, `imported_by`
    Structure,
    /// `doc_mention`
    Doc,
    /// `search_hit` and anything else
    Other,
}

/// The prior class of an inclusion reason.
pub open spec fn prior_class_spec(reason: Seq<char>) -> PriorClass {
    if reason == "anchor"@ {
        PriorClass::Anchor
    } else if reason == "calls"@ || reason == "called_by"@ {
        PriorClass::Calls
    } else if reason == "tested_by"@ {
        PriorClass::TestedBy
    } else if reason == "inherits"@ || reason == "imports"@ || reason == "imported_by"@ {
        PriorClass::Structure
    } else if reason == "doc_mention"@ {
        PriorClass::Doc
    } else {
        PriorClass::Other
    }
}

/// The prior class of an inclusion reason (see [`prior_class_spec`]).
pub fn prior_class(reason: &str) -> (r: PriorClass)
    ensures
        r == prior_class_spec(reason@),
{
    if str_eq(reason, "anchor") {
        PriorClass::Anchor
    } else if str_eq(reason, "calls") || str_eq(reason, "called_by") {
        PriorClass::Calls
    } else if str_eq(reason, "tested_by") {
        PriorClass::TestedBy
    } else if str_eq(reason, "inherits") || str_eq(reason, "imports") || str_eq(reason, "imported_by") {
        PriorClass::Structure
    } else if str_eq(reason, "doc_mention") {
        PriorClass::Doc
    } else {
        PriorClass::Other
    }
}

/// Keywords whose presence in a path or symbol earns a bonus in security
/// mode.
pub open spec fn security_keywords_spec() -> Seq<Seq<char>> {
    seq![
        "auth"@,
        "token"@,
        "secret"@,
        "session"@,
        "password"@,
        "permission"@,
        "crypt"@,
        "valid"@,
        "sanitiz"@,
        "credential"@,
    ]
}

/// The keywords a mode favours: the security keywords in security mode,
/// none otherwise.
pub open spec fn mode_keywords_spec(m: Mode) -> Seq<Seq<char>> {
    if m == Mode::Security {
        security_keywords_spec()
    } else {
        Seq::empty()
    }
}

/// Texts of static strings.
pub open spec fn statics_view(v: Seq<&'static str>) -> Seq<Seq<char>> {
    v.map_values(|s: &'static str| s@)
}

impl Mode {
    /// Whether the mode anchors the files changed since the last index
    /// (bugfix and pr modes).
    pub fn anchors_dirty(&self) -> (r: bool)
        ensures
            r == (*self == Mode::Bugfix || *self == Mode::Pr),
    {
        match self {
            Mode::Bugfix | Mode::Pr => true,
            _ => false,
        }
    }

    /// The keywords the mode favours (see [`mode_keywords_spec`]).
    pub fn keywords(&self) -> (r: Vec<&'static str>)
        ensures
            statics_view(r@) == mode_keywords_spec(*self),
    {
        match self {
            Mode::Security => {
                let v = vec![
                    "auth",
                    "token",
                    "secret",
                    "session",
                    "password",
                    "permission",
                    "crypt",
                    "valid",
                    "sanitiz",
                    "credential",
                ];
                proof {
                    assert(statics_view(v@) =~= security_keywords_spec());
                }
                v
            },
            _ => {
                let v: Vec<&'static str> = Vec::new();
                proof {
                    assert(statics_view(v@) =~= Seq::<Seq<char>>::empty());
                }
                v
            },
        }
    }
}

/// A keyword occurs in the lowercased path or the lowercased symbol.
pub open spec fn keyword_matches(k: Seq<char>, path: Seq<char>, symbol: Option<Seq<char>>) -> bool {
    has_substring(unicode_lowercase(path), k) || (symbol matches Some(s) && has_substring(
        unicode_lowercase(s),
        k,
    ))
}

/// Index of the first keyword that matches, if any.
pub open spec fn keyword_hit_spec(keywords: Seq<Seq<char>>, path: Seq<char>, symbol: Option<Seq<char>>) -> Option<int>
    decreases keywords.len(),
{
    if keywords.len() == 0 {
        None
    } else {
        match keyword_hit_spec(keywords.drop_last(), path, symbol) {
            Some(k) => Some(k),
            None => if keyword_matches(keywords.last(), path, symbol) {
                Some(keywords.len() - 1)
            } else {
                None
            },
        }
    }
}

proof fn lemma_keyword_hit_extend(
    keywords: Seq<Seq<char>>,
    n: int,
    k: int,
    path: Seq<char>,
    symbol: Option<Seq<char>>,
)
    requires
        0 <= n <= keywords.len(),
        keyword_hit_spec(keywords.take(n), path, symbol) == Some(k),
    ensures
        keyword_hit_spec(keywords, path, symbol) == Some(k),
    decreases keywords.len() - n,
{
    if n < keywords.len() {
        assert(keywords.take(n + 1).drop_last() =~= keywords.take(n));
        lemma_keyword_hit_extend(keywords, n + 1, k, path, symbol);
    } else {
        assert(keywords.take(n) =~= keywords);
    }
}

/// The first keyword found in the lowercased path or symbol, if any.
pub fn keyword_hit(keywords: &Vec<&'static str>, path: &str, symbol: Option<&str>) -> (r: Option<&'static str>)
    ensures
        match keyword_hit_spec(statics_view(keywords@), path@, match symbol {
            Some(s) => Some(s@),
            None => None,
        }) {
            Some(k) => r == Some(keywords@[k]),
            None => r is None,
        },
{
    let ghost kv = statics_view(keywords@);
    let ghost sv: Option<Seq<char>> = match symbol {
        Some(s) => Some(s@),
        None => None,
    };
    if keywords.len() == 0 {
        return None;
    }
    let lp = chars_of(str_to_lowercase(path).as_str());
    let ls: Option<Vec<char>> = match symbol {
        Some(s) => Some(chars_of(str_to_lowercase(s).as_str())),
        None => None,
    };
    let mut i: usize = 0;
    while i < keywords.len()
        invariant
            i <= keywords.len(),
            kv == statics_view(keywords@),
            lp@ == unicode_lowercase(path@),
            match ls {
                Some(v) => sv matches Some(s) && v@ == unicode_lowercase(s),
                None => sv is None,
            },
            keyword_hit_spec(kv.take(i as int), path@, sv) is None,
            sv == match symbol {
                Some(s) => Some(s@),
                None => None::<Seq<char>>,
            },
        decreases keywords.len() - i,
    {
        proof {
            assert(kv.take(i + 1).drop_last() =~= kv.take(i as int));
            assert(kv.take(i + 1).last() == keywords@[i as int]@);
        }
        let k = chars_of(keywords[i]);
        let in_symbol = match &ls {
            Some(v) => contains_seq(v, &k),
            None => false,
        };
        if contains_seq(&lp, &k) || in_symbol {
            proof {
                assert(kv[i as int] == k@);
                assert(keyword_matches(kv[i as int], path@, sv));
                assert(keyword_hit_spec(kv.take(i + 1), path@, sv) == Some(i as int));
                lemma_keyword_hit_extend(kv, (i + 1) as int, i as int, path@, sv);
            }
            return Some(keywords[i]);
        }
        i = i + 1;
    }
    proof {
        assert(kv.take(keywords.len() as int) =~= kv);
    }
    None
}

/// The prior class that weighs reaching a node over an edge of `kind`:
/// calls weigh as calls, tests as tests, imports, inheritance and
/// implementation as structure, document mentions as documentation.
pub open spec fn edge_prior_class(kind: EdgeKind) -> PriorClass {
    match kind {
        EdgeKind::Calls => PriorClass::Calls,
        EdgeKind::TestedBy => PriorClass::TestedBy,
        EdgeKind::Imports | EdgeKind::Inherits | EdgeKind::Implements => PriorClass::Structure,
        EdgeKind::MentionsDoc => PriorClass::Doc,
        EdgeKind::Supersedes => PriorClass::Other,
    }
}

/// Every reason the walk reports for an edge, in either direction, is
/// weighed by that edge's prior class; an anchor by the anchor prior, and
/// a lexical hit by the prior of everything else.
pub proof fn lemma_reason_priors(kind: EdgeKind, reverse: bool)
    ensures
        prior_class_spec(edge_reason_spec(kind, reverse)) == edge_prior_class(kind),
        prior_class_spec("anchor"@) == PriorClass::Anchor,
        prior_class_spec("search_hit"@) == PriorClass::Other,
{
    reveal_strlit("anchor");
    reveal_strlit("calls");
    reveal_strlit("called_by");
    reveal_strlit("tested_by");
    reveal_strlit("inherits");
    reveal_strlit("imports");
    reveal_strlit("imported_by");
    reveal_strlit("doc_mention");
    reveal_strlit("supersedes");
    reveal_strlit("search_hit");
    assert("anchor"@.len() == 6 && "calls"@.len() == 5 && "called_by"@.len() == 9 && "tested_by"@.len()
        == 9 && "inherits"@.len() == 8 && "imports"@.len() == 7 && "imported_by"@.len() == 11
        && "doc_mention"@.len() == 11 && "supersedes"@.len() == 10 && "search_hit"@.len() == 10);
    assert("called_by"@[0] != "tested_by"@[0]);
    assert("imported_by"@[0] != "doc_mention"@[0]);
    assert("supersedes"@[1] != "search_hit"@[1]);
}

} // verus!
