//! The textual form of affinity terms: a criterion's lower-case name, with
//! `not-` in front of it for an exclusive term.

use vstd::prelude::*;
use vstd::string::*;
use crate::affinity::{Affinity, AffinityPair};
use crate::text::same_text;

verus! {

/// Why a text is no affinity term.
#[derive(Copy, Clone, Debug, PartialEq, Eq, Structural)]
pub enum ParseError {
    /// The text holds a `-` and is not of the form `not-` and a name: what
    /// stands before the first `-` is not `not`, or there is a second `-`.
    InvalidAffinity,
    /// The name is that of no criterion.
    UnknownCriterion,
}

/// The name by which a criterion is written.
pub open spec fn name_of(c: Affinity) -> Seq<char> {
    match c {
        Affinity::Primary => "primary"@,
        Affinity::Nonprimary => "nonprimary"@,
        Affinity::Largest => "largest"@,
        Affinity::Smallest => "smallest"@,
        Affinity::Leftmost => "leftmost"@,
        Affinity::Rightmost => "rightmost"@,
        Affinity::Topmost => "topmost"@,
        Affinity::Bottommost => "bottommost"@,
        Affinity::Portrait => "portrait"@,
        Affinity::Landscape => "landscape"@,
    }
}

/// The criterion that `name` names, if any. Names are matched to the letter.
pub open spec fn criterion_named(name: Seq<char>) -> Option<Affinity> {
    if name == name_of(Affinity::Primary) {
        Some(Affinity::Primary)
    } else if name == name_of(Affinity::Nonprimary) {
        Some(Affinity::Nonprimary)
    } else if name == name_of(Affinity::Largest) {
        Some(Affinity::Largest)
    } else if name == name_of(Affinity::Smallest) {
        Some(Affinity::Smallest)
    } else if name == name_of(Affinity::Leftmost) {
        Some(Affinity::Leftmost)
    } else if name == name_of(Affinity::Rightmost) {
        Some(Affinity::Rightmost)
    } else if name == name_of(Affinity::Topmost) {
        Some(Affinity::Topmost)
    } else if name == name_of(Affinity::Bottommost) {
        Some(Affinity::Bottommost)
    } else if name == name_of(Affinity::Portrait) {
        Some(Affinity::Portrait)
    } else if name == name_of(Affinity::Landscape) {
        Some(Affinity::Landscape)
    } else {
        None
    }
}

/// The place of the first `-` of `s` at or behind `from`, or the length of
/// `s` if there is none.
pub open spec fn dash_from(s: Seq<char>, from: int) -> int
    decreases s.len() - from,
{
    if from >= s.len() {
        s.len() as int
    } else if s[from] == '-' {
        from
    } else {
        dash_from(s, from + 1)
    }
}

/// What the text `s` stands for.
///
/// A text without `-` is the name of a criterion, and is an inclusive term.
/// A text with `-` must be `not`, one `-`, and the name of a criterion: it is
/// an exclusive term. Anything else in front of the first `-`, and any
/// further `-`, makes the text invalid.
pub open spec fn parsed(s: Seq<char>) -> Result<AffinityPair, ParseError> {
    let first = dash_from(s, 0);
    if first == s.len() {
        match criterion_named(s) {
            Some(c) => Ok(AffinityPair(c, true)),
            None => Err(ParseError::UnknownCriterion),
        }
    } else if s.take(first) != "not"@ || dash_from(s, first + 1) != s.len() {
        Err(ParseError::InvalidAffinity)
    } else {
        match criterion_named(s.skip(first + 1)) {
            Some(c) => Ok(AffinityPair(c, false)),
            None => Err(ParseError::UnknownCriterion),
        }
    }
}

/// The text of a term: what [`parsed`] reads back as that term.
pub open spec fn written(term: AffinityPair) -> Seq<char> {
    if term.1 {
        name_of(term.0)
    } else {
        "not-"@ + name_of(term.0)
    }
}

/// The first `-` lies within the text, with no `-` in front of it.
pub proof fn lemma_dash_from(s: Seq<char>, from: int)
    requires
        0 <= from <= s.len(),
    ensures
        from <= dash_from(s, from) <= s.len(),
        dash_from(s, from) < s.len() ==> s[dash_from(s, from)] == '-',
        forall|j: int| from <= j < dash_from(s, from) ==> s[j] != '-',
    decreases s.len() - from,
{
    if from < s.len() && s[from] != '-' {
        lemma_dash_from(s, from + 1);
    }
}

/// A place that is a `-` or the end, with no `-` between `from` and it, is
/// where [`dash_from`] points.
pub proof fn lemma_dash_from_unique(s: Seq<char>, from: int, at: int)
    requires
        0 <= from <= at <= s.len(),
        at < s.len() ==> s[at] == '-',
        forall|j: int| from <= j < at ==> s[j] != '-',
    ensures
        dash_from(s, from) == at,
    decreases at - from,
{
    if from < at {
        lemma_dash_from_unique(s, from + 1, at);
    }
}

/// No name of a criterion holds a `-`, the names differ from one another,
/// and so each names its criterion.
pub proof fn lemma_names(c: Affinity)
    ensures
        forall|j: int| 0 <= j < name_of(c).len() ==> name_of(c)[j] != '-',
        criterion_named(name_of(c)) == Some(c),
{
    reveal_strlit("primary");
    reveal_strlit("nonprimary");
    reveal_strlit("largest");
    reveal_strlit("smallest");
    reveal_strlit("leftmost");
    reveal_strlit("rightmost");
    reveal_strlit("topmost");
    reveal_strlit("bottommost");
    reveal_strlit("portrait");
    reveal_strlit("landscape");
    let p = "primary"@;
    let n = "nonprimary"@;
    let l = "largest"@;
    let s = "smallest"@;
    let e = "leftmost"@;
    let r = "rightmost"@;
    let t = "topmost"@;
    let b = "bottommost"@;
    let o = "portrait"@;
    let a = "landscape"@;
    assert(p[0] == 'p' && l[0] == 'l' && t[0] == 't');
    assert(n[0] == 'n' && b[0] == 'b');
    assert(s[0] == 's' && e[0] == 'l' && o[0] == 'p');
    assert(e[1] == 'e' && o[3] == 't' && s[3] == 'l');
    assert(r[0] == 'r' && a[0] == 'l');
}

/// Every term is read back from its text.
pub proof fn lemma_parsed_written(term: AffinityPair)
    ensures
        parsed(written(term)) == Ok::<AffinityPair, ParseError>(term),
{
    let name = name_of(term.0);
    lemma_names(term.0);
    if term.1 {
        lemma_dash_from_unique(name, 0, name.len() as int);
    } else {
        reveal_strlit("not-");
        reveal_strlit("not");
        let text = written(term);
        assert(text.len() == 4 + name.len());
        assert(text[0] == 'n' && text[1] == 'o' && text[2] == 't' && text[3] == '-');
        lemma_dash_from_unique(text, 0, 3);
        assert(text.take(3) =~= "not"@);
        assert forall|j: int| 4 <= j < text.len() implies text[j] != '-' by {
            assert(text[j] == name[j - 4]);
        }
        lemma_dash_from_unique(text, 4, text.len() as int);
        assert(text.skip(4) =~= name);
    }
}

/// Only the text of a term is read as that term: a text that is accepted is
/// the name of its criterion, with `not-` in front of it for an exclusive
/// term, and nothing else.
pub proof fn lemma_parsed_is_written(s: Seq<char>, term: AffinityPair)
    requires
        parsed(s) == Ok::<AffinityPair, ParseError>(term),
    ensures
        s == written(term),
{
    let first = dash_from(s, 0);
    lemma_dash_from(s, 0);
    if first < s.len() {
        reveal_strlit("not-");
        reveal_strlit("not");
        let name = s.skip(first + 1);
        assert(criterion_named(name) == Some(term.0));
        assert(name == name_of(term.0));
        assert(s.take(first).len() == 3);
        assert forall|j: int| 0 <= j < 3 implies s[j] == "not"@[j] by {
            assert(s.take(first)[j] == s[j]);
        }
        assert(s =~= "not-"@ + name);
    }
}

/// Finds the first `-` at or behind `from`.
fn find_dash(s: &str, from: usize, len: usize) -> (at: usize)
    requires
        from <= len,
        len == s@.len(),
    ensures
        at == dash_from(s@, from as int),
        from <= at <= len,
{
    let mut i: usize = from;
    while i < len && s.get_char(i) != '-'
        invariant
            from <= i <= len,
            len == s@.len(),
            dash_from(s@, from as int) == dash_from(s@, i as int),
        decreases len - i,
    {
        i += 1;
    }
    i
}

/// Looks a criterion up by its name.
pub fn criterion_from_name(name: &str) -> (c: Option<Affinity>)
    ensures
        c == criterion_named(name@),
{
    if same_text(name, "primary") {
        Some(Affinity::Primary)
    } else if same_text(name, "nonprimary") {
        Some(Affinity::Nonprimary)
    } else if same_text(name, "largest") {
        Some(Affinity::Largest)
    } else if same_text(name, "smallest") {
        Some(Affinity::Smallest)
    } else if same_text(name, "leftmost") {
        Some(Affinity::Leftmost)
    } else if same_text(name, "rightmost") {
        Some(Affinity::Rightmost)
    } else if same_text(name, "topmost") {
        Some(Affinity::Topmost)
    } else if same_text(name, "bottommost") {
        Some(Affinity::Bottommost)
    } else if same_text(name, "portrait") {
        Some(Affinity::Portrait)
    } else if same_text(name, "landscape") {
        Some(Affinity::Landscape)
    } else {
        None
    }
}

impl ParseError {
    /// A short description of the error.
    pub fn message(&self) -> (text: String)
        ensures
            text@ == match *self {
                ParseError::InvalidAffinity => "invalid affinity"@,
                ParseError::UnknownCriterion => "unknown affinity"@,
            },
    {
        match self {
            ParseError::InvalidAffinity => String::from_str("invalid affinity"),
            ParseError::UnknownCriterion => String::from_str("unknown affinity"),
        }
    }
}

impl AffinityPair {
    /// Reads a term from its text.
    pub fn parse(s: &str) -> (term: Result<AffinityPair, ParseError>)
        ensures
            term == parsed(s@),
    {
        let len = s.unicode_len();
        let first = find_dash(s, 0, len);
        if first == len {
            return match criterion_from_name(s) {
                Some(c) => Ok(AffinityPair(c, true)),
                None => Err(ParseError::UnknownCriterion),
            };
        }
        let head = s.substring_char(0, first);
        assert(s@.take(first as int) =~= s@.subrange(0, first as int));
        if !same_text(head, "not") {
            return Err(ParseError::InvalidAffinity);
        }
        if find_dash(s, first + 1, len) != len {
            return Err(ParseError::InvalidAffinity);
        }
        assert(s@.skip(first + 1) =~= s@.subrange(first + 1, len as int));
        match criterion_from_name(s.substring_char(first + 1, len)) {
            Some(c) => Ok(AffinityPair(c, false)),
            None => Err(ParseError::UnknownCriterion),
        }
    }
}

impl std::str::FromStr for AffinityPair {
    type Err = ParseError;

    /// Reads a term from its text, as [`AffinityPair::parse`] does.
    fn from_str(s: &str) -> (term: Result<AffinityPair, ParseError>)
        ensures
            term == parsed(s@),
    {
        AffinityPair::parse(s)
    }
}

} // verus!
