//! Matching dependency names against the search box of the viewer.

use regex::Regex;
use vstd::prelude::*;

use crate::text::{push_str, trim, trim_ws};

verus! {

#[verifier::external_type_specification]
#[verifier::external_body]
pub struct ExRegex(Regex);

/// The characters that have a meaning in a pattern.
pub open spec fn is_meta_character(c: char) -> bool {
    c == '\\' || c == '.' || c == '+' || c == '*' || c == '?' || c == '(' || c == ')' || c == '|' || c == '['
        || c == ']' || c == '{' || c == '}' || c == '^' || c == '$' || c == '#' || c == '&' || c == '-' || c
        == '~'
}

/// The pattern that matches the text `s` literally: each character, with a
/// backslash before each character that has a meaning in a pattern.
pub open spec fn regex_escaped(s: Seq<char>) -> Seq<char>
    decreases s.len(),
{
    if s.len() == 0 {
        Seq::empty()
    } else {
        regex_escaped(s.drop_last()) + if is_meta_character(s.last()) {
            seq!['\\', s.last()]
        } else {
            seq![s.last()]
        }
    }
}

/// Whether `regex::Regex::new` accepts the pattern.
pub uninterp spec fn pattern_compiles(pattern: Seq<char>) -> bool;

/// Whether the pattern matches somewhere in the haystack.
pub uninterp spec fn pattern_matches(pattern: Seq<char>, hay: Seq<char>) -> bool;

/// The byte range of the first match of the pattern in the haystack, if any.
pub uninterp spec fn pattern_find(pattern: Seq<char>, hay: Seq<char>) -> Option<(usize, usize)>;

/// A regular expression together with the pattern it was compiled from.
pub struct CompiledRegex {
    source: String,
    regex: Regex,
}

impl View for CompiledRegex {
    type V = Seq<char>;

    closed spec fn view(&self) -> Seq<char> {
        self.source@
    }
}

/// `regex::escape`: the pattern that matches the text literally, each
/// character that has a meaning in a pattern preceded by a backslash.
#[verifier::external_body]
fn escape(text: &str) -> (r: String)
    ensures
        r@ == regex_escaped(text@),
{
    regex::escape(text)
}

/// `regex::Regex::new`: the compiled pattern, or none when the pattern is
/// invalid or would exceed the default size limit. Which patterns compile is
/// left unstated.
#[verifier::external_body]
fn compile(source: String) -> (r: Option<CompiledRegex>)
    ensures
        match r {
            Some(c) => c@ == source@ && pattern_compiles(source@),
            None => !pattern_compiles(source@),
        },
{
    match Regex::new(&source) {
        Ok(regex) => Some(CompiledRegex { source, regex }),
        Err(_) => None,
    }
}

/// `regex::Regex::is_match`: whether there is a match anywhere in the
/// haystack. What matches is left unstated.
#[verifier::external_body]
fn regex_is_match(c: &CompiledRegex, hay: &str) -> (r: bool)
    ensures
        r == pattern_matches(c@, hay@),
{
    c.regex.is_match(hay)
}

/// `regex::Regex::find`: the byte range of the first match, which exists
/// exactly when there is a match; a range of the haystack. Which range is
/// left unstated.
#[verifier::external_body]
fn regex_find(c: &CompiledRegex, hay: &str) -> (r: Option<(usize, usize)>)
    ensures
        r == pattern_find(c@, hay@),
        r is Some <==> pattern_matches(c@, hay@),
        r matches Some((start, end)) ==> start <= end <= hay.len(),
{
    match c.regex.find(hay) {
        Some(m) => Some((m.start(), m.end())),
        None => None,
    }
}

/// Search kind.
#[derive(Debug, Clone, Copy, PartialEq, Eq, Structural)]
pub enum SearchKind {
    /// Compare raw text.
    Text,
    /// Use regex matching.
    Regex,
}

/// Options for configuring search behavior.
#[derive(Debug, Clone, Copy)]
pub struct SearchOptions {
    /// The type of search to perform (text or regex).
    pub kind: SearchKind,
    /// If true, only match complete words.
    pub whole_word: bool,
    /// If true, perform case-sensitive matching.
    pub case_sensitive: bool,
}

impl SearchOptions {
    /// Text search, anywhere in a word, ignoring case.
    pub fn new() -> (r: Self)
        ensures
            r.kind == SearchKind::Text,
            !r.whole_word,
            !r.case_sensitive,
    {
        Self { kind: SearchKind::Text, whole_word: false, case_sensitive: false }
    }
}

impl Default for SearchOptions {
    fn default() -> (r: Self)
        ensures
            r.kind == SearchKind::Text,
            !r.whole_word,
            !r.case_sensitive,
    {
        Self::new()
    }
}

/// The regular expression that a search for `pat` with `options` uses: case
/// ignored unless asked for, word boundaries around it for whole words, and
/// the text escaped unless it is a regular expression itself.
pub open spec fn search_regex(options: SearchOptions, pat: Seq<char>) -> Seq<char> {
    let case = if options.case_sensitive {
        Seq::empty()
    } else {
        "(?i)"@
    };
    let boundary = if options.whole_word {
        "\\b"@
    } else {
        Seq::empty()
    };
    let body = if options.kind == SearchKind::Regex {
        pat
    } else {
        regex_escaped(pat)
    };
    case + boundary + body + boundary
}

/// Matches dependency names against a search pattern with its options.
pub struct Searcher {
    pub pattern: String,
    pub regex: Option<CompiledRegex>,
}

impl Searcher {
    /// Whether the searcher accepts a name: every name for an empty pattern
    /// and for a pattern that does not compile.
    pub open spec fn accepts(&self, hay: Seq<char>) -> bool {
        self.pattern@.len() == 0 || match self.regex {
            Some(c) => pattern_matches(c@, hay),
            None => true,
        }
    }

    /// Whether the packages list shows a name: every name for an empty
    /// pattern, none for a pattern that does not compile.
    pub open spec fn shows(&self, hay: Seq<char>) -> bool {
        self.pattern@.len() == 0 || match self.regex {
            Some(c) => pattern_matches(c@, hay),
            None => false,
        }
    }

    /// The searcher for the trimmed pattern; without a regular expression when
    /// the pattern is empty or does not compile.
    pub fn new(options: &SearchOptions, pattern: &str) -> (r: Self)
        ensures
            r.pattern@ == trim_ws(pattern@),
            r.pattern@.len() == 0 ==> r.regex is None,
            r.pattern@.len() > 0 ==> match r.regex {
                Some(c) => c@ == search_regex(*options, r.pattern@) && pattern_compiles(c@),
                None => !pattern_compiles(search_regex(*options, r.pattern@)),
            },
    {
        let pat = trim(pattern);
        let regex = if pat.as_str().is_empty() {
            None
        } else {
            let mut regex_pattern = String::new();
            if !options.case_sensitive {
                push_str(&mut regex_pattern, "(?i)");
            }
            if options.whole_word {
                push_str(&mut regex_pattern, "\\b");
            }
            if options.kind == SearchKind::Regex {
                push_str(&mut regex_pattern, pat.as_str());
            } else {
                let escaped = escape(pat.as_str());
                push_str(&mut regex_pattern, escaped.as_str());
            }
            if options.whole_word {
                push_str(&mut regex_pattern, "\\b");
            }
            proof {
                assert(regex_pattern@ =~= search_regex(*options, pat@));
            }
            compile(regex_pattern)
        };
        Self { pattern: pat, regex }
    }

    /// Whether the name matches: every name does for an empty pattern and for
    /// a pattern that does not compile.
    pub fn is_match(&self, hay: &str) -> (r: bool)
        ensures
            r == self.accepts(hay@),
    {
        if self.pattern.as_str().is_empty() {
            return true;
        }
        match &self.regex {
            Some(r) => regex_is_match(r, hay),
            None => true,
        }
    }

    /// Whether the packages list shows the name: every name does for an
    /// empty pattern, none for a pattern that does not compile.
    pub fn is_shown(&self, hay: &str) -> (r: bool)
        ensures
            r == self.shows(hay@),
    {
        if self.pattern.as_str().is_empty() {
            return true;
        }
        match &self.regex {
            Some(r) => regex_is_match(r, hay),
            None => false,
        }
    }

    /// Whether the pattern is empty or compiles.
    pub fn is_valid(&self) -> (r: bool)
        ensures
            r == (self.pattern@.len() == 0 || self.regex is Some),
    {
        if self.pattern.as_str().is_empty() {
            return true;
        }
        self.regex.is_some()
    }

    /// The byte range of the first match in the name, if the pattern is not
    /// empty, compiles and matches.
    pub fn match_range(&self, hay: &str) -> (r: Option<(usize, usize)>)
        ensures
            r == if self.pattern@.len() == 0 {
                None
            } else {
                match self.regex {
                    Some(c) => pattern_find(c@, hay@),
                    None => None,
                }
            },
            r matches Some((start, end)) ==> start <= end <= hay.len(),
    {
        if self.pattern.as_str().is_empty() {
            return None;
        }
        match &self.regex {
            Some(r) => regex_find(r, hay),
            None => None,
        }
    }
}

/// The pattern a search compiles: the case flag `(?i)` first unless the
/// search is case sensitive; then, for a whole-word search, a word boundary
/// `\b` before the searched text and another after it; the searched text in
/// between, as typed for a regex search and escaped for a text search.
pub proof fn lemma_search_regex_shape(options: SearchOptions, pat: Seq<char>)
    ensures
        ({
            let r = search_regex(options, pat);
            let c: int = if options.case_sensitive {
                0
            } else {
                4
            };
            let w: int = if options.whole_word {
                2
            } else {
                0
            };
            let text = if options.kind == SearchKind::Regex {
                pat
            } else {
                regex_escaped(pat)
            };
            &&& r.len() == c + w + text.len() + w
            &&& !options.case_sensitive ==> r.take(4) == seq!['(', '?', 'i', ')']
            &&& options.whole_word ==> r.subrange(c, c + 2) == seq!['\\', 'b'] && r.subrange(
                r.len() - 2,
                r.len() as int,
            ) == seq!['\\', 'b']
            &&& r.subrange(c + w, r.len() - w) == text
        }),
{
    reveal_strlit("(?i)");
    reveal_strlit("\\b");
    let r = search_regex(options, pat);
    let c: int = if options.case_sensitive {
        0
    } else {
        4
    };
    let w: int = if options.whole_word {
        2
    } else {
        0
    };
    let text = if options.kind == SearchKind::Regex {
        pat
    } else {
        regex_escaped(pat)
    };
    let case = if options.case_sensitive {
        Seq::empty()
    } else {
        "(?i)"@
    };
    let boundary = if options.whole_word {
        "\\b"@
    } else {
        Seq::empty()
    };
    assert(r == case + boundary + text + boundary);
    assert(case.len() == c);
    assert(boundary.len() == w);
    if !options.case_sensitive {
        assert(r.take(4) =~= seq!['(', '?', 'i', ')']);
    }
    if options.whole_word {
        assert(r.subrange(c, c + 2) =~= seq!['\\', 'b']);
        assert(r.subrange(r.len() - 2, r.len() as int) =~= seq!['\\', 'b']);
    }
    assert(r.subrange(c + w, r.len() - w) =~= text);
}

} // verus!
