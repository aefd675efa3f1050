//! Compiled patterns over raw log lines, and what their matches yield.
use vstd::prelude::*;

verus! {

#[verifier::external_type_specification]
#[verifier::external_body]
pub struct ExRegex(regex::bytes::Regex);

#[verifier::external_type_specification]
#[verifier::external_body]
pub struct ExRegexSet(regex::bytes::RegexSet);

/// Whether the regex crate accepts `pattern`.
pub uninterp spec fn regex_compiles(pattern: Seq<char>) -> bool;

/// Whether the regex crate accepts all of `patterns` as one set.
pub uninterp spec fn set_compiles(patterns: Seq<Seq<char>>) -> bool;

/// Where `pattern` matches `line`: the text of its groups named `h`, `m` and
/// `s`, each where it took part in the match.
pub uninterp spec fn hms_groups(pattern: Seq<char>, line: Seq<u8>) -> Option<
    (Option<Seq<u8>>, Option<Seq<u8>>, Option<Seq<u8>>),
>;

/// Where `pattern` matches `line`: the text of its first group, where that
/// group took part in the match and is UTF-8.
pub uninterp spec fn first_group_text(pattern: Seq<char>, line: Seq<u8>) -> Option<Option<Seq<char>>>;

/// The indices of the patterns of a set that match `line`.
pub uninterp spec fn set_matches(patterns: Seq<Seq<char>>, line: Seq<u8>) -> Set<usize>;

/// Strictly ascending.
pub open spec fn ascending(s: Seq<usize>) -> bool {
    forall|a: int, b: int| 0 <= a < b < s.len() ==> s[a] < s[b]
}

/// A pattern that failed to compile, and why.
pub struct PatternError {
    pub pattern: String,
    pub message: String,
}

/// A compiled pattern, with the text it was compiled from. The fields are
/// private and set only by `new`, so `re` is always `source` compiled.
pub struct Pattern {
    source: String,
    re: regex::bytes::Regex,
}

/// A compiled set of patterns, with the texts they were compiled from. The
/// fields are private and set only by `new`, so `set` is always `sources`
/// compiled.
pub struct PatternSet {
    sources: Vec<String>,
    set: regex::bytes::RegexSet,
}

/// The texts of a list of patterns.
pub open spec fn texts(v: Seq<String>) -> Seq<Seq<char>> {
    v.map_values(|s: String| s@)
}

/// Relies on regex::bytes::Regex::new: whether it accepts a pattern depends
/// on the pattern alone.
#[verifier::external_body]
fn compile(pattern: &str) -> (r: Result<regex::bytes::Regex, String>)
    ensures
        r is Ok <==> regex_compiles(pattern@),
{
    regex::bytes::Regex::new(pattern).map_err(|e| e.to_string())
}

/// Relies on regex::bytes::RegexSet::new: whether it accepts the patterns
/// depends on them alone.
#[verifier::external_body]
fn compile_set(patterns: &Vec<String>) -> (r: Result<regex::bytes::RegexSet, String>)
    ensures
        r is Ok <==> set_compiles(texts(patterns@)),
{
    regex::bytes::RegexSet::new(patterns.iter()).map_err(|e| e.to_string())
}

/// Relies on regex::bytes::Regex::captures and Captures::name: whether the
/// pattern matches, and the bytes of the groups `h`, `m` and `s`.
#[verifier::external_body]
fn captures_hms(p: &Pattern, line: &[u8]) -> (r: Option<(Option<Vec<u8>>, Option<Vec<u8>>, Option<Vec<u8>>)>)
    ensures
        match r {
            None => hms_groups(p.text(), line@) is None,
            Some(t) => hms_groups(p.text(), line@) == Some(
                (opt_bytes(t.0), opt_bytes(t.1), opt_bytes(t.2)),
            ),
        },
{
    let c = p.re.captures(line)?;
    let get = |name: &str| c.name(name).map(|m| m.as_bytes().to_vec());
    Some((get("h"), get("m"), get("s")))
}

/// Relies on regex::bytes::Regex::captures, Captures::get and
/// std::str::from_utf8: whether the pattern matches, and the text of its
/// first group.
#[verifier::external_body]
fn captures_first(p: &Pattern, line: &[u8]) -> (r: Option<Option<String>>)
    ensures
        match r {
            None => first_group_text(p.text(), line@) is None,
            Some(None) => first_group_text(p.text(), line@) == Some(None::<Seq<char>>),
            Some(Some(t)) => first_group_text(p.text(), line@) == Some(Some(t@)),
        },
{
    let c = p.re.captures(line)?;
    Some(c.get(1).and_then(|m| std::str::from_utf8(m.as_bytes()).ok()).map(|t| t.to_string()))
}

/// Relies on regex::bytes::RegexSet::matches and SetMatches::into_iter: the
/// indices of the matching patterns, in ascending order.
#[verifier::external_body]
fn set_matching(p: &PatternSet, line: &[u8]) -> (r: Vec<usize>)
    ensures
        ascending(r@),
        r@.to_set() == set_matches(p.texts(), line@),
        forall|i: int| 0 <= i < r@.len() ==> r@[i] < p.texts().len(),
{
    p.set.matches(line).into_iter().collect()
}

pub open spec fn opt_bytes(o: Option<Vec<u8>>) -> Option<Seq<u8>> {
    match o {
        Some(v) => Some(v@),
        None => None,
    }
}

impl Pattern {
    /// The text the pattern was compiled from.
    pub closed spec fn text(&self) -> Seq<char> {
        self.source@
    }

    /// Compiles `source`; fails where the regex crate refuses it.
    pub fn new(source: String) -> (r: Result<Pattern, PatternError>)
        ensures
            r is Ok <==> regex_compiles(source@),
            r matches Ok(p) ==> p.text() == source@,
            r matches Err(e) ==> e.pattern@ == source@,
    {
        match compile(source.as_str()) {
            Ok(re) => Ok(Pattern { source, re }),
            Err(message) => Err(PatternError { pattern: source, message }),
        }
    }

    /// The text the pattern was compiled from.
    pub fn source(&self) -> (r: &String)
        ensures
            r@ == self.text(),
    {
        &self.source
    }

    /// Where the pattern matches `line`, the bytes of its groups named `h`,
    /// `m` and `s`.
    pub fn hms(&self, line: &[u8]) -> (r: Option<(Option<Vec<u8>>, Option<Vec<u8>>, Option<Vec<u8>>)>)
        ensures
            match r {
                None => hms_groups(self.text(), line@) is None,
                Some(t) => hms_groups(self.text(), line@) == Some(
                    (opt_bytes(t.0), opt_bytes(t.1), opt_bytes(t.2)),
                ),
            },
    {
        captures_hms(self, line)
    }

    /// Where the pattern matches `line`, the text of its first group.
    pub fn first_group(&self, line: &[u8]) -> (r: Option<Option<String>>)
        ensures
            match r {
                None => first_group_text(self.text(), line@) is None,
                Some(None) => first_group_text(self.text(), line@) == Some(None::<Seq<char>>),
                Some(Some(t)) => first_group_text(self.text(), line@) == Some(Some(t@)),
            },
    {
        captures_first(self, line)
    }
}

impl PatternSet {
    /// The texts the set was compiled from.
    pub closed spec fn texts(&self) -> Seq<Seq<char>> {
        texts(self.sources@)
    }

    /// Compiles `sources` as one set; fails where the regex crate refuses it.
    pub fn new(sources: Vec<String>) -> (r: Result<PatternSet, PatternError>)
        ensures
            r is Ok <==> set_compiles(texts(sources@)),
            r matches Ok(p) ==> p.texts() == texts(sources@),
    {
        match compile_set(&sources) {
            Ok(set) => Ok(PatternSet { sources, set }),
            Err(message) => Err(PatternError { pattern: String::new(), message }),
        }
    }

    /// The number of patterns in the set.
    pub fn len(&self) -> (r: usize)
        ensures
            r == self.texts().len(),
    {
        self.sources.len()
    }

    /// The lowest index of a pattern that matches `line`, if any does.
    pub fn first_match(&self, line: &[u8]) -> (r: Option<usize>)
        ensures
            r is None <==> set_matches(self.texts(), line@).is_empty(),
            r matches Some(i) ==> i < self.texts().len(),
            r matches Some(i) ==> set_matches(self.texts(), line@).contains(i) && forall|j: usize|
                j < i ==> !set_matches(self.texts(), line@).contains(j),
    {
        let all = set_matching(self, line);
        if all.len() == 0 {
            proof {
                if !set_matches(self.texts(), line@).is_empty() {
                    let x = set_matches(self.texts(), line@).choose();
                    assert(all@.to_set().contains(x));
                }
            }
            None
        } else {
            proof {
                assert(all@.to_set().contains(all@[0]));
                assert forall|j: usize| j < all@[0] implies !set_matches(self.texts(), line@).contains(j) by {
                    if set_matches(self.texts(), line@).contains(j) {
                        assert(all@.to_set().contains(j));
                        assert(all@.contains(j));
                        let t = choose|t: int| 0 <= t < all@.len() && all@[t] == j;
                        if t > 0 {
                            assert(all@[0] < all@[t]);
                        }
                    }
                }
            }
            Some(all[0])
        }
    }
}

} // verus!
