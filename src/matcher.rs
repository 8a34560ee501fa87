use vstd::prelude::*;

verus! {

#[verifier::external_type_specification]
#[verifier::external_body]
pub struct ExRegex(regex::bytes::Regex);

#[verifier::external_type_specification]
#[verifier::external_body]
pub struct ExRegexError(regex::Error);

/// Whether regex's compiler, at its default limits, accepts `pattern`.
pub uninterp spec fn regex_compiles(pattern: Seq<char>) -> bool;

/// Whether the regex compiled from `pattern` matches somewhere in `haystack`.
pub uninterp spec fn regex_finds(pattern: Seq<char>, haystack: Seq<u8>) -> bool;

/// Relies on regex::bytes::Regex::new: it accepts or refuses a pattern by the pattern alone,
/// under the builder's fixed default limits.
#[verifier::external_body]
fn compile(pattern: &str) -> (r: Result<regex::bytes::Regex, regex::Error>)
    ensures
        r is Ok <==> regex_compiles(pattern@),
{
    regex::bytes::Regex::new(pattern)
}

/// Relies on regex::bytes::Regex::is_match: whether the regex matches anywhere in the
/// haystack. The regex of a `Pattern` is the one compiled from its source, since
/// `Pattern::new` is the only place that makes one.
#[verifier::external_body]
fn find(pattern: &Pattern, haystack: &[u8]) -> (r: bool)
    ensures
        r == regex_finds(pattern@, haystack@),
{
    pattern.regex.is_match(haystack)
}

/// Why a pattern could not be compiled.
#[derive(Clone, Copy, Debug, PartialEq, Eq, Structural)]
pub enum PatternError {
    Invalid,
}

/// A regular expression, with the text it was compiled from.
pub struct Pattern {
    source: String,
    regex: regex::bytes::Regex,
}

impl View for Pattern {
    type V = Seq<char>;

    closed spec fn view(&self) -> Seq<char> {
        self.source@
    }
}

impl Pattern {
    /// Compiles `source`; it fails exactly on the patterns that regex refuses.
    pub fn new(source: String) -> (r: Result<Pattern, PatternError>)
        ensures
            r is Ok <==> regex_compiles(source@),
            r is Ok ==> r->Ok_0@ == source@,
    {
        match compile(source.as_str()) {
            Ok(regex) => Ok(Pattern { source, regex }),
            Err(_) => Err(PatternError::Invalid),
        }
    }

    /// Whether the pattern matches somewhere in `haystack`.
    pub fn is_match(&self, haystack: &[u8]) -> (r: bool)
        ensures
            r == regex_finds(self@, haystack@),
    {
        find(self, haystack)
    }
}

pub enum MatcherView {
    Exact { name: Seq<u8> },
    ExactAnyCase { name: Seq<u8> },
    Wildcard { pattern: Seq<u8> },
    Members { names: Seq<Seq<u8>> },
    Regex { source: Seq<char> },
}

/// A predicate over a query name, given as text (`www.example.com`).
pub enum Matcher {
    /// The name and no other, byte for byte.
    Exact { name: Vec<u8> },
    /// The name and no other, with ASCII letters compared without regard to case.
    ExactAnyCase { name: Vec<u8> },
    /// A glob: a pattern that starts with `*` matches each name that ends with the rest of the
    /// pattern and has at least one byte before it, so `*.example.com` matches
    /// `a.example.com` and `a.b.example.com` but not `example.com`. A pattern without a
    /// leading `*` matches only itself.
    Wildcard { pattern: Vec<u8> },
    /// Each of these names, byte for byte.
    Members { names: Vec<Vec<u8>> },
    /// Each name in which the regular expression finds a match.
    Regex { regex: Pattern },
}

pub open spec fn byte_views(s: Seq<Vec<u8>>) -> Seq<Seq<u8>> {
    s.map_values(|v: Vec<u8>| v@)
}

impl View for Matcher {
    type V = MatcherView;

    open spec fn view(&self) -> MatcherView {
        match self {
            Matcher::Exact { name } => MatcherView::Exact { name: name@ },
            Matcher::ExactAnyCase { name } => MatcherView::ExactAnyCase { name: name@ },
            Matcher::Wildcard { pattern } => MatcherView::Wildcard { pattern: pattern@ },
            Matcher::Members { names } => MatcherView::Members { names: byte_views(names@) },
            Matcher::Regex { regex } => MatcherView::Regex { source: regex@ },
        }
    }
}

pub open spec fn wildcard_matches(pattern: Seq<u8>, query: Seq<u8>) -> bool {
    if pattern.len() > 0 && pattern[0] == 42u8 {
        let suffix = pattern.subrange(1, pattern.len() as int);
        query.len() > suffix.len() && query.subrange(
            query.len() - suffix.len(),
            query.len() as int,
        ) == suffix
    } else {
        query == pattern
    }
}

pub open spec fn matcher_matches(m: MatcherView, query: Seq<u8>) -> bool {
    match m {
        MatcherView::Exact { name } => query == name,
        MatcherView::ExactAnyCase { name } => fold_case(query) == fold_case(name),
        MatcherView::Wildcard { pattern } => wildcard_matches(pattern, query),
        MatcherView::Members { names } => names.contains(query),
        MatcherView::Regex { source } => regex_finds(source, query),
    }
}

/// An ASCII upper-case letter as lower case; every other byte as it is.
pub open spec fn fold_byte(b: u8) -> u8 {
    if 65 <= b <= 90 {
        (b + 32) as u8
    } else {
        b
    }
}

pub open spec fn fold_case(s: Seq<u8>) -> Seq<u8> {
    s.map_values(|b: u8| fold_byte(b))
}

/// Whether `a` and `b` are the same once ASCII letters are folded to lower case.
pub fn equal_any_case(a: &[u8], b: &[u8]) -> (r: bool)
    ensures
        r == (fold_case(a@) == fold_case(b@)),
{
    if a.len() != b.len() {
        assert(fold_case(a@).len() != fold_case(b@).len());
        return false;
    }
    let mut i: usize = 0;
    while i < a.len()
        invariant
            i <= a@.len(),
            a@.len() == b@.len(),
            forall|k: int| 0 <= k < i ==> fold_byte(a@[k]) == fold_byte(b@[k]),
        decreases a@.len() - i,
    {
        let x = if 65 <= a[i] && a[i] <= 90 {
            a[i] + 32
        } else {
            a[i]
        };
        let y = if 65 <= b[i] && b[i] <= 90 {
            b[i] + 32
        } else {
            b[i]
        };
        if x != y {
            assert(fold_case(a@)[i as int] != fold_case(b@)[i as int]);
            return false;
        }
        i = i + 1;
    }
    assert(fold_case(a@) =~= fold_case(b@));
    true
}

/// Whether `a` and `b` hold the same bytes.
pub fn bytes_equal(a: &[u8], b: &[u8]) -> (r: bool)
    ensures
        r == (a@ == b@),
{
    if a.len() != b.len() {
        return false;
    }
    let mut i: usize = 0;
    while i < a.len()
        invariant
            i <= a@.len(),
            a@.len() == b@.len(),
            a@.subrange(0, i as int) == b@.subrange(0, i as int),
        decreases a@.len() - i,
    {
        if a[i] != b[i] {
            assert(a@.subrange(0, i + 1)[i as int] != b@.subrange(0, i + 1)[i as int]);
            return false;
        }
        i = i + 1;
        assert(a@.subrange(0, i as int) =~= b@.subrange(0, i as int)) by {
            assert(a@.subrange(0, i - 1) == b@.subrange(0, i - 1));
            assert forall|k: int| 0 <= k < i implies a@.subrange(0, i as int)[k] == b@.subrange(
                0,
                i as int,
            )[k] by {
                if k < i - 1 {
                    assert(a@.subrange(0, i - 1)[k] == b@.subrange(0, i - 1)[k]);
                }
            }
        }
    }
    assert(a@ =~= a@.subrange(0, i as int));
    assert(b@ =~= b@.subrange(0, i as int));
    true
}

/// Whether `a` ends with `b`.
pub fn ends_with(a: &[u8], b: &[u8]) -> (r: bool)
    ensures
        r == (a@.len() >= b@.len() && a@.subrange(a@.len() - b@.len(), a@.len() as int) == b@),
{
    if a.len() < b.len() {
        return false;
    }
    let off = a.len() - b.len();
    let mut i: usize = 0;
    while i < b.len()
        invariant
            i <= b@.len(),
            off + b@.len() == a@.len(),
            a@.len() == a.len(),
            forall|k: int| 0 <= k < i ==> a@[off + k] == b@[k],
        decreases b@.len() - i,
    {
        let j: usize = off + i;
        if a[j] != b[i] {
            assert(a@.subrange(off as int, a@.len() as int)[i as int] == a@[off + i]);
            return false;
        }
        i = i + 1;
    }
    assert(a@.subrange(off as int, a@.len() as int) =~= b@);
    true
}

impl Matcher {
    /// Whether the matcher accepts the query name `query`, given as text.
    pub fn matches(&self, query: &[u8]) -> (r: bool)
        ensures
            r == matcher_matches(self@, query@),
    {
        match self {
            Matcher::Exact { name } => bytes_equal(query, name.as_slice()),
            Matcher::ExactAnyCase { name } => equal_any_case(query, name.as_slice()),
            Matcher::Wildcard { pattern } => {
                if pattern.len() > 0 && pattern[0] == 42u8 {
                    let mut suffix: Vec<u8> = Vec::new();
                    let mut i: usize = 1;
                    while i < pattern.len()
                        invariant
                            1 <= i <= pattern@.len(),
                            suffix@ == pattern@.subrange(1, i as int),
                        decreases pattern@.len() - i,
                    {
                        suffix.push(pattern[i]);
                        i = i + 1;
                        assert(suffix@ =~= pattern@.subrange(1, i as int));
                    }
                    query.len() > suffix.len() && ends_with(query, suffix.as_slice())
                } else {
                    bytes_equal(query, pattern.as_slice())
                }
            },
            Matcher::Members { names } => {
                let mut i: usize = 0;
                while i < names.len()
                    invariant
                        i <= names@.len(),
                        self@ == (MatcherView::Members { names: byte_views(names@) }),
                        forall|k: int| 0 <= k < i ==> byte_views(names@)[k] != query@,
                    decreases names@.len() - i,
                {
                    if bytes_equal(query, names[i].as_slice()) {
                        assert(byte_views(names@)[i as int] == names@[i as int]@);
                        assert(byte_views(names@).contains(query@));
                        return true;
                    }
                    i = i + 1;
                }
                false
            },
            Matcher::Regex { regex } => regex.is_match(query),
        }
    }
}

} // verus!
