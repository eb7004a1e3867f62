//! Compiled regular expressions, carrying their pattern text as their view.

use vstd::prelude::*;

verus! {

#[verifier::external_type_specification]
#[verifier::external_body]
pub struct ExRegex(fancy_regex::Regex);

/// Whether `fancy_regex` accepts `pattern` as a regular expression; a
/// function of the pattern text alone.
pub uninterp spec fn regex_ok(pattern: Seq<char>) -> bool;

/// Whether the regular expression `pattern` matches anywhere in `text`; a
/// function of the pattern and the text alone.
pub uninterp spec fn regex_match(pattern: Seq<char>, text: Seq<char>) -> bool;

/// A compiled regular expression together with the pattern text it was
/// compiled from; the view is that text.  The pairing is established by
/// [`Pattern::new`], the only constructor.
#[derive(Debug)]
pub struct Pattern {
    re: fancy_regex::Regex,
    text: String,
}

impl View for Pattern {
    type V = Seq<char>;

    closed spec fn view(&self) -> Seq<char> {
        self.text@
    }
}

impl Pattern {
    /// Relies on `fancy_regex::Regex::new`: compilation succeeds exactly on
    /// the patterns the crate's syntax accepts, decided by the pattern text
    /// alone.
    #[verifier::external_body]
    pub fn new(pattern: &str) -> (r: Option<Pattern>)
        ensures
            r is Some <==> regex_ok(pattern@),
            match r {
                Some(p) => p@ == pattern@,
                None => true,
            },
    {
        match fancy_regex::Regex::new(pattern) {
            Ok(re) => Some(Pattern { re, text: pattern.to_string() }),
            Err(_) => None,
        }
    }

    /// Relies on `fancy_regex::Regex::is_match`: the outcome is decided by
    /// the pattern and the text alone.  An error from the matcher (its
    /// backtracking limit) counts as no match.
    #[verifier::external_body]
    pub fn is_match(&self, text: &str) -> (r: bool)
        ensures
            r == regex_match(self@, text@),
    {
        matches!(self.re.is_match(text), Ok(true))
    }
}

/// Whether any of `patterns` matches `text`.
pub open spec fn any_match(patterns: Seq<Seq<char>>, text: Seq<char>) -> bool {
    exists|k: int| 0 <= k < patterns.len() && regex_match(#[trigger] patterns[k], text)
}

/// The pattern texts of a vector of compiled patterns.
pub open spec fn pattern_views(ps: Seq<Pattern>) -> Seq<Seq<char>> {
    ps.map_values(|p: Pattern| p@)
}

/// Whether any of `patterns` matches `text`, decided by running each.
pub fn any_match_exec(patterns: &Vec<Pattern>, text: &str) -> (r: bool)
    ensures
        r == any_match(pattern_views(patterns@), text@),
{
    let len = patterns.len();
    let mut k: usize = 0;
    while k < len
        invariant
            len == patterns@.len(),
            k <= len,
            forall|j: int| 0 <= j < k ==> !regex_match(pattern_views(patterns@)[j], text@),
        decreases len - k,
    {
        if patterns[k].is_match(text) {
            proof {
                assert(regex_match(pattern_views(patterns@)[k as int], text@));
            }
            return true;
        }
        k += 1;
    }
    false
}

/// The members of `ls` that compile as regular expressions, in order.
pub open spec fn compilable(ls: Seq<Seq<char>>) -> Seq<Seq<char>>
    decreases ls.len(),
{
    if ls.len() == 0 {
        Seq::empty()
    } else {
        let rest = compilable(ls.drop_last());
        if regex_ok(ls.last()) {
            rest.push(ls.last())
        } else {
            rest
        }
    }
}

/// Compiles the members of `texts` that are valid patterns, dropping the
/// rest.
pub fn compile_valid_patterns(texts: &Vec<String>) -> (r: Vec<Pattern>)
    ensures
        pattern_views(r@) == compilable(crate::linker::text::string_views(texts@)),
{
    let ghost lv = crate::linker::text::string_views(texts@);
    let len = texts.len();
    let mut ps: Vec<Pattern> = Vec::new();
    let mut k: usize = 0;
    proof {
        assert(lv.take(0) =~= Seq::<Seq<char>>::empty());
        assert(pattern_views(ps@) =~= compilable(lv.take(0)));
    }
    while k < len
        invariant
            lv == crate::linker::text::string_views(texts@),
            len == texts@.len(),
            k <= len,
            pattern_views(ps@) == compilable(lv.take(k as int)),
        decreases len - k,
    {
        proof {
            assert(lv.take(k + 1).drop_last() =~= lv.take(k as int));
            assert(lv.take(k + 1).last() == lv[k as int]);
            assert(lv[k as int] == texts@[k as int]@);
        }
        match Pattern::new(texts[k].as_str()) {
            Some(p) => {
                let ghost ps0 = ps@;
                ps.push(p);
                proof {
                    assert(pattern_views(ps@) =~= pattern_views(ps0).push(p@));
                }
            },
            None => {},
        }
        k += 1;
    }
    proof {
        assert(lv.take(len as int) =~= lv);
    }
    ps
}

/// Compiles each pattern of `texts`; fails if any one is rejected.
pub fn compile_patterns(texts: &Vec<String>) -> (r: Option<Vec<Pattern>>)
    ensures
        match r {
            Some(ps) => {
                &&& ps@.len() == texts@.len()
                &&& forall|k: int|
                    0 <= k < texts@.len() ==> pattern_views(ps@)[k] == (#[trigger] texts@[k])@
            },
            None => exists|k: int|
                0 <= k < texts@.len() && !regex_ok((#[trigger] texts@[k])@),
        },
{
    let len = texts.len();
    let mut ps: Vec<Pattern> = Vec::new();
    let mut k: usize = 0;
    while k < len
        invariant
            len == texts@.len(),
            k <= len,
            ps@.len() == k,
            forall|j: int| 0 <= j < k ==> pattern_views(ps@)[j] == (#[trigger] texts@[j])@,
        decreases len - k,
    {
        match Pattern::new(texts[k].as_str()) {
            Some(p) => {
                ps.push(p);
            },
            None => {
                return None;
            },
        }
        k += 1;
    }
    Some(ps)
}

} // verus!
