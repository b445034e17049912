//! The ignore matcher: a path is excluded when it equals one of the
//! configured absolute paths or matches one of the configured regular
//! expressions. Matching works on the path's string form; separators are not
//! normalized.

use vstd::prelude::*;

use crate::cache::path_set;
use crate::settings::Ignore;

verus! {

/// The pattern a compiled regular expression was built from.
pub uninterp spec fn regex_pattern(re: regex::Regex) -> Seq<char>;

/// Whether the regex engine accepts the pattern: compilation is
/// deterministic in the pattern alone.
pub uninterp spec fn regex_ok(pattern: Seq<char>) -> bool;

/// Whether the pattern `pattern` matches somewhere in `text`, as the regex
/// crate decides it: deterministic in the pattern and the text.
pub uninterp spec fn regex_match(pattern: Seq<char>, text: Seq<char>) -> bool;

#[verifier::external_type_specification]
#[verifier::external_body]
pub struct ExRegex(regex::Regex);

#[verifier::external_type_specification]
#[verifier::external_body]
pub struct ExRegexError(regex::Error);

/// Relies on regex::Regex::new: whether a pattern compiles depends on the
/// pattern alone, and a compiled regex stands for exactly the pattern it was
/// built from.
#[verifier::external_body]
fn regex_compile(pattern: &String) -> (r: Result<regex::Regex, regex::Error>)
    ensures
        r is Ok <==> regex_ok(pattern@),
        r matches Ok(re) ==> regex_pattern(re) == pattern@,
{
    regex::Regex::new(pattern.as_str())
}

/// Relies on regex::Regex::is_match: whether a regex matches a text depends
/// on the pattern and the text alone.
#[verifier::external_body]
fn regex_is_match(re: &regex::Regex, text: &String) -> (r: bool)
    ensures
        r == regex_match(regex_pattern(*re), text@),
{
    re.is_match(text.as_str())
}

/// A configured ignore pattern that does not compile. Carries the pattern,
/// so the driver can report which rule is broken; an ignore rule that cannot
/// compile cannot be honored, so this aborts the run at startup.
#[derive(Debug)]
pub struct IgnoreError {
    pub pattern: String,
    pub error: regex::Error,
}

/// The compiled ignore rules of one run: an exact-match set of absolute
/// paths and a list of compiled regular expressions.
pub struct IgnoreRules {
    pub abs_paths: Vec<String>,
    pub regexes: Vec<regex::Regex>,
}

impl IgnoreRules {
    /// The exact-match path set.
    pub open spec fn abs_set(&self) -> Set<Seq<char>> {
        path_set(self.abs_paths@)
    }

    /// The patterns of the compiled regular expressions, in order.
    pub open spec fn patterns(&self) -> Seq<Seq<char>> {
        self.regexes@.map_values(|re: regex::Regex| regex_pattern(re))
    }

    /// Whether the path `p` is ignored: it equals a configured absolute path
    /// or matches a configured pattern.
    pub open spec fn spec_ignored(&self, p: Seq<char>) -> bool {
        self.abs_set().contains(p) || exists|i: int|
            0 <= i < self.patterns().len() && regex_match(#[trigger] self.patterns()[i], p)
    }

    /// Compile the configured ignore rules: succeeds exactly when every
    /// configured pattern compiles, and then holds exactly the configured
    /// absolute paths and patterns. An ignore rule that cannot compile
    /// cannot be honored, so the first refused pattern fails the run, named.
    pub fn new(ignore: Ignore) -> (r: Result<IgnoreRules, IgnoreError>)
        ensures
            r is Ok <==> forall|i: int|
                0 <= i < ignore.regex@.len() ==> regex_ok((#[trigger] ignore.regex@[i])@),
            r matches Ok(rules) ==> rules.abs_paths@ == ignore.abs_path@ && rules.patterns()
                == ignore.regex@.map_values(|s: String| s@),
            r matches Err(e) ==> !regex_ok(e.pattern@) && exists|i: int|
                0 <= i < ignore.regex@.len() && (#[trigger] ignore.regex@[i])@ == e.pattern@,
    {
        let mut regexes: Vec<regex::Regex> = Vec::new();
        let mut i: usize = 0;
        while i < ignore.regex.len()
            invariant
                0 <= i <= ignore.regex@.len(),
                regexes@.len() == i,
                forall|k: int|
                    0 <= k < i ==> regex_pattern(#[trigger] regexes@[k]) == ignore.regex@[k]@,
                forall|k: int| 0 <= k < i ==> regex_ok((#[trigger] ignore.regex@[k])@),
            decreases ignore.regex@.len() - i,
        {
            let pattern = &ignore.regex[i];
            match regex_compile(pattern) {
                Ok(re) => {
                    regexes.push(re);
                },
                Err(error) => {
                    proof {
                        assert((ignore.regex@[i as int])@ == pattern@);
                    }
                    return Err(IgnoreError { pattern: pattern.clone(), error });
                },
            }
            i += 1;
        }
        let rules = IgnoreRules { abs_paths: ignore.abs_path, regexes };
        proof {
            assert(rules.patterns() =~= ignore.regex@.map_values(|s: String| s@));
        }
        Ok(rules)
    }

    /// Decide whether a path is ignored. No side effects.
    pub fn is_ignored(&self, path: &String) -> (r: bool)
        ensures
            r == self.spec_ignored(path@),
    {
        let mut i: usize = 0;
        while i < self.abs_paths.len()
            invariant
                0 <= i <= self.abs_paths@.len(),
                forall|k: int| 0 <= k < i ==> (#[trigger] self.abs_paths@[k])@ != path@,
            decreases self.abs_paths@.len() - i,
        {
            if self.abs_paths[i].eq(path) {
                proof {
                    assert(self.abs_set().contains(path@));
                }
                return true;
            }
            i += 1;
        }
        proof {
            assert(!self.abs_set().contains(path@));
        }

        let mut j: usize = 0;
        while j < self.regexes.len()
            invariant
                0 <= j <= self.regexes@.len(),
                !self.abs_set().contains(path@),
                forall|k: int| 0 <= k < j ==> !regex_match(#[trigger] self.patterns()[k], path@),
            decreases self.regexes@.len() - j,
        {
            if regex_is_match(&self.regexes[j], path) {
                proof {
                    assert(self.patterns()[j as int] == regex_pattern(self.regexes@[j as int]));
                }
                return true;
            }
            j += 1;
        }
        false
    }
}

} // verus!
