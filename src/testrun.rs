use vstd::prelude::*;

use crate::validated_string::ValidatedString;

use vstd::string::*;

verus! {

/// How a test run ended.
#[derive(Clone, Copy, Debug, PartialEq, Eq, Structural)]
pub enum Outcome {
    Pass,
    Failure,
    Skip,
    Error,
}

/// One run of one test, as a report parser hands it over.
///
/// `duration` is the bit pattern of an IEEE-754 single-precision number of seconds.
#[derive(Debug, Clone)]
pub struct Testrun {
    pub name: ValidatedString,
    pub classname: ValidatedString,
    pub duration: Option<u32>,
    pub outcome: Outcome,
    pub testsuite: ValidatedString,
    pub failure_message: Option<String>,
    pub filename: Option<ValidatedString>,
    pub build_url: Option<String>,
    pub computed_name: ValidatedString,
}

/// The duration bits a run contributes: those given, or those of zero seconds.
pub open spec fn duration_bits(t: Testrun) -> u32 {
    match t.duration {
        Some(d) => d,
        None => 0,
    }
}

/// The test framework a report came from.
#[derive(Clone, Copy, Debug, PartialEq, Eq, Structural)]
pub enum Framework {
    Pytest,
    Vitest,
    Jest,
    PHPUnit,
}

/// What `str::to_lowercase` gives for `s`.
pub uninterp spec fn lower_of(s: Seq<char>) -> Seq<char>;

/// What `char::is_alphanumeric` gives for `c`.
pub uninterp spec fn alnum_of(c: char) -> bool;

/// The characters of `s` in lower case.
///
/// Relies on `str::to_lowercase`; the characters of its result are collected in order.
#[verifier::external_body]
fn lowercase_chars(s: &str) -> (r: Vec<char>)
    ensures
        r@ == lower_of(s@),
{
    s.to_lowercase().chars().collect()
}

/// The characters of `s`.
///
/// Relies on `str::chars`, which yields the characters of `s` in order.
#[verifier::external_body]
fn chars_of(s: &str) -> (r: Vec<char>)
    ensures
        r@ == s@,
{
    s.chars().collect()
}

/// Whether `c` is alphanumeric.
///
/// Relies on `char::is_alphanumeric`.
#[verifier::external_body]
fn is_alphanumeric(c: char) -> (r: bool)
    ensures
        r == alnum_of(c),
{
    c.is_alphanumeric()
}

/// `sub` stands in `s` at position `p`.
pub open spec fn occurs_at(s: Seq<char>, sub: Seq<char>, p: int) -> bool {
    0 <= p && p + sub.len() <= s.len() && s.subrange(p, p + sub.len()) == sub
}

/// `sub` occurs in `s`, and what follows its first occurrence is the end of `s` or a
/// character that is not alphanumeric.
pub open spec fn word_match(s: Seq<char>, sub: Seq<char>) -> bool {
    exists|p: int|
        #![trigger occurs_at(s, sub, p)]
        occurs_at(s, sub, p) && (forall|q: int| 0 <= q < p ==> !occurs_at(s, sub, q)) && (p
            + sub.len() == s.len() || !alnum_of(s[p + sub.len()]))
}

/// Whether `substring` occurs in `string` taken in lower case, its first occurrence not
/// being followed by an alphanumeric character.
fn check_substring_before_word_boundary(string: &str, substring: &str) -> (r: bool)
    ensures
        r == word_match(lower_of(string@), substring@),
{
    let s = lowercase_chars(string);
    let sub = chars_of(substring);
    matches_word(&s, &sub)
}

/// Whether `sub` occurs in `s`, its first occurrence not being followed by an alphanumeric
/// character.
pub fn matches_word(s: &Vec<char>, sub: &Vec<char>) -> (r: bool)
    ensures
        r == word_match(s@, sub@),
{
    let n = s.len();
    let m = sub.len();
    if m > n {
        proof {
            assert forall|p: int| !occurs_at(s@, sub@, p) by {}
        }
        return false;
    }
    let mut p: usize = 0;
    while m <= n - p
        invariant
            n == s@.len(),
            m == sub@.len(),
            m <= n,
            p <= n,
            forall|q: int| 0 <= q < p ==> !occurs_at(s@, sub@, q),
        decreases n - p,
    {
        let mut j: usize = 0;
        let mut same = true;
        while j < m
            invariant
                n == s@.len(),
                m == sub@.len(),
                p + m <= n,
                j <= m,
                same ==> forall|k: int| 0 <= k < j ==> s@[p + k] == sub@[k],
                !same ==> !occurs_at(s@, sub@, p as int) && j > 0,
            decreases m - j,
        {
            if s[p + j] != sub[j] {
                proof {
                    if occurs_at(s@, sub@, p as int) {
                        assert(s@.subrange(p as int, p + m)[j as int] == s@[p + j]);
                    }
                }
                same = false;
            }
            j = j + 1;
        }
        if same {
            proof {
                assert(s@.subrange(p as int, p + m) =~= sub@);
                assert(occurs_at(s@, sub@, p as int));
            }
            let after = p + m;
            proof {
                assert forall|p2: int| occurs_at(s@, sub@, p2) && (forall|q: int| 0 <= q < p2 ==> !occurs_at(s@, sub@, q)) implies p2 == p by {
                    if p2 > p {
                        assert(!occurs_at(s@, sub@, p as int));
                    }
                }
            }
            if after == n {
                proof {
                    assert(occurs_at(s@, sub@, p as int) && (forall|q: int| 0 <= q < p ==> !occurs_at(s@, sub@, q)) && (p + sub@.len() == s@.len() || !alnum_of(s@[p + sub@.len()])));
                }
                return true;
            }
            let a = is_alphanumeric(s[after]);
            proof {
                if !a {
                    assert(occurs_at(s@, sub@, p as int) && (forall|q: int| 0 <= q < p ==> !occurs_at(s@, sub@, q)) && (p + sub@.len() == s@.len() || !alnum_of(s@[p + sub@.len()])));
                }
            }
            return !a;
        }
        p = p + 1;
    }
    proof {
        assert forall|q: int| !occurs_at(s@, sub@, q) by {
            if occurs_at(s@, sub@, q) {
                assert(q < p);
            }
        }
    }
    false
}

/// The framework that the name of a `testsuites` element names: the first of pytest,
/// vitest, jest and phpunit that it holds as a word.
pub open spec fn framework_of_name(name: Seq<char>) -> Option<Framework> {
    let l = lower_of(name);
    if word_match(l, "pytest"@) {
        Some(Framework::Pytest)
    } else if word_match(l, "vitest"@) {
        Some(Framework::Vitest)
    } else if word_match(l, "jest"@) {
        Some(Framework::Jest)
    } else if word_match(l, "phpunit"@) {
        Some(Framework::PHPUnit)
    } else {
        None
    }
}

/// The framework that the name of a `testsuites` element names, if any.
pub fn check_testsuites_name(testsuites_name: &str) -> (r: Option<Framework>)
    ensures
        r == framework_of_name(testsuites_name@),
{
    proof {
        reveal_strlit("pytest");
        reveal_strlit("vitest");
        reveal_strlit("jest");
        reveal_strlit("phpunit");
    }
    if check_substring_before_word_boundary(testsuites_name, "pytest") {
        Some(Framework::Pytest)
    } else if check_substring_before_word_boundary(testsuites_name, "vitest") {
        Some(Framework::Vitest)
    } else if check_substring_before_word_boundary(testsuites_name, "jest") {
        Some(Framework::Jest)
    } else if check_substring_before_word_boundary(testsuites_name, "phpunit") {
        Some(Framework::PHPUnit)
    } else {
        None
    }
}

/// `ext` ends a word in the class name, the name, the failure message or the file name of
/// `t`.
pub open spec fn mentions(t: Testrun, ext: Seq<char>) -> bool {
    ||| word_match(lower_of(t.classname.view()), ext)
    ||| word_match(lower_of(t.name.view()), ext)
    ||| (t.failure_message matches Some(m) && word_match(lower_of(m@), ext))
    ||| (t.filename matches Some(f) && word_match(lower_of(f.view()), ext))
}

/// The framework of a run: the one its suite's name names, else pytest for a `.py` and
/// phpunit for a `.php` that one of its names or messages mentions.
pub open spec fn framework_of(t: Testrun) -> Option<Framework> {
    if framework_of_name(t.testsuite.view()) is Some {
        framework_of_name(t.testsuite.view())
    } else if mentions(t, ".py"@) {
        Some(Framework::Pytest)
    } else if mentions(t, ".php"@) {
        Some(Framework::PHPUnit)
    } else {
        None
    }
}

impl Testrun {
    fn mentions(&self, ext: &str) -> (r: bool)
        ensures
            r == mentions(*self, ext@),
    {
        if check_substring_before_word_boundary(self.classname.as_str(), ext)
            || check_substring_before_word_boundary(self.name.as_str(), ext) {
            return true;
        }
        if let Some(message) = &self.failure_message {
            if check_substring_before_word_boundary(message.as_str(), ext) {
                return true;
            }
        }
        if let Some(filename) = &self.filename {
            if check_substring_before_word_boundary(filename.as_str(), ext) {
                return true;
            }
        }
        false
    }

    /// The framework this run most likely came from, if any.
    pub fn framework(&self) -> (r: Option<Framework>)
        ensures
            r == framework_of(*self),
    {
        proof {
            reveal_strlit(".py");
            reveal_strlit(".php");
        }
        let by_suite = check_testsuites_name(self.testsuite.as_str());
        if by_suite.is_some() {
            return by_suite;
        }
        if self.mentions(".py") {
            return Some(Framework::Pytest);
        }
        if self.mentions(".php") {
            return Some(Framework::PHPUnit);
        }
        None
    }
}

} // verus!
