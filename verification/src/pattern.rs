//! Exclusion patterns: regular expressions that name the lines to leave out.

use vstd::prelude::*;
use regex::Regex;
use crate::text::string_views;

verus! {

/// `regex::Regex`, a compiled regular expression. Nothing is known of what
/// it holds but through `regex_language`.
#[verifier::external_type_specification]
#[verifier::external_body]
pub struct ExRegex(regex::Regex);

/// `regex::Error`, the reason for which a pattern was refused. Nothing is
/// read from it.
#[verifier::external_type_specification]
#[verifier::external_body]
pub struct ExRegexError(regex::Error);

/// The texts in which a compiled regular expression finds a match.
pub uninterp spec fn regex_language(regex: Regex) -> Set<Seq<char>>;

/// What `Regex::new` makes of a pattern: `None` where it refuses the pattern,
/// else the texts in which the regular expression it builds finds a match.
pub uninterp spec fn compiled_language(pattern: Seq<char>) -> Option<Set<Seq<char>>>;

/// `regex::Regex::new` compiles a pattern with the crate's default settings.
/// Believed of it: whether it accepts a pattern, and what the regular
/// expression it then builds matches, depend on the pattern alone.
pub assume_specification[ Regex::new ](re: &str) -> (outcome: Result<Regex, regex::Error>)
    ensures
        match outcome {
            Ok(regex) => compiled_language(re@) == Some(regex_language(regex)),
            Err(_) => compiled_language(re@) is None,
        },
;

/// `regex::Regex::is_match` says whether the regular expression matches
/// anywhere in the text. Believed of it: the answer is the same whenever the
/// same regular expression is asked about the same text.
pub assume_specification[ Regex::is_match ](regex: &Regex, haystack: &str) -> (found: bool)
    ensures
        found == regex_language(*regex).contains(haystack@),
;

/// The pattern is a regular expression that compiles.
pub open spec fn pattern_compiles(pattern: Seq<char>) -> bool {
    compiled_language(pattern) is Some
}

/// The pattern compiles and matches somewhere in the text.
pub open spec fn pattern_matches(pattern: Seq<char>, text: Seq<char>) -> bool {
    match compiled_language(pattern) {
        Some(language) => language.contains(text),
        None => false,
    }
}

/// Every pattern of the list compiles.
pub open spec fn all_compile(patterns: Seq<Seq<char>>) -> bool {
    forall|i: int| 0 <= i < patterns.len() ==> pattern_compiles(#[trigger] patterns[i])
}

/// Some pattern of the list matches somewhere in the text.
pub open spec fn any_matches(patterns: Seq<Seq<char>>, text: Seq<char>) -> bool {
    exists|i: int| 0 <= i < patterns.len() && pattern_matches(#[trigger] patterns[i], text)
}

/// What is wrong with a link's configuration.
#[derive(Debug)]
pub enum ConfigError {
    /// An exclusion pattern is no regular expression; the pattern is given.
    MalformedPattern(String),
}

/// A compiled exclusion pattern.
pub struct ExclusionPattern {
    source: String,
    regex: Regex,
}

impl View for ExclusionPattern {
    type V = Seq<char>;

    /// The pattern as it was written.
    closed spec fn view(&self) -> Seq<char> {
        self.source@
    }
}

impl ExclusionPattern {
    #[verifier::type_invariant]
    spec fn compiled(self) -> bool {
        compiled_language(self.source@) == Some(regex_language(self.regex))
    }

    /// Compiles a pattern, or says that it is malformed.
    pub fn new(source: &str) -> (outcome: Result<Self, ConfigError>)
        ensures
            outcome is Ok <==> pattern_compiles(source@),
            match outcome {
                Ok(pattern) => pattern@ == source@ && pattern_compiles(source@),
                Err(ConfigError::MalformedPattern(given)) => given@ == source@
                    && !pattern_compiles(source@),
            },
    {
        match Regex::new(source) {
            Ok(regex) => Ok(ExclusionPattern { source: source.to_owned(), regex }),
            Err(_) => Err(ConfigError::MalformedPattern(source.to_owned())),
        }
    }

    /// Whether the pattern matches somewhere in the text.
    pub fn excludes(&self, text: &str) -> (found: bool)
        ensures
            pattern_compiles(self@),
            found == pattern_matches(self@, text@),
    {
        proof {
            use_type_invariant(self);
        }
        self.regex.is_match(text)
    }
}

/// The patterns, as they were written, of a vector of compiled patterns.
pub open spec fn pattern_views(compiled: Seq<ExclusionPattern>) -> Seq<Seq<char>> {
    compiled.map_values(|pattern: ExclusionPattern| pattern@)
}

/// The first pattern of the list that does not compile stands at `i`.
pub open spec fn first_malformed(patterns: Seq<Seq<char>>, i: int) -> bool {
    &&& 0 <= i < patterns.len()
    &&& !pattern_compiles(patterns[i])
    &&& all_compile(patterns.take(i))
}

/// Compiles the patterns of a link in the order in which they are given. The
/// error names the first pattern that is malformed.
pub fn compile_patterns(patterns: &Vec<String>) -> (outcome: Result<
    Vec<ExclusionPattern>,
    ConfigError,
>)
    ensures
        outcome is Ok <==> all_compile(string_views(patterns@)),
        match outcome {
            Ok(compiled) => all_compile(string_views(patterns@)) && pattern_views(compiled@)
                == string_views(patterns@),
            Err(ConfigError::MalformedPattern(given)) => exists|i: int|
                #![trigger string_views(patterns@)[i]]
                first_malformed(string_views(patterns@), i) && given@ == string_views(
                    patterns@,
                )[i],
        },
{
    let ghost written = string_views(patterns@);
    let mut compiled: Vec<ExclusionPattern> = Vec::new();
    let mut i: usize = 0;
    while i < patterns.len()
        invariant
            i <= patterns.len(),
            written == string_views(patterns@),
            all_compile(written.take(i as int)),
            pattern_views(compiled@) == written.take(i as int),
        decreases patterns.len() - i,
    {
        match ExclusionPattern::new(patterns[i].as_str()) {
            Ok(pattern) => {
                proof {
                    assert(pattern@ == written[i as int]);
                    assert(pattern_views(compiled@.push(pattern)) =~= pattern_views(
                        compiled@,
                    ).push(pattern@));
                    assert(written.take(i + 1) =~= written.take(i as int).push(written[i as int]));
                    assert forall|k: int| 0 <= k < i + 1 implies pattern_compiles(
                        #[trigger] written.take(i + 1)[k],
                    ) by {
                        if k < i {
                            assert(written.take(i as int)[k] == written[k]);
                        }
                    }
                }
                compiled.push(pattern);
            },
            Err(error) => {
                proof {
                    assert(first_malformed(written, i as int));
                }
                return Err(error);
            },
        }
        i += 1;
    }
    proof {
        assert(written.take(i as int) =~= written);
    }
    Ok(compiled)
}

} // verus!
