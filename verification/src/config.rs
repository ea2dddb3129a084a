//! Configuration types for the chunking pipeline.

use vstd::prelude::*;
use vstd::string::StringExecFns;

verus! {

/// Path patterns whose matches are excluded from a scan.
#[derive(Debug)]
pub struct IgnorePatterns {
    pub patterns: Vec<String>,
}

impl Default for IgnorePatterns {
    fn default() -> (r: Self)
        ensures
            r.patterns@.len() == 0,
    {
        IgnorePatterns { patterns: Vec::new() }
    }
}

/// One static scoring rule: files whose path matches `pattern` are offered
/// `score` as a candidate priority.
#[derive(Debug, Clone)]
pub struct PriorityRule {
    pub pattern: String,
    pub score: i32,
}

/// Whether the pattern text `pat`, read as a regular expression, matches
/// `text`. An invalid pattern matches nothing.
pub uninterp spec fn regex_match_of(pat: Seq<char>, text: Seq<char>) -> bool;

/// Whether the pattern text `pat` is a valid regular expression.
pub uninterp spec fn regex_valid(pat: Seq<char>) -> bool;

/// Relies on `regex::Regex::new` and `regex::Regex::is_match`: compilation
/// succeeds or fails on the pattern alone, and a compiled pattern matches a
/// haystack as a function of the two texts alone. Returns `None` when the
/// pattern does not compile.
#[verifier::external_body]
fn regex_try_match(pat: &str, text: &str) -> (r: Option<bool>)
    ensures
        r is Some <==> regex_valid(pat@),
        r is Some ==> r->0 == regex_match_of(pat@, text@),
{
    match regex::Regex::new(pat) {
        Ok(re) => Some(re.is_match(text)),
        Err(_) => None,
    }
}

impl PriorityRule {
    /// Whether this rule's pattern, read as a regular expression, matches
    /// `path`; a pattern that is not a valid expression matches nothing.
    pub fn matches(&self, path: &str) -> (r: bool)
        ensures
            r == (regex_valid(self.pattern@) && regex_match_of(self.pattern@, path@)),
    {
        match regex_try_match(self.pattern.as_str(), path) {
            Some(b) => b,
            None => false,
        }
    }
}

/// The configuration the pipeline consumes: scan exclusions, scoring rules,
/// binary-extension overrides, chunk capacity and measurement mode, and the
/// output destination.
#[derive(Debug, Clone)]
pub struct YekConfig {
    pub ignore_patterns: Vec<String>,
    pub priority_rules: Vec<PriorityRule>,
    pub binary_extensions: Vec<String>,
    pub max_size: Option<usize>,
    pub output_dir: Option<String>,
    pub stream: bool,
    pub token_mode: bool,
}

impl Default for YekConfig {
    fn default() -> (r: Self)
        ensures
            r.ignore_patterns@.len() == 0,
            r.priority_rules@.len() == 0,
            r.binary_extensions@.len() == 0,
            r.max_size is None,
            r.output_dir is None,
            !r.stream,
            !r.token_mode,
    {
        YekConfig {
            ignore_patterns: Vec::new(),
            priority_rules: Vec::new(),
            binary_extensions: Vec::new(),
            max_size: None,
            output_dir: None,
            stream: false,
            token_mode: false,
        }
    }
}

/// A problem found in the configuration: the field at fault and a message.
#[derive(Debug)]
pub struct ConfigError {
    pub field: String,
    pub message: String,
}

/// The message flagging a rule score outside the accepted range.
pub open spec fn score_message(score: int) -> Seq<char> {
    "Priority score "@ + crate::digits::spec_dec_i64(score) + " must be between 0 and 1000"@
}

/// The errors one rule contributes: a score outside `[0, 1000]`, and an
/// empty pattern.
pub open spec fn spec_rule_errors(rules: Seq<PriorityRule>, i: int) -> Seq<(Seq<char>, Seq<char>)>
    decreases i,
{
    if i <= 0 {
        Seq::empty()
    } else {
        let rule = rules[i - 1];
        let score_errs: Seq<(Seq<char>, Seq<char>)> = if rule.score < 0 || rule.score > 1000 {
            seq![("priority_rules"@, score_message(rule.score as int))]
        } else {
            Seq::empty()
        };
        let pattern_errs: Seq<(Seq<char>, Seq<char>)> = if rule.pattern@.len() == 0 {
            seq![("priority_rules"@, "Priority rule must have a pattern"@)]
        } else {
            Seq::empty()
        };
        spec_rule_errors(rules, i - 1) + score_errs + pattern_errs
    }
}

/// Every error that validation reports for this configuration, in order:
/// the per-rule errors, then a zero `max_size`.
pub open spec fn spec_validate(config: YekConfig) -> Seq<(Seq<char>, Seq<char>)> {
    let rule_errs = spec_rule_errors(config.priority_rules@, config.priority_rules@.len() as int);
    let size_errs: Seq<(Seq<char>, Seq<char>)> = if config.max_size == Some(0usize) {
        seq![("max_size"@, "Max size cannot be 0"@)]
    } else {
        Seq::empty()
    };
    rule_errs + size_errs
}

/// Validates the configuration's values, returning every problem found:
/// rule scores outside `[0, 1000]`, empty rule patterns, and a zero
/// `max_size`, each with its message. Whether the output destination is
/// usable is for the caller that owns the file system to check.
pub fn validate_config(config: &YekConfig) -> (errors: Vec<ConfigError>)
    ensures
        errors@.map_values(|e: ConfigError| (e.field@, e.message@)) == spec_validate(*config),
{
    let ghost rules = config.priority_rules@;
    let mut errors: Vec<ConfigError> = Vec::new();
    proof {
        assert(errors@.map_values(|e: ConfigError| (e.field@, e.message@)) =~~= spec_rule_errors(
            rules,
            0,
        ));
    }
    let mut i: usize = 0;
    while i < config.priority_rules.len()
        invariant
            i <= rules.len(),
            rules == config.priority_rules@,
            errors@.map_values(|e: ConfigError| (e.field@, e.message@)) == spec_rule_errors(
                rules,
                i as int,
            ),
        decreases rules.len() - i,
    {
        let score: i32 = config.priority_rules[i].score;
        if score < 0 || score > 1000 {
            let mut message: String = String::from_str("Priority score ");
            crate::digits::push_i64_dec(&mut message, score as i64);
            message.append(" must be between 0 and 1000");
            let field: String = String::from_str("priority_rules");
            proof {
                assert(message@ =~= score_message(score as int));
            }
            errors.push(ConfigError { field, message });
        }
        let ghost mid = errors@;
        proof {
            assert(mid.map_values(|e: ConfigError| (e.field@, e.message@)) =~~= spec_rule_errors(
                rules,
                i as int,
            ) + (if rules[i as int].score < 0 || rules[i as int].score > 1000 {
                seq![("priority_rules"@, score_message(rules[i as int].score as int))]
            } else {
                Seq::<(Seq<char>, Seq<char>)>::empty()
            }));
        }
        if config.priority_rules[i].pattern.as_str().is_empty() {
            let field: String = String::from_str("priority_rules");
            let message: String = String::from_str("Priority rule must have a pattern");
            errors.push(ConfigError { field, message });
        }
        proof {
            assert(errors@.map_values(|e: ConfigError| (e.field@, e.message@)) =~~= mid.map_values(
                |e: ConfigError| (e.field@, e.message@),
            ) + (if rules[i as int].pattern@.len() == 0 {
                seq![("priority_rules"@, "Priority rule must have a pattern"@)]
            } else {
                Seq::<(Seq<char>, Seq<char>)>::empty()
            }));
            assert(errors@.map_values(|e: ConfigError| (e.field@, e.message@))
                =~~= spec_rule_errors(rules, i + 1));
        }
        i = i + 1;
    }
    let ghost rule_part = errors@;
    match config.max_size {
        Some(s) => if s == 0 {
            let field: String = String::from_str("max_size");
            let message: String = String::from_str("Max size cannot be 0");
            errors.push(ConfigError { field, message });
        },
        None => {},
    }
    proof {
        assert(errors@.map_values(|e: ConfigError| (e.field@, e.message@)) =~~= spec_validate(
            *config,
        ));
    }
    errors
}

} // verus!
