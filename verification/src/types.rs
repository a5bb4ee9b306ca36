//! The data the compression engine works on: rules, domain configurations,
//! configuration switches and results.
use vstd::prelude::*;
use crate::text::{lowercase, lowercase_chars, str_eq, concat_str, copy_string, is_ascii_text, ascii_lower};

verus! {

broadcast use vstd::string::group_string_axioms;

/// Errors of the compression engine.
#[derive(Debug)]
pub enum CoreError {
    /// Reading a rule file failed; the message says why.
    IoError(String),
    /// A domain file is not valid TOML of the expected shape.
    TomlError(String),
    /// A preprocessing pattern is not a valid regular expression.
    RegexError(String),
    /// Any other failure, with its message.
    Other(String),
}

/// The message of an engine error.
pub open spec fn core_error_message(e: CoreError) -> Seq<char> {
    match e {
        CoreError::IoError(m) => "IO error: "@ + m@,
        CoreError::TomlError(m) => "TOML parse error: "@ + m@,
        CoreError::RegexError(m) => "Regex error: "@ + m@,
        CoreError::Other(m) => m@,
    }
}

impl CoreError {
    /// The error's message.
    pub fn message(&self) -> (s: String)
        ensures s@ == core_error_message(*self),
    {
        match self {
            CoreError::IoError(m) => concat_str("IO error: ", m.as_str()),
            CoreError::TomlError(m) => concat_str("TOML parse error: ", m.as_str()),
            CoreError::RegexError(m) => concat_str("Regex error: ", m.as_str()),
            CoreError::Other(m) => copy_string(m),
        }
    }
}

/// The layer a compression rule belongs to.
#[derive(Debug, Clone, Copy, PartialEq, Eq, Hash)]
pub enum RuleLayer {
    Static,
    Domain,
    Learned,
}

/// The name of a rule layer as it is written in rule stores and requests.
pub open spec fn layer_name(layer: RuleLayer) -> Seq<char> {
    match layer {
        RuleLayer::Static => "static"@,
        RuleLayer::Domain => "domain"@,
        RuleLayer::Learned => "learned"@,
    }
}

/// Different layers have different names.
pub proof fn lemma_layer_names_distinct(a: RuleLayer, b: RuleLayer)
    ensures layer_name(a) == layer_name(b) ==> a == b,
{
    reveal_strlit("static");
    reveal_strlit("domain");
    reveal_strlit("learned");
    if a != b {
        assert(layer_name(a)[0] != layer_name(b)[0] || layer_name(a).len() != layer_name(b).len());
    }
}

impl RuleLayer {
    /// The layer's name: `static`, `domain` or `learned`.
    pub fn as_name(&self) -> (s: String)
        ensures s@ == layer_name(*self),
    {
        match self {
            RuleLayer::Static => "static".to_string(),
            RuleLayer::Domain => "domain".to_string(),
            RuleLayer::Learned => "learned".to_string(),
        }
    }

    /// Parses a layer name, ignoring case. A layer's own name parses back to
    /// that layer; on ASCII text, case is ignored the ASCII way.
    pub fn parse(s: &str) -> (r: Result<RuleLayer, CoreError>)
        ensures
            r matches Ok(layer) ==> lowercase_chars(s@) == layer_name(layer),
            is_ascii_text(s@) ==> lowercase_chars(s@) == ascii_lower(s@),
            forall|l: RuleLayer| #[trigger] layer_name(l) == s@ ==> (r matches Ok(x) && x == l),
            r is Err <==> (lowercase_chars(s@) != "static"@ && lowercase_chars(s@) != "domain"@
                && lowercase_chars(s@) != "learned"@),
            r matches Err(CoreError::Other(msg)) ==> msg@ == "unknown rule layer: "@ + lowercase_chars(s@),
            r matches Err(e) ==> e is Other,
    {
        let lower = lowercase(s);
        proof {
            reveal_strlit("static");
            reveal_strlit("domain");
            reveal_strlit("learned");
            assert forall|l: RuleLayer| #[trigger] layer_name(l) == s@ implies lower@ == layer_name(l) by {
                assert(is_ascii_text(s@));
                assert(ascii_lower(s@) =~= s@);
            }
            assert forall|l: RuleLayer| #[trigger] layer_name(l) == s@ implies
                (l == RuleLayer::Static && lower@ == "static"@)
                || (l == RuleLayer::Domain && lower@ == "domain"@ && lower@ != "static"@)
                || (l == RuleLayer::Learned && lower@ == "learned"@ && lower@ != "static"@ && lower@ != "domain"@) by {
                lemma_layer_names_distinct(l, RuleLayer::Static);
                lemma_layer_names_distinct(l, RuleLayer::Domain);
                match l {
                    RuleLayer::Static => {},
                    RuleLayer::Domain => {},
                    RuleLayer::Learned => {},
                }
            }
        }
        if str_eq(lower.as_str(), "static") {
            Ok(RuleLayer::Static)
        } else if str_eq(lower.as_str(), "domain") {
            Ok(RuleLayer::Domain)
        } else if str_eq(lower.as_str(), "learned") {
            Ok(RuleLayer::Learned)
        } else {
            Err(CoreError::Other(concat_str("unknown rule layer: ", lower.as_str())))
        }
    }
}

/// A compression rule: occurrences of `pattern` are replaced by `replacement`.
#[derive(Debug, Clone)]
pub struct Rule {
    pub id: String,
    pub pattern: String,
    pub replacement: String,
    pub layer: RuleLayer,
    pub domain: Option<String>,
    pub samples: i64,
    pub enabled: bool,
    pub priority: i32,
}

impl Default for Rule {
    fn default() -> (r: Rule)
        ensures
            r.id@.len() == 0, r.pattern@.len() == 0, r.replacement@.len() == 0,
            r.layer == RuleLayer::Static, r.domain is None, r.samples == 0,
            r.enabled, r.priority == 0,
    {
        Rule {
            id: String::new(),
            pattern: String::new(),
            replacement: String::new(),
            layer: RuleLayer::Static,
            domain: None,
            samples: 0,
            enabled: true,
            priority: 0,
        }
    }
}

/// What compression reads of a rule: id, pattern, replacement, priority,
/// whether it is enabled, and the domain it belongs to.
pub type RuleView = (Seq<char>, Seq<char>, Seq<char>, int, bool, Option<Seq<char>>);

/// The compression-relevant view of a rule.
pub open spec fn rule_view(r: Rule) -> RuleView {
    (r.id@, r.pattern@, r.replacement@, r.priority as int, r.enabled, match r.domain {
        Some(d) => Some(d@),
        None => None,
    })
}

/// A domain: keywords that detect it, terms that are never compressed, and
/// its own replacement rules.
#[derive(Debug, Clone)]
pub struct DomainConfig {
    pub name: String,
    pub description: String,
    pub keywords: Vec<String>,
    pub protected_terms: Vec<String>,
    pub rules: Vec<DomainRule>,
}

/// A replacement rule of a domain.
#[derive(Debug, Clone)]
pub struct DomainRule {
    pub pattern: String,
    pub replacement: String,
}

/// The outcome of compressing one text.
#[derive(Debug, Clone)]
pub struct CompressionResult {
    pub text: String,
    pub original_tokens: usize,
    pub compressed_tokens: usize,
    pub rules_applied: Vec<String>,
    pub domain_detected: Option<String>,
}

/// Which rule layers take part in compression.
#[derive(Debug, Clone, Copy, PartialEq, Eq)]
pub struct LayersEnabled {
    pub static_enabled: bool,
    pub domain_enabled: bool,
    pub learned_enabled: bool,
}

impl Default for LayersEnabled {
    fn default() -> (r: LayersEnabled)
        ensures r.static_enabled && r.domain_enabled && r.learned_enabled,
    {
        LayersEnabled { static_enabled: true, domain_enabled: true, learned_enabled: true }
    }
}

/// The configuration a compressor is built with.
#[derive(Debug, Clone)]
pub struct CompressorConfig {
    pub min_samples: i64,
    pub languages: Vec<String>,
    pub layers_enabled: LayersEnabled,
}

/// The languages enabled by default.
pub open spec fn default_language_codes() -> Seq<Seq<char>> {
    seq!["en"@, "ru"@, "es"@, "de"@, "fr"@, "pt"@, "zh"@, "ja"@, "ko"@, "ar"@, "hi"@]
}

impl Default for CompressorConfig {
    fn default() -> (r: CompressorConfig)
        ensures
            r.min_samples == 10,
            r.languages@.map_values(|s: String| s@) == default_language_codes(),
            r.layers_enabled.static_enabled && r.layers_enabled.domain_enabled && r.layers_enabled.learned_enabled,
    {
        let languages = vec![
            "en".to_string(), "ru".to_string(), "es".to_string(), "de".to_string(),
            "fr".to_string(), "pt".to_string(), "zh".to_string(), "ja".to_string(),
            "ko".to_string(), "ar".to_string(), "hi".to_string(),
        ];
        assert(languages@.map_values(|s: String| s@) =~= default_language_codes());
        CompressorConfig { min_samples: 10, languages, layers_enabled: LayersEnabled::default() }
    }
}

/// How aggressively a message is compressed.
#[derive(Debug, Clone, Copy, PartialEq, Eq)]
pub enum CompressionLevel {
    /// Leave the text as it is.
    Skip,
    /// Only the preprocessor runs.
    Light,
    /// The preprocessor and the rule replacements run.
    Normal,
}

} // verus!
