use sqz::boundary::is_word_boundary;
use sqz::code_fence::{find_protected_regions, is_in_protected_region, is_in_any_protected_region, ProtectedRegion};
use sqz::compressor::{learned_layer_rules, Compressor};
use sqz::domain_detector::detect_domain;
use sqz::layer1_static::StaticLayer;
use sqz::layer2_domain::DomainLayer;
use sqz::preprocessor::{Preprocessor, PreprocessorConfig};
use sqz::token_counter::TokenCounter;
use sqz::types::{
    CompressionLevel, CompressorConfig, CoreError, DomainConfig, DomainRule, LayersEnabled, Rule, RuleLayer,
};

// ---------------------------------------------------------------------------
// Protected regions
// ---------------------------------------------------------------------------

#[test]
fn test_fenced_code_block() {
    let text = "before\n```rust\nfn main() {}\n```\nafter";
    let regions = find_protected_regions(text);
    assert_eq!(regions.len(), 1);
    assert!(is_in_protected_region(10, &regions));
    assert!(!is_in_protected_region(0, &regions));
}

#[test]
fn test_inline_code() {
    let text = "use `cargo build` to compile";
    let regions = find_protected_regions(text);
    assert_eq!(regions.len(), 1);
    let r = &regions[0];
    assert_eq!(&text[r.start..r.end], "`cargo build`");
}

#[test]
fn test_json_block() {
    let text = r#"config: {"key": "value", "nested": {"a": 1}} done"#;
    let regions = find_protected_regions(text);
    assert_eq!(regions.len(), 1);
    assert!(regions[0].start < regions[0].end);
}

#[test]
fn test_no_protected_regions() {
    let text = "just plain text without any special blocks";
    let regions = find_protected_regions(text);
    assert!(regions.is_empty());
}

#[test]
fn test_is_in_protected_region_boundary() {
    let regions = vec![ProtectedRegion { start: 5, end: 10 }];
    assert!(!is_in_protected_region(4, &regions));
    assert!(is_in_protected_region(5, &regions));
    assert!(is_in_protected_region(9, &regions));
    assert!(!is_in_protected_region(10, &regions));
}

#[test]
fn unclosed_fence_protects_to_end() {
    let text = "intro\n```\nplease keep";
    let regions = find_protected_regions(text);
    assert_eq!(regions.len(), 1);
    assert_eq!(regions[0].start, 6);
    assert_eq!(regions[0].end, text.len());
}

#[test]
fn json_block_exact_span() {
    let text = "a {\"k\": \"}\"} b";
    let regions = find_protected_regions(text);
    assert_eq!(regions.len(), 1);
    assert_eq!(&text[regions[0].start..regions[0].end], "{\"k\": \"}\"}");
}

#[test]
fn overlap_is_half_open() {
    let regions = vec![ProtectedRegion { start: 5, end: 10 }];
    assert!(!is_in_any_protected_region(0, 5, &regions));
    assert!(is_in_any_protected_region(0, 6, &regions));
    assert!(is_in_any_protected_region(9, 12, &regions));
    assert!(!is_in_any_protected_region(10, 12, &regions));
}

// ---------------------------------------------------------------------------
// Word boundaries
// ---------------------------------------------------------------------------

#[test]
fn test_is_word_boundary() {
    let text = b"hello world";
    assert!(is_word_boundary(text, 0, 5));
    assert!(is_word_boundary(text, 6, 11));
    assert!(!is_word_boundary(text, 1, 4));
}

#[test]
fn test_is_word_boundary_cyrillic() {
    let text = "привет просто мир".as_bytes();
    let start = "привет ".len();
    let end = start + "просто".len();
    assert!(is_word_boundary(text, start, end));
}

#[test]
fn test_is_word_boundary_cyrillic_no_space() {
    let text = "приветпростомир".as_bytes();
    let start = "привет".len();
    let end = start + "просто".len();
    assert!(!is_word_boundary(text, start, end));
}

#[test]
fn unicode_punctuation_is_a_boundary() {
    let text = "«просто»".as_bytes();
    let start = "«".len();
    let end = start + "просто".len();
    assert!(is_word_boundary(text, start, end));
}

#[test]
fn ascii_punctuation_boundaries() {
    let text = b"(just)";
    assert!(is_word_boundary(text, 1, 5));
    let text = b"x_just_y";
    assert!(is_word_boundary(text, 2, 6));
    let text = b"xjusty";
    assert!(!is_word_boundary(text, 1, 5));
}

// ---------------------------------------------------------------------------
// Domain detection
// ---------------------------------------------------------------------------

fn make_domains() -> Vec<DomainConfig> {
    vec![
        DomainConfig {
            name: "code".to_string(),
            description: "Programming".to_string(),
            keywords: vec!["function".to_string(), "class".to_string(), "variable".to_string()],
            protected_terms: vec![],
            rules: vec![],
        },
        DomainConfig {
            name: "legal".to_string(),
            description: "Legal".to_string(),
            keywords: vec!["contract".to_string(), "clause".to_string(), "liability".to_string()],
            protected_terms: vec![],
            rules: vec![],
        },
    ]
}

#[test]
fn test_detect_code_domain() {
    let domains = make_domains();
    let text = "Write a function that takes a variable and returns a class instance";
    assert_eq!(detect_domain(text, &domains), Some("code".to_string()));
}

#[test]
fn test_detect_legal_domain() {
    let domains = make_domains();
    let text = "The contract includes a clause about liability for damages";
    assert_eq!(detect_domain(text, &domains), Some("legal".to_string()));
}

#[test]
fn test_no_domain_detected() {
    let domains = make_domains();
    let text = "Hello world, how are you today?";
    assert_eq!(detect_domain(text, &domains), None);
}

#[test]
fn test_minimum_hits_required() {
    let domains = make_domains();
    let text = "This function does something";
    assert_eq!(detect_domain(text, &domains), None);
}

#[test]
fn test_case_insensitive() {
    let domains = make_domains();
    let text = "A FUNCTION with a VARIABLE and a CLASS";
    assert_eq!(detect_domain(text, &domains), Some("code".to_string()));
}

#[test]
fn detection_counts_without_overlap() {
    let domains = vec![DomainConfig {
        name: "x".to_string(),
        description: String::new(),
        keywords: vec!["aa".to_string()],
        protected_terms: vec![],
        rules: vec![],
    }];
    // "aaa" holds one non-overlapping "aa"; "aaaa" holds two.
    assert_eq!(detect_domain("aaa", &domains), None);
    assert_eq!(detect_domain("aaaa", &domains), Some("x".to_string()));
}

#[test]
fn detection_tie_goes_to_first_domain() {
    let domains = make_domains();
    let text = "function class contract clause";
    assert_eq!(detect_domain(text, &domains), Some("code".to_string()));
}

// ---------------------------------------------------------------------------
// Static layer
// ---------------------------------------------------------------------------

#[test]
fn test_load_from_strings() {
    let lines = vec!["please".to_string(), "could you please".to_string(), "just".to_string()];
    let layer = StaticLayer::load_from_strings(&lines);
    let rules = layer.rules();
    assert_eq!(rules.len(), 3);
    assert_eq!(rules[0].pattern, "could you please");
    assert_eq!(rules[1].pattern, "please");
    assert_eq!(rules[2].pattern, "just");
}

#[test]
fn test_empty_replacement() {
    let lines = vec!["basically".to_string()];
    let layer = StaticLayer::load_from_strings(&lines);
    let rules = layer.rules();
    assert_eq!(rules[0].replacement, "");
}

#[test]
fn test_dedup() {
    let lines = vec!["please".to_string(), "Please".to_string()];
    let layer = StaticLayer::load_from_strings(&lines);
    let rules = layer.rules();
    assert_eq!(rules.len(), 1);
}

#[test]
fn static_rules_skip_blank_lines_and_parse_arrows() {
    let lines = vec![
        "   ".to_string(),
        "".to_string(),
        "  In Order To -> to  ".to_string(),
    ];
    let layer = StaticLayer::load_from_strings(&lines);
    let rules = layer.rules();
    assert_eq!(rules.len(), 1);
    assert_eq!(rules[0].pattern, "in order to");
    assert_eq!(rules[0].replacement, "to");
    assert_eq!(rules[0].id, "static-0");
    assert_eq!(rules[0].priority, 100);
    assert_eq!(rules[0].layer, RuleLayer::Static);
    assert!(rules[0].enabled);
}

#[test]
fn static_rules_equal_length_in_byte_order() {
    let lines = vec!["bb".to_string(), "ab".to_string()];
    let layer = StaticLayer::load_from_strings(&lines);
    let rules = layer.rules();
    assert_eq!(rules[0].pattern, "ab");
    assert_eq!(rules[1].pattern, "bb");
}

// ---------------------------------------------------------------------------
// Domain layer
// ---------------------------------------------------------------------------

fn sample_config() -> DomainConfig {
    DomainConfig {
        name: "test".to_string(),
        description: "Test domain".to_string(),
        keywords: vec!["keyword1".to_string()],
        protected_terms: vec!["protect me".to_string()],
        rules: vec![DomainRule { pattern: "long pattern".to_string(), replacement: "short".to_string() }],
    }
}

#[test]
fn test_load_from_configs() {
    let layer = DomainLayer::load_from_configs(vec![sample_config()]);
    assert_eq!(layer.domains().len(), 1);
    assert!(layer.get_domain("test").is_some());
}

#[test]
fn test_rules_for_domain() {
    let layer = DomainLayer::load_from_configs(vec![sample_config()]);
    let rules = layer.rules_for_domain("test");
    assert_eq!(rules.len(), 1);
    assert_eq!(rules[0].replacement, "short");
    assert_eq!(rules[0].layer, RuleLayer::Domain);
}

#[test]
fn test_protected_terms() {
    let layer = DomainLayer::load_from_configs(vec![sample_config()]);
    let terms = layer.protected_terms("test");
    assert_eq!(terms, vec!["protect me"]);
}

#[test]
fn test_unknown_domain() {
    let layer = DomainLayer::load_from_configs(vec![sample_config()]);
    assert!(layer.get_domain("nope").is_none());
    assert!(layer.rules_for_domain("nope").is_empty());
    assert!(layer.protected_terms("nope").is_empty());
}

#[test]
fn domain_rule_ids_and_lowercased_patterns() {
    let mut c = sample_config();
    c.rules.push(DomainRule { pattern: "Second ONE".to_string(), replacement: "2".to_string() });
    let layer = DomainLayer::load_from_configs(vec![c]);
    let rules = layer.rules_for_domain("test");
    assert_eq!(rules[1].id, "domain-test-1");
    assert_eq!(rules[1].pattern, "second one");
    assert_eq!(rules[1].priority, 200);
    assert_eq!(rules[1].domain, Some("test".to_string()));
}

#[test]
fn later_config_with_same_name_replaces_earlier() {
    let mut second = sample_config();
    second.description = "second".to_string();
    let layer = DomainLayer::load_from_configs(vec![sample_config(), second]);
    assert_eq!(layer.domains().len(), 1);
    assert_eq!(layer.get_domain("test").unwrap().description, "second");
}

// ---------------------------------------------------------------------------
// Token counting
// ---------------------------------------------------------------------------

#[test]
fn test_token_count_basic() {
    let counter = TokenCounter::new();
    let count = counter.count("hello world");
    assert!(count > 0);
}

#[test]
fn test_empty_string() {
    let counter = TokenCounter::new();
    assert_eq!(counter.count(""), 0);
}

#[test]
fn test_consistent_counts() {
    let counter = TokenCounter::new();
    let text = "The quick brown fox jumps over the lazy dog";
    let c1 = counter.count(text);
    let c2 = counter.count(text);
    assert_eq!(c1, c2);
}

#[test]
fn token_count_of_known_text() {
    let counter = TokenCounter::new();
    assert_eq!(counter.count("hello world"), 2);
}

// ---------------------------------------------------------------------------
// Rule layer names
// ---------------------------------------------------------------------------

#[test]
fn rule_layer_names_round_trip() {
    assert_eq!(RuleLayer::Learned.as_name(), "learned");
    assert_eq!(RuleLayer::parse("DOMAIN").unwrap(), RuleLayer::Domain);
    match RuleLayer::parse("bogus") {
        Err(CoreError::Other(msg)) => assert_eq!(msg, "unknown rule layer: bogus"),
        _ => panic!("expected an error"),
    }
}

// ---------------------------------------------------------------------------
// Preprocessor
// ---------------------------------------------------------------------------

fn build_full_preprocessor() -> Preprocessor {
    Preprocessor::build(&PreprocessorConfig::default()).unwrap()
}

#[test]
fn test_md_heading_removal() {
    let p = build_full_preprocessor();
    let result = p.process("## Hello World");
    assert_eq!(result.text, "Hello World");
    assert!(result.rules_applied.contains(&"struct-md-heading".to_string()));
}

#[test]
fn test_md_bold() {
    let p = build_full_preprocessor();
    let result = p.process("This is **bold** text");
    assert_eq!(result.text, "This is bold text");
}

#[test]
fn test_md_italic() {
    let p = build_full_preprocessor();
    let result = p.process("This is *italic* text");
    assert_eq!(result.text, "This is italic text");
}

#[test]
fn test_md_link() {
    let p = build_full_preprocessor();
    let result = p.process("See [docs](https://example.com) for more");
    assert_eq!(result.text, "See docs for more");
}

#[test]
fn test_bare_url_removal() {
    let p = build_full_preprocessor();
    let result = p.process("Visit https://example.com/foo for info");
    assert!(!result.text.contains("https://"));
}

#[test]
fn test_html_entities() {
    let p = build_full_preprocessor();
    let result = p.process("hello&nbsp;world &mdash; test &ndash; end");
    assert_eq!(result.text, "hello world — test – end");
}

#[test]
fn test_protected_code_fence() {
    let p = build_full_preprocessor();
    let text = "## Title\n```\n## Not a heading\n```\n## Another";
    let result = p.process(text);
    assert!(result.text.contains("## Not a heading"));
    assert!(!result.text.starts_with("## "));
}

#[test]
fn test_protected_inline_code() {
    let p = build_full_preprocessor();
    let result = p.process("Use `**not bold**` for emphasis");
    assert!(result.text.contains("`**not bold**`"));
}

#[test]
fn test_blank_line_collapse() {
    let p = build_full_preprocessor();
    let result = p.process("a\n\n\n\nb");
    assert_eq!(result.text, "a\n\nb");
}

#[test]
fn test_checkbox_removal() {
    let p = build_full_preprocessor();
    let result = p.process("- [x] Done\n- [ ] Todo");
    assert_eq!(result.text, "Done\nTodo");
}

#[test]
fn test_disabled_preprocessor() {
    let p = Preprocessor::build(&PreprocessorConfig {
        enabled: true,
        structural_enabled: false,
        semantic_enabled: false,
    })
    .unwrap();
    let result = p.process("## Heading **bold**");
    assert_eq!(result.text, "## Heading **bold**");
}

#[test]
fn test_md_escape() {
    let p = build_full_preprocessor();
    let result = p.process(r"This is \*not italic\*");
    assert_eq!(result.text, "This is not italic");
    assert!(result.rules_applied.contains(&"struct-md-escape".to_string()));
}

#[test]
fn test_hr_removal() {
    let p = build_full_preprocessor();
    let result = p.process("above\n---\nbelow");
    assert_eq!(result.text, "above\n\nbelow");
}

#[test]
fn preprocessor_list_paren_and_ids_in_order() {
    let p = build_full_preprocessor();
    let result = p.process("1) first\n**b**");
    assert_eq!(result.text, "1. first\nb");
    assert_eq!(result.rules_applied, vec!["struct-md-bold".to_string(), "struct-list-paren".to_string()]);
}

#[test]
fn preprocessor_leaves_empty_text() {
    let p = build_full_preprocessor();
    let result = p.process("");
    assert_eq!(result.text, "");
    assert!(result.rules_applied.is_empty());
}

// ---------------------------------------------------------------------------
// Compressor
// ---------------------------------------------------------------------------

fn build_test_compressor() -> Compressor {
    let static_lines = vec!["please".to_string(), "could you please".to_string(), "just".to_string()];
    let static_layer = StaticLayer::load_from_strings(&static_lines);
    let domain_layer = DomainLayer::load_from_configs(vec![DomainConfig {
        name: "code".to_string(),
        description: "Code".to_string(),
        keywords: vec!["function".to_string(), "class".to_string()],
        protected_terms: vec![],
        rules: vec![DomainRule { pattern: "write a function that".to_string(), replacement: "function:".to_string() }],
    }]);
    let config = CompressorConfig {
        min_samples: 10,
        languages: vec!["en".to_string()],
        layers_enabled: LayersEnabled { static_enabled: true, domain_enabled: true, learned_enabled: true },
    };
    Compressor::build(static_layer.rules(), &domain_layer, vec![], config).unwrap()
}

fn ratio(original: usize, compressed: usize) -> f64 {
    if original > 0 {
        compressed as f64 / original as f64
    } else {
        1.0
    }
}

#[test]
fn test_basic_compression() {
    let c = build_test_compressor();
    let result = c.compress("Could you please write a function that adds two numbers", None);
    assert!(result.text.contains("function:"));
    assert!(!result.text.to_lowercase().contains("could you please"));
    assert!(!result.rules_applied.is_empty());
}

#[test]
fn test_empty_input() {
    let c = build_test_compressor();
    let result = c.compress("", None);
    assert_eq!(result.text, "");
    assert_eq!(result.original_tokens, 0);
}

#[test]
fn test_no_matches() {
    let c = build_test_compressor();
    let result = c.compress("hello world", None);
    assert_eq!(result.text, "hello world");
}

#[test]
fn test_protected_code_block() {
    let c = build_test_compressor();
    let text = "```\nplease just do it\n```";
    let result = c.compress(text, None);
    assert!(result.text.contains("please"));
}

#[test]
fn test_word_boundary() {
    let c = build_test_compressor();
    let result = c.compress("make an adjustment here", None);
    assert!(result.text.contains("adjustment"));
}

#[test]
fn test_compression_ratio() {
    let c = build_test_compressor();
    let result = c.compress("Could you please just write a function that does something simple", None);
    assert!(ratio(result.original_tokens, result.compressed_tokens) <= 1.0);
    assert!(result.original_tokens > 0);
}

#[test]
fn test_russian_compression() {
    let static_lines = vec!["пожалуйста".to_string(), "просто".to_string()];
    let static_layer = StaticLayer::load_from_strings(&static_lines);
    let domain_layer = DomainLayer::load_from_configs(vec![]);
    let mut config = CompressorConfig::default();
    config.languages = vec!["ru".to_string()];
    let c = Compressor::build(static_layer.rules(), &domain_layer, vec![], config).unwrap();
    let result = c.compress("пожалуйста просто сделай это", None);
    assert!(!result.text.contains("пожалуйста"));
    assert!(!result.text.contains("просто"));
    assert!(result.text.contains("сделай"));
    assert!(!result.rules_applied.is_empty());
}

#[test]
fn test_spanish_compression() {
    let static_lines = vec!["por favor".to_string(), "realmente".to_string()];
    let static_layer = StaticLayer::load_from_strings(&static_lines);
    let domain_layer = DomainLayer::load_from_configs(vec![]);
    let config = CompressorConfig::default();
    let c = Compressor::build(static_layer.rules(), &domain_layer, vec![], config).unwrap();
    let result = c.compress("por favor realmente hazlo", None);
    assert!(!result.text.contains("por favor"));
    assert!(!result.text.contains("realmente"));
    assert!(result.text.contains("hazlo"));
}

#[test]
fn test_german_compression() {
    let static_lines = vec!["bitte".to_string(), "wirklich".to_string()];
    let static_layer = StaticLayer::load_from_strings(&static_lines);
    let domain_layer = DomainLayer::load_from_configs(vec![]);
    let config = CompressorConfig::default();
    let c = Compressor::build(static_layer.rules(), &domain_layer, vec![], config).unwrap();
    let result = c.compress("bitte wirklich mach das", None);
    assert!(!result.text.contains("bitte"));
    assert!(!result.text.contains("wirklich"));
    assert!(result.text.contains("mach das"));
}

#[test]
fn test_french_compression() {
    let static_lines = vec!["s'il vous plaît".to_string(), "vraiment".to_string()];
    let static_layer = StaticLayer::load_from_strings(&static_lines);
    let domain_layer = DomainLayer::load_from_configs(vec![]);
    let config = CompressorConfig::default();
    let c = Compressor::build(static_layer.rules(), &domain_layer, vec![], config).unwrap();
    let result = c.compress("s'il vous plaît vraiment faites-le", None);
    assert!(!result.text.contains("s'il vous plaît"));
    assert!(!result.text.contains("vraiment"));
    assert!(result.text.contains("faites-le"));
}

#[test]
fn test_unicode_punctuation_boundary() {
    let static_lines = vec!["просто".to_string()];
    let static_layer = StaticLayer::load_from_strings(&static_lines);
    let domain_layer = DomainLayer::load_from_configs(vec![]);
    let config = CompressorConfig::default();
    let c = Compressor::build(static_layer.rules(), &domain_layer, vec![], config).unwrap();
    let result = c.compress("это «просто» тест", None);
    assert!(!result.text.contains("просто"));
}

#[test]
fn test_compress_with_level_skip() {
    let c = build_test_compressor();
    let text = "Could you please just do it";
    let result = c.compress_with_level(text, None, CompressionLevel::Skip);
    assert_eq!(result.text, text);
    assert_eq!(ratio(result.original_tokens, result.compressed_tokens), 1.0);
    assert!(result.rules_applied.is_empty());
}

#[test]
fn test_compress_with_level_normal() {
    let c = build_test_compressor();
    let text = "Could you please just do it";
    let normal = c.compress_with_level(text, None, CompressionLevel::Normal);
    let direct = c.compress(text, None);
    assert_eq!(normal.text, direct.text);
    assert_eq!(normal.rules_applied, direct.rules_applied);
}

#[test]
fn test_compress_with_level_light_no_preprocessor() {
    let c = build_test_compressor();
    let text = "## Heading with **bold** and please remove this";
    let result = c.compress_with_level(text, None, CompressionLevel::Light);
    assert_eq!(result.text, text);
    assert!(result.rules_applied.is_empty());
}

fn build_test_compressor_with_preprocessor() -> Compressor {
    let static_lines = vec!["please".to_string(), "could you please".to_string(), "just".to_string()];
    let static_layer = StaticLayer::load_from_strings(&static_lines);
    let domain_layer = DomainLayer::load_from_configs(vec![]);
    let config = CompressorConfig::default();
    let pp = Preprocessor::build(&PreprocessorConfig::default()).unwrap();
    Compressor::build_with_preprocessor(static_layer.rules(), &domain_layer, vec![], config, Some(pp)).unwrap()
}

#[test]
fn test_compress_with_level_light_with_preprocessor() {
    let c = build_test_compressor_with_preprocessor();
    let text = "## Please just do **something**";
    let result = c.compress_with_level(text, None, CompressionLevel::Light);
    assert!(!result.text.contains("##"));
    assert!(!result.text.contains("**"));
    assert!(result.text.to_lowercase().contains("please"));
    assert!(result.text.to_lowercase().contains("just"));
}

#[test]
fn test_compress_with_level_normal_with_preprocessor() {
    let c = build_test_compressor_with_preprocessor();
    let text = "## Please just do **something**";
    let result = c.compress_with_level(text, None, CompressionLevel::Normal);
    assert!(!result.text.contains("##"));
    assert!(!result.text.contains("**"));
    assert!(!result.text.to_lowercase().contains("please"));
    assert!(!result.text.to_lowercase().contains("just"));
    assert!(result.text.contains("do"));
    assert!(result.text.contains("something"));
}

#[test]
fn test_arrow_replacement_in_compression() {
    let static_lines = vec!["in order to -> to".to_string(), "due to the fact that -> because".to_string()];
    let static_layer = StaticLayer::load_from_strings(&static_lines);
    let domain_layer = DomainLayer::load_from_configs(vec![]);
    let config = CompressorConfig::default();
    let c = Compressor::build(static_layer.rules(), &domain_layer, vec![], config).unwrap();
    let result = c.compress("in order to succeed due to the fact that it matters", None);
    assert!(result.text.contains("to succeed"));
    assert!(result.text.contains("because it matters"));
    assert!(!result.text.contains("in order to"));
    assert!(!result.text.contains("due to the fact that"));
}

#[test]
fn compression_exact_text_and_rule_ids() {
    let c = build_test_compressor();
    let result = c.compress("Could you please write a function that adds two numbers", None);
    assert_eq!(result.text, "function: adds two numbers");
    assert_eq!(result.rules_applied, vec!["static-0".to_string(), "domain-code-0".to_string()]);
    assert_eq!(result.domain_detected, None);
    let counter = TokenCounter::new();
    assert_eq!(result.compressed_tokens, counter.count(&result.text));
    assert_eq!(result.original_tokens, counter.count("Could you please write a function that adds two numbers"));
}

#[test]
fn compression_reports_hint_and_detected_domain() {
    let c = build_test_compressor();
    let hinted = c.compress("hello there", Some("legal"));
    assert_eq!(hinted.domain_detected, Some("legal".to_string()));
    let detected = c.compress("a function in a class", None);
    assert_eq!(detected.domain_detected, Some("code".to_string()));
    let empty = c.compress("", Some("legal"));
    assert_eq!(empty.domain_detected, None);
}

#[test]
fn compression_leaves_no_double_spaces() {
    let c = build_test_compressor();
    let result = c.compress("so   please    just do it", None);
    assert_eq!(result.text, "so do it");
    assert!(!result.text.contains("  "));
}

#[test]
fn compression_keeps_protected_terms_and_inline_code() {
    let static_layer = StaticLayer::load_from_strings(&["please".to_string()]);
    let domain_layer = DomainLayer::load_from_configs(vec![DomainConfig {
        name: "polite".to_string(),
        description: String::new(),
        keywords: vec!["thanks".to_string()],
        protected_terms: vec!["Please Hold".to_string()],
        rules: vec![],
    }]);
    let c = Compressor::build(static_layer.rules(), &domain_layer, vec![], CompressorConfig::default()).unwrap();
    let result = c.compress("please wait, please hold and `please` go", None);
    assert_eq!(result.text, "wait, please hold and `please` go");
}

#[test]
fn disabled_layers_and_rules_take_no_part() {
    let static_layer = StaticLayer::load_from_strings(&["please".to_string()]);
    let domain_layer = DomainLayer::load_from_configs(vec![]);
    let mut config = CompressorConfig::default();
    config.layers_enabled.static_enabled = false;
    let mut learned = Rule::default();
    learned.id = "learned-1".to_string();
    learned.pattern = "kindly".to_string();
    learned.replacement = String::new();
    learned.layer = RuleLayer::Learned;
    let mut disabled = Rule::default();
    disabled.id = "learned-2".to_string();
    disabled.pattern = "now".to_string();
    disabled.enabled = false;
    let c = Compressor::build(static_layer.rules(), &domain_layer, vec![learned, disabled], config).unwrap();
    let result = c.compress("please kindly do it now", None);
    assert_eq!(result.text, "please do it now");
    assert_eq!(result.rules_applied, vec!["learned-1".to_string()]);
}

#[test]
fn higher_priority_rule_wins_overlap() {
    let mut low = Rule::default();
    low.id = "low".to_string();
    low.pattern = "ab".to_string();
    low.replacement = "X".to_string();
    low.priority = 1;
    let mut high = Rule::default();
    high.id = "high".to_string();
    high.pattern = "ab".to_string();
    high.replacement = "Y".to_string();
    high.priority = 5;
    let domain_layer = DomainLayer::load_from_configs(vec![]);
    let c = Compressor::build(vec![low, high], &domain_layer, vec![], CompressorConfig::default()).unwrap();
    let result = c.compress("ab", None);
    assert_eq!(result.text, "Y");
    assert_eq!(result.rules_applied, vec!["high".to_string()]);
}

#[test]
fn empty_pattern_rules_are_left_out() {
    let mut empty = Rule::default();
    empty.id = "empty".to_string();
    let domain_layer = DomainLayer::load_from_configs(vec![]);
    let c = Compressor::build(vec![empty], &domain_layer, vec![], CompressorConfig::default()).unwrap();
    let result = c.compress("anything at all", None);
    assert_eq!(result.text, "anything at all");
    assert!(result.rules_applied.is_empty());
}


#[test]
fn applied_rule_ids_collapse_repeats() {
    let c = build_test_compressor();
    let result = c.compress("please please go", None);
    assert_eq!(result.text, "go");
    assert_eq!(result.rules_applied, vec!["static-1".to_string()]);
}

#[test]
fn static_rule_ids_count_past_nine() {
    let lines: Vec<String> = (0..12).map(|i| format!("word{:02}", i)).collect();
    let layer = StaticLayer::load_from_strings(&lines);
    let rules = layer.rules();
    assert_eq!(rules.len(), 12);
    assert_eq!(rules[11].id, "static-11");
    assert_eq!(rules[11].pattern, "word11");
}

#[test]
fn core_error_messages() {
    assert_eq!(CoreError::IoError("gone".to_string()).message(), "IO error: gone");
    assert_eq!(CoreError::TomlError("bad".to_string()).message(), "TOML parse error: bad");
    assert_eq!(CoreError::RegexError("x".to_string()).message(), "Regex error: x");
    assert_eq!(CoreError::Other("plain".to_string()).message(), "plain");
}

#[test]
fn compressed_text_has_no_outer_whitespace() {
    let c = build_test_compressor();
    let result = c.compress("\t please hello world \n", None);
    assert_eq!(result.text, "hello world");
}

#[test]
fn learned_layer_rules_keep_learned_in_order() {
    let mk = |id: &str, layer: RuleLayer| Rule { id: id.to_string(), layer, ..Default::default() };
    let kept = learned_layer_rules(vec![
        mk("a", RuleLayer::Learned),
        mk("b", RuleLayer::Static),
        mk("c", RuleLayer::Learned),
        mk("d", RuleLayer::Domain),
    ]);
    let ids: Vec<&str> = kept.iter().map(|r| r.id.as_str()).collect();
    assert_eq!(ids, vec!["a", "c"]);
    assert!(learned_layer_rules(Vec::new()).is_empty());
}

#[test]
fn spaces_inside_code_fence_are_kept() {
    let static_layer = StaticLayer::load_from_strings(&["please".to_string()]);
    let c = Compressor::build(
        static_layer.rules(),
        &DomainLayer::load_from_configs(vec![]),
        vec![],
        CompressorConfig::default(),
    )
    .unwrap();
    let r = c.compress("please  look ```\na  b\n```  now", None);
    assert_eq!(r.text, "look ```\na  b\n``` now");
    let r = c.compress("```\na  b\n```", None);
    assert_eq!(r.text, "```\na  b\n```");
}

#[test]
fn static_line_without_spaced_arrow_is_whole_pattern() {
    let layer = StaticLayer::load_from_strings(&["X->Y".to_string(), "in order to -> to".to_string()]);
    let rules = layer.rules();
    assert_eq!(rules.len(), 2);
    assert_eq!(rules[0].pattern, "in order to");
    assert_eq!(rules[0].replacement, "to");
    assert_eq!(rules[1].pattern, "x->y");
    assert_eq!(rules[1].replacement, "");
}

#[test]
fn rule_layer_names_parse_back() {
    for l in [RuleLayer::Static, RuleLayer::Domain, RuleLayer::Learned] {
        assert_eq!(RuleLayer::parse(&l.as_name()).unwrap(), l);
    }
    assert_eq!(RuleLayer::parse("LEARNED").unwrap(), RuleLayer::Learned);
    assert_eq!(RuleLayer::parse("StAtIc").unwrap(), RuleLayer::Static);
}

#[test]
fn token_count_between_one_and_bytes() {
    let counter = TokenCounter::new();
    let text = "hello world, this is a test";
    let n = counter.count(text);
    assert!(n >= 1 && n <= text.len());
    assert_eq!(counter.count(""), 0);
}

#[test]
fn domain_hint_gives_its_rules_priority() {
    let mk = |name: &str, rep: &str| DomainConfig {
        name: name.to_string(),
        description: String::new(),
        keywords: vec![],
        protected_terms: vec![],
        rules: vec![DomainRule { pattern: "foo bar".to_string(), replacement: rep.to_string() }],
    };
    let c = Compressor::build(
        vec![],
        &DomainLayer::load_from_configs(vec![mk("a", "A"), mk("b", "B")]),
        vec![],
        CompressorConfig::default(),
    )
    .unwrap();
    let r = c.compress("foo bar", Some("b"));
    assert_eq!(r.text, "B");
    assert_eq!(r.domain_detected, Some("b".to_string()));
    assert_eq!(r.rules_applied, vec!["domain-b-0".to_string()]);
    let r = c.compress("foo bar", Some("a"));
    assert_eq!(r.text, "A");
}

#[test]
fn longer_rule_wins_over_its_prefix() {
    let static_layer = StaticLayer::load_from_strings(&[
        "in order -> sorted".to_string(),
        "in order to -> to".to_string(),
    ]);
    let c = Compressor::build(
        static_layer.rules(),
        &DomainLayer::load_from_configs(vec![]),
        vec![],
        CompressorConfig::default(),
    )
    .unwrap();
    let r = c.compress("do it in order to win", None);
    assert_eq!(r.text, "do it to win");
}

#[test]
fn space_run_next_to_protected_space_collapses() {
    let domain = DomainConfig {
        name: "d".to_string(),
        description: String::new(),
        keywords: vec![],
        protected_terms: vec!["a ".to_string()],
        rules: vec![],
    };
    let c = Compressor::build(vec![], &DomainLayer::load_from_configs(vec![domain]), vec![], CompressorConfig::default())
        .unwrap();
    let r = c.compress("a  b", None);
    assert_eq!(r.text, "a b");
}
