use sqz::admin::{default_limit, list_rules_sql, CreateRuleRequest, RuleFields, UpdateRuleRequest};
use sqz::compressor::Compressor;
use sqz::config::{
    apply_cli_overrides, apply_env_overrides, default_anthropic_url, default_db_path, default_embedding_model, default_host,
    default_language, default_languages, default_log_level, default_max_concurrency, default_min_samples,
    default_openai_url, default_port, default_reload_interval, default_server, default_timeout, default_true,
    AdminConfig, Cli, DatabaseConfig, LayersConfig, LoggingConfig, ReloadConfig, ServerConfig,
};
use sqz::error::{not_found_or, ProxyError, StoreError};
use sqz::layer1_static::StaticLayer;
use sqz::layer2_domain::DomainLayer;
use sqz::anthropic::{anthropic_compressible, compress_anthropic_messages, compress_system_prompt};
use sqz::messages::{
    chat_compressible, compress_chat_messages, AnthropicContent, ContentBlock, ContentPart, Message, MessageContent,
    AnthropicMessage, SystemBlock, SystemPrompt,
};
use sqz::provider::{detect_provider, forward_headers, upstream_url, Provider, UpstreamConfig};
use sqz::types::{CompressorConfig, DomainConfig};

fn headers(pairs: &[(&str, &str)]) -> Vec<(String, Vec<u8>)> {
    pairs.iter().map(|(n, v)| (n.to_string(), v.as_bytes().to_vec())).collect()
}

fn has(hs: &[(String, Vec<u8>)], name: &str) -> bool {
    hs.iter().any(|(n, _)| n == name)
}

// ---------------------------------------------------------------------------
// Providers
// ---------------------------------------------------------------------------

#[test]
fn test_detect_openai() {
    let hs = headers(&[("authorization", "Bearer sk-xxx")]);
    assert_eq!(detect_provider(&hs), Provider::OpenAI);
}

#[test]
fn test_detect_anthropic() {
    let hs = headers(&[("x-api-key", "sk-ant-xxx"), ("anthropic-version", "2023-06-01")]);
    assert_eq!(detect_provider(&hs), Provider::Anthropic);
}

#[test]
fn detect_needs_both_anthropic_headers() {
    let hs = headers(&[("x-api-key", "sk-ant-xxx")]);
    assert_eq!(detect_provider(&hs), Provider::OpenAI);
}

#[test]
fn test_upstream_url_openai() {
    let config = UpstreamConfig::default();
    let url = upstream_url(&Provider::OpenAI, "/v1/chat/completions", &config);
    assert_eq!(url, "https://api.openai.com/v1/chat/completions");
}

#[test]
fn test_upstream_url_anthropic() {
    let config = UpstreamConfig::default();
    let url = upstream_url(&Provider::Anthropic, "/v1/messages", &config);
    assert_eq!(url, "https://api.anthropic.com/v1/messages");
}

#[test]
fn upstream_url_drops_trailing_slashes() {
    let config = UpstreamConfig {
        openai_base_url: "http://localhost:9000//".to_string(),
        anthropic_base_url: "x".to_string(),
    };
    let url = upstream_url(&Provider::OpenAI, "/v1/chat/completions", &config);
    assert_eq!(url, "http://localhost:9000/v1/chat/completions");
}

#[test]
fn test_forward_headers_openai() {
    let original = headers(&[
        ("authorization", "Bearer sk-xxx"),
        ("content-type", "application/json"),
        ("host", "localhost:8080"),
    ]);
    let forwarded = forward_headers(&original, &Provider::OpenAI);
    assert!(has(&forwarded, "authorization"));
    assert!(has(&forwarded, "content-type"));
    assert!(!has(&forwarded, "host"));
}

#[test]
fn test_forward_headers_anthropic() {
    let original = headers(&[
        ("x-api-key", "sk-ant-xxx"),
        ("anthropic-version", "2023-06-01"),
        ("content-type", "application/json"),
        ("host", "localhost:8080"),
    ]);
    let forwarded = forward_headers(&original, &Provider::Anthropic);
    assert!(has(&forwarded, "x-api-key"));
    assert!(has(&forwarded, "anthropic-version"));
    assert!(has(&forwarded, "content-type"));
    assert!(!has(&forwarded, "host"));
}

#[test]
fn forward_headers_order_and_first_value() {
    let original = headers(&[
        ("authorization", "Bearer one"),
        ("accept", "*/*"),
        ("authorization", "Bearer two"),
        ("x-api-key", "k"),
        ("content-type", "application/json"),
    ]);
    let forwarded = forward_headers(&original, &Provider::OpenAI);
    assert_eq!(
        forwarded,
        headers(&[("content-type", "application/json"), ("accept", "*/*"), ("authorization", "Bearer one")])
    );
}

#[test]
fn provider_names() {
    assert_eq!(Provider::OpenAI.as_name(), "openai");
    assert_eq!(Provider::Anthropic.as_name(), "anthropic");
}

// ---------------------------------------------------------------------------
// Errors
// ---------------------------------------------------------------------------

#[test]
fn not_found_or_maps_missing_rows() {
    let e = not_found_or(StoreError::Sqlite("Query returned no rows".to_string()));
    assert!(matches!(e, StoreError::NotFound));
    let e = not_found_or(StoreError::Sqlite("disk I/O error".to_string()));
    assert!(matches!(e, StoreError::Sqlite(ref m) if m == "disk I/O error"));
    let e = not_found_or(StoreError::Other("Query returned no rows".to_string()));
    assert!(matches!(e, StoreError::Other(_)));
}

#[test]
fn error_messages_and_answers() {
    assert_eq!(StoreError::Sqlite("boom".to_string()).message(), "SQLite error: boom");
    assert_eq!(StoreError::NotFound.message(), "not found");
    assert_eq!(ProxyError::UpstreamError("x".to_string()).message(), "upstream error: x");
    assert_eq!(ProxyError::UpstreamError("x".to_string()).status_and_type(), (502, "upstream_error".to_string()));
    assert_eq!(
        ProxyError::DeserializationError("x".to_string()).status_and_type(),
        (400, "deserialization_error".to_string())
    );
    assert_eq!(ProxyError::NotFound.status_and_type(), (404, "not_found".to_string()));
    assert_eq!(ProxyError::Internal("y".to_string()).status_and_type(), (500, "internal_error".to_string()));
}

#[test]
fn store_errors_become_proxy_errors() {
    assert!(matches!(ProxyError::from_store(StoreError::NotFound), ProxyError::NotFound));
    match ProxyError::from_store(StoreError::Sqlite("locked".to_string())) {
        ProxyError::StoreError(m) => assert_eq!(m, "SQLite error: locked"),
        _ => panic!("expected a store error"),
    }
}

// ---------------------------------------------------------------------------
// Admin
// ---------------------------------------------------------------------------

#[test]
fn default_listing_limit() {
    assert_eq!(default_limit(), 50);
}

#[test]
fn rule_updates_replace_given_fields() {
    let req = CreateRuleRequest {
        pattern: "kindly".to_string(),
        replacement: "".to_string(),
        layer: "learned".to_string(),
        domain: None,
        priority: None,
    };
    let mut fields = RuleFields::from_create(&req);
    assert!(fields.enabled);
    assert_eq!(fields.priority, 0);
    fields.apply_update(&UpdateRuleRequest {
        pattern: None,
        replacement: Some("please".to_string()),
        enabled: Some(false),
        priority: None,
        domain: Some("code".to_string()),
    });
    assert_eq!(fields.pattern, "kindly");
    assert_eq!(fields.replacement, "please");
    assert!(!fields.enabled);
    assert_eq!(fields.priority, 0);
    assert_eq!(fields.domain, Some("code".to_string()));
}

#[test]
fn rule_listing_query() {
    let q = list_rules_sql(&Some("learned".to_string()), &None);
    assert_eq!(
        q,
        "SELECT id, pattern, replacement, layer, domain, confidence, samples, enabled, priority, created_at, updated_at FROM rules WHERE 1=1 AND layer = ? ORDER BY priority DESC, created_at DESC LIMIT ? OFFSET ?"
    );
}

// ---------------------------------------------------------------------------
// Configuration
// ---------------------------------------------------------------------------

#[test]
fn configuration_defaults() {
    assert_eq!(default_host(), "127.0.0.1");
    assert_eq!(default_port(), 8080);
    assert_eq!(default_timeout(), 120);
    assert_eq!(default_openai_url(), "https://api.openai.com");
    assert_eq!(default_anthropic_url(), "https://api.anthropic.com");
    assert_eq!(default_db_path(), "concutter.db");
    assert!(default_true());
    assert_eq!(default_min_samples(), 10);
    assert_eq!(default_language(), "en");
    assert_eq!(default_languages(), vec!["en".to_string()]);
    assert_eq!(default_embedding_model(), "text-embedding-3-small");
    assert_eq!(default_max_concurrency(), 5);
    assert_eq!(default_log_level(), "info");
    assert_eq!(default_reload_interval(), 300);
    let s = default_server();
    assert_eq!((s.host.as_str(), s.port, s.request_timeout), ("127.0.0.1", 8080, 120));
    let l = LayersConfig::default();
    assert!(l.static_enabled && l.domain_enabled && l.learned_enabled);
    assert!(AdminConfig::default().enabled);
    assert_eq!(ReloadConfig::default().interval, 300);
}

#[test]
fn cli_overrides_replace_given_settings() {
    let mut server = ServerConfig::default();
    let mut database = DatabaseConfig::default();
    let mut logging = LoggingConfig::default();
    let cli = Cli {
        config: "concutter.toml".to_string(),
        host: Some("0.0.0.0".to_string()),
        port: None,
        db: Some("/data/c.db".to_string()),
        log_level: None,
    };
    apply_cli_overrides(&mut server, &mut database, &mut logging, &cli);
    assert_eq!(server.host, "0.0.0.0");
    assert_eq!(server.port, 8080);
    assert_eq!(database.path, "/data/c.db");
    assert_eq!(logging.level, "info");
}

// ---------------------------------------------------------------------------
// Message texts
// ---------------------------------------------------------------------------

#[test]
fn test_text_mut_string() {
    let content = MessageContent::Text("hello".to_string());
    let refs = content.texts();
    assert_eq!(refs.len(), 1);
    assert_eq!(refs[0], "hello");
}

#[test]
fn test_text_mut_parts() {
    let content = MessageContent::Parts(vec![
        ContentPart::Text { text: "first".to_string() },
        ContentPart::Other,
        ContentPart::Text { text: "second".to_string() },
    ]);
    let refs = content.texts();
    assert_eq!(refs.len(), 2);
}

#[test]
fn test_text_mut_null() {
    let content = MessageContent::Null;
    let refs = content.texts();
    assert!(refs.is_empty());
}

#[test]
fn test_anthropic_content_text_mut() {
    let content = AnthropicContent::Text("hello".to_string());
    let refs = content.texts();
    assert_eq!(refs.len(), 1);
}

#[test]
fn test_anthropic_content_blocks_text_mut() {
    let content = AnthropicContent::Blocks(vec![
        ContentBlock::Text { text: "first".to_string() },
        ContentBlock::Image { source: serde_json::Value::Null },
        ContentBlock::Text { text: "second".to_string() },
    ]);
    let refs = content.texts();
    assert_eq!(refs.len(), 2);
}

#[test]
fn test_system_prompt_text_mut() {
    let prompt = SystemPrompt::Text("system text".to_string());
    let refs = prompt.texts();
    assert_eq!(refs.len(), 1);
}

#[test]
fn test_system_prompt_blocks_text_mut() {
    let prompt = SystemPrompt::Blocks(vec![SystemBlock::Text {
        text: "block text".to_string(),
        other: serde_json::Map::new(),
    }]);
    let refs = prompt.texts();
    assert_eq!(refs.len(), 1);
}

#[test]
fn set_texts_replaces_text_parts_in_order() {
    let mut content = MessageContent::Parts(vec![
        ContentPart::Text { text: "first".to_string() },
        ContentPart::ImageUrl { image_url: serde_json::Value::String("u".to_string()) },
        ContentPart::Text { text: "second".to_string() },
    ]);
    content.set_texts(vec!["one".to_string(), "two".to_string()]);
    match content {
        MessageContent::Parts(parts) => {
            assert!(matches!(&parts[0], ContentPart::Text { text } if text == "one"));
            assert!(matches!(&parts[1], ContentPart::ImageUrl { image_url } if image_url == "u"));
            assert!(matches!(&parts[2], ContentPart::Text { text } if text == "two"));
        },
        _ => panic!("expected parts"),
    }
}

// ---------------------------------------------------------------------------
// Chat compression by role
// ---------------------------------------------------------------------------

fn message(role: &str, text: &str) -> Message {
    Message { role: role.to_string(), content: MessageContent::Text(text.to_string()), other: serde_json::Map::new() }
}

fn text_of(m: &Message) -> String {
    m.content.texts().join("|")
}

fn chat_compressor() -> Compressor {
    let static_layer = StaticLayer::load_from_strings(&["please".to_string(), "just".to_string()]);
    let domain_layer = DomainLayer::load_from_configs(vec![]);
    Compressor::build(static_layer.rules(), &domain_layer, vec![], CompressorConfig::default()).unwrap()
}

#[test]
fn chat_messages_compressed_by_role() {
    let c = chat_compressor();
    let mut messages = vec![
        message("system", "please just answer"),
        message("user", "please just help"),
        message("assistant", "please just wait"),
        message("user", "please just listen"),
    ];
    assert!(chat_compressible(&c, &messages));
    let results = compress_chat_messages(&c, &mut messages);
    assert_eq!(text_of(&messages[0]), "please just answer");
    assert_eq!(text_of(&messages[1]), "help");
    assert_eq!(text_of(&messages[2]), "please just wait");
    assert_eq!(text_of(&messages[3]), "please just listen");
    assert_eq!(results.len(), 3);
    assert_eq!(results[1].rules_applied, vec!["static-0".to_string(), "static-1".to_string()]);
    assert!(results[2].rules_applied.is_empty());
}

#[test]
fn empty_keyword_blocks_full_compression() {
    let static_layer = StaticLayer::load_from_strings(&["please".to_string()]);
    let domain_layer = DomainLayer::load_from_configs(vec![DomainConfig {
        name: "d".to_string(),
        description: String::new(),
        keywords: vec!["".to_string()],
        protected_terms: vec![],
        rules: vec![],
    }]);
    let c = Compressor::build(static_layer.rules(), &domain_layer, vec![], CompressorConfig::default()).unwrap();
    assert!(!c.keywords_ready());
    let older = vec![message("user", "please help"), message("user", "last")];
    assert!(!chat_compressible(&c, &older));
    let only_last = vec![message("system", "please"), message("user", "please help")];
    assert!(chat_compressible(&c, &only_last));
}

#[test]
fn env_overrides_replace_configured_settings() {
    let mut server = ServerConfig::default();
    let mut upstream = sqz::config::UpstreamConfig::default();
    let mut database = DatabaseConfig::default();
    let mut logging = LoggingConfig::default();
    let mut enabled = true;
    let vars = vec![
        ("SQZ_PORT".to_string(), "8085".to_string()),
        ("SQZ_HOST".to_string(), "0.0.0.0".to_string()),
        ("SQZ_DB_PATH".to_string(), "/data/concutter.db".to_string()),
        ("SQZ_OPENAI_BASE_URL".to_string(), "http://openai.local".to_string()),
        ("SQZ_ANTHROPIC_BASE_URL".to_string(), "http://anthropic.local".to_string()),
        ("SQZ_LOG_LEVEL".to_string(), "debug".to_string()),
        ("SQZ_COMPRESSION_ENABLED".to_string(), "false".to_string()),
        ("OTHER".to_string(), "x".to_string()),
    ];
    apply_env_overrides(&mut server, &mut upstream, &mut database, &mut logging, &mut enabled, &vars);
    assert_eq!(server.host, "0.0.0.0");
    assert_eq!(server.port, 8085);
    assert_eq!(server.request_timeout, 120);
    assert_eq!(database.path, "/data/concutter.db");
    assert_eq!(upstream.openai_base_url, "http://openai.local");
    assert_eq!(upstream.anthropic_base_url, "http://anthropic.local");
    assert_eq!(logging.level, "debug");
    assert!(!enabled);
}

#[test]
fn env_overrides_ignore_bad_values_and_keep_last() {
    let mut server = ServerConfig::default();
    let mut upstream = sqz::config::UpstreamConfig::default();
    let mut database = DatabaseConfig::default();
    let mut logging = LoggingConfig::default();
    let mut enabled = true;
    let vars = vec![
        ("SQZ_PORT".to_string(), "9000".to_string()),
        ("SQZ_PORT".to_string(), "not-a-port".to_string()),
        ("SQZ_COMPRESSION_ENABLED".to_string(), "maybe".to_string()),
        ("SQZ_LOG_LEVEL".to_string(), "warn".to_string()),
        ("SQZ_LOG_LEVEL".to_string(), "trace".to_string()),
    ];
    apply_env_overrides(&mut server, &mut upstream, &mut database, &mut logging, &mut enabled, &vars);
    assert_eq!(server.port, 9000);
    assert!(enabled);
    assert_eq!(logging.level, "trace");
    assert_eq!(server.host, "127.0.0.1");
    assert_eq!(database.path, "concutter.db");
}

#[test]
fn anthropic_messages_compressed_by_role() {
    let c = chat_compressor();
    let am = |role: &str, content: AnthropicContent| AnthropicMessage {
        role: role.to_string(),
        content,
        other: serde_json::Map::new(),
    };
    let mut messages = vec![
        am("user", AnthropicContent::Blocks(vec![
            ContentBlock::Text { text: "please just help".to_string() },
            ContentBlock::ToolResult { data: serde_json::Map::new() },
        ])),
        am("assistant", AnthropicContent::Text("please just wait".to_string())),
        am("user", AnthropicContent::Text("please just listen".to_string())),
    ];
    assert!(anthropic_compressible(&c, &messages));
    let results = compress_anthropic_messages(&c, &mut messages);
    assert_eq!(messages[0].content.texts(), vec!["help".to_string()]);
    assert!(matches!(&messages[0].content, AnthropicContent::Blocks(b) if b.len() == 2));
    assert_eq!(messages[1].content.texts(), vec!["please just wait".to_string()]);
    assert_eq!(messages[2].content.texts(), vec!["please just listen".to_string()]);
    assert_eq!(results.len(), 2);
    assert_eq!(results[0].rules_applied, vec!["static-0".to_string(), "static-1".to_string()]);

    let mut system = Some(SystemPrompt::Text("please just answer".to_string()));
    let results = compress_system_prompt(&c, &mut system);
    assert_eq!(results.len(), 1);
    assert_eq!(system.unwrap().texts(), vec!["please just answer".to_string()]);
    let mut none: Option<SystemPrompt> = None;
    assert!(compress_system_prompt(&c, &mut none).is_empty());
}

#[test]
fn env_port_is_read_as_a_u16() {
    let run = |value: &str| {
        let mut server = ServerConfig::default();
        let mut upstream = sqz::config::UpstreamConfig::default();
        let mut database = DatabaseConfig::default();
        let mut logging = LoggingConfig::default();
        let mut enabled = true;
        let vars = vec![("SQZ_PORT".to_string(), value.to_string())];
        apply_env_overrides(&mut server, &mut upstream, &mut database, &mut logging, &mut enabled, &vars);
        server.port
    };
    assert_eq!(run("+8086"), 8086);
    assert_eq!(run("65535"), 65535);
    assert_eq!(run("65536"), 8080);
    assert_eq!(run(""), 8080);
    assert_eq!(run("+"), 8080);
    assert_eq!(run("80a"), 8080);
    assert_eq!(run("0"), 0);
}
