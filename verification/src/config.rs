//! Configuration of the proxy program: its sections, their defaults and the
//! environment and command-line overrides.
use vstd::prelude::*;
use crate::text::{copy_string, str_eq};

verus! {

broadcast use vstd::string::group_string_axioms;

/// The default address the server listens on.
pub fn default_host() -> (r: String)
    ensures r@ == "127.0.0.1"@,
{
    "127.0.0.1".to_string()
}

/// The default port the server listens on.
pub fn default_port() -> (r: u16)
    ensures r == 8080,
{
    8080
}

/// The default timeout of an upstream request, in seconds.
pub fn default_timeout() -> (r: u64)
    ensures r == 120,
{
    120
}

/// The default base URL of the OpenAI API.
pub fn default_openai_url() -> (r: String)
    ensures r@ == "https://api.openai.com"@,
{
    "https://api.openai.com".to_string()
}

/// The default base URL of the Anthropic API.
pub fn default_anthropic_url() -> (r: String)
    ensures r@ == "https://api.anthropic.com"@,
{
    "https://api.anthropic.com".to_string()
}

/// The default path of the rule database.
pub fn default_db_path() -> (r: String)
    ensures r@ == "concutter.db"@,
{
    "concutter.db".to_string()
}

/// The default of switches that are on unless configured off.
pub fn default_true() -> (r: bool)
    ensures r,
{
    true
}

/// The default number of samples a learned rule needs.
pub fn default_min_samples() -> (r: i64)
    ensures r == 10,
{
    10
}

/// The default language.
pub fn default_language() -> (r: String)
    ensures r@ == "en"@,
{
    "en".to_string()
}

/// The default list of languages: English alone.
pub fn default_languages() -> (r: Vec<String>)
    ensures r@.len() == 1, r@[0]@ == "en"@,
{
    vec!["en".to_string()]
}

/// The default embedding model of shadow testing.
pub fn default_embedding_model() -> (r: String)
    ensures r@ == "text-embedding-3-small"@,
{
    "text-embedding-3-small".to_string()
}

/// The default number of concurrent shadow tests.
pub fn default_max_concurrency() -> (r: usize)
    ensures r == 5,
{
    5
}

/// The default log level.
pub fn default_log_level() -> (r: String)
    ensures r@ == "info"@,
{
    "info".to_string()
}

/// The default interval of automatic reloads, in seconds.
pub fn default_reload_interval() -> (r: u64)
    ensures r == 300,
{
    300
}

/// The default server section.
pub fn default_server() -> (r: ServerConfig)
    ensures r.host@ == "127.0.0.1"@, r.port == 8080, r.request_timeout == 120,
{
    ServerConfig::default()
}

/// Where and how the server listens.
#[derive(Debug, Clone)]
pub struct ServerConfig {
    pub host: String,
    pub port: u16,
    pub request_timeout: u64,
}

impl Default for ServerConfig {
    fn default() -> (r: ServerConfig)
        ensures r.host@ == "127.0.0.1"@, r.port == 8080, r.request_timeout == 120,
    {
        ServerConfig { host: default_host(), port: default_port(), request_timeout: default_timeout() }
    }
}

/// The base URLs of the upstream providers.
#[derive(Debug, Clone)]
pub struct UpstreamConfig {
    pub openai_base_url: String,
    pub anthropic_base_url: String,
}

impl Default for UpstreamConfig {
    fn default() -> (r: UpstreamConfig)
        ensures
            r.openai_base_url@ == "https://api.openai.com"@,
            r.anthropic_base_url@ == "https://api.anthropic.com"@,
    {
        UpstreamConfig { openai_base_url: default_openai_url(), anthropic_base_url: default_anthropic_url() }
    }
}

/// Where the rule database lives.
#[derive(Debug, Clone)]
pub struct DatabaseConfig {
    pub path: String,
}

impl Default for DatabaseConfig {
    fn default() -> (r: DatabaseConfig)
        ensures r.path@ == "concutter.db"@,
    {
        DatabaseConfig { path: default_db_path() }
    }
}

/// Which rule layers take part in compression.
#[derive(Debug, Clone, Copy)]
pub struct LayersConfig {
    pub static_enabled: bool,
    pub domain_enabled: bool,
    pub learned_enabled: bool,
}

impl Default for LayersConfig {
    fn default() -> (r: LayersConfig)
        ensures r.static_enabled && r.domain_enabled && r.learned_enabled,
    {
        LayersConfig { static_enabled: default_true(), domain_enabled: default_true(), learned_enabled: default_true() }
    }
}

/// How the program logs.
#[derive(Debug, Clone)]
pub struct LoggingConfig {
    pub level: String,
    pub json: bool,
}

impl Default for LoggingConfig {
    fn default() -> (r: LoggingConfig)
        ensures r.level@ == "info"@, !r.json,
    {
        LoggingConfig { level: default_log_level(), json: false }
    }
}

/// Whether the admin endpoints are served, and the key they ask for.
#[derive(Debug, Clone)]
pub struct AdminConfig {
    pub enabled: bool,
    pub api_key: Option<String>,
}

impl Default for AdminConfig {
    fn default() -> (r: AdminConfig)
        ensures r.enabled, r.api_key is None,
    {
        AdminConfig { enabled: default_true(), api_key: None }
    }
}

/// How often the compressor is rebuilt; 0 turns automatic rebuilds off.
#[derive(Debug, Clone, Copy)]
pub struct ReloadConfig {
    pub interval: u64,
}

impl Default for ReloadConfig {
    fn default() -> (r: ReloadConfig)
        ensures r.interval == 300,
    {
        ReloadConfig { interval: default_reload_interval() }
    }
}

/// The command line of the program: the configuration file and the settings
/// that override it.
#[derive(Debug, Clone)]
pub struct Cli {
    pub config: String,
    pub host: Option<String>,
    pub port: Option<u16>,
    pub db: Option<String>,
    pub log_level: Option<String>,
}

/// Applies the command-line overrides: each setting given on the command
/// line replaces the configured one; the others stay.
pub fn apply_cli_overrides(server: &mut ServerConfig, database: &mut DatabaseConfig, logging: &mut LoggingConfig, cli: &Cli)
    ensures
        final(server).host@ == (match cli.host { Some(h) => h@, None => old(server).host@ }),
        final(server).port == (match cli.port { Some(p) => p, None => old(server).port }),
        final(server).request_timeout == old(server).request_timeout,
        final(database).path@ == (match cli.db { Some(d) => d@, None => old(database).path@ }),
        final(logging).level@ == (match cli.log_level { Some(l) => l@, None => old(logging).level@ }),
        final(logging).json == old(logging).json,
{
    if let Some(host) = &cli.host {
        server.host = copy_string(host);
    }
    if let Some(port) = cli.port {
        server.port = port;
    }
    if let Some(db) = &cli.db {
        database.path = copy_string(db);
    }
    if let Some(level) = &cli.log_level {
        logging.level = copy_string(level);
    }
}

/// The value of a decimal number in its digits.
pub open spec fn digits_value(d: Seq<char>) -> int
    decreases d.len(),
{
    if d.len() == 0 {
        0
    } else {
        digits_value(d.drop_last()) * 10 + ((d.last() as u32) - ('0' as u32))
    }
}

/// The number that one or more ASCII digits spell, when it is at most
/// 65535; `None` for anything else.
pub open spec fn digits_u16(d: Seq<char>) -> Option<int> {
    if d.len() > 0 && (forall|i: int| 0 <= i < d.len() ==> '0' <= #[trigger] d[i] && d[i] <= '9')
        && digits_value(d) <= 65535 {
        Some(digits_value(d))
    } else {
        None
    }
}

/// The number a text spells as `u16::from_str` reads it: an optional `+`,
/// then one or more ASCII digits, at most 65535; `None` for anything else.
pub open spec fn u16_text_value(s: Seq<char>) -> Option<int> {
    digits_u16(if s.len() > 0 && s[0] == '+' { s.drop_first() } else { s })
}

/// A prefix of digits has no larger value than the whole.
proof fn lemma_digits_prefix(d: Seq<char>, k: int)
    requires 0 <= k <= d.len(), forall|i: int| 0 <= i < d.len() ==> '0' <= #[trigger] d[i] && d[i] <= '9',
    ensures digits_value(d.subrange(0, k)) <= digits_value(d), 0 <= digits_value(d.subrange(0, k)),
    decreases d.len() - k,
{
    if k < d.len() {
        let p = d.subrange(0, k + 1);
        assert(p.drop_last() =~= d.subrange(0, k));
        lemma_digits_nonneg(d.subrange(0, k));
        lemma_digits_prefix(d, k + 1);
    } else {
        assert(d.subrange(0, k) =~= d);
        lemma_digits_nonneg(d);
    }
}

proof fn lemma_digits_nonneg(d: Seq<char>)
    requires forall|i: int| 0 <= i < d.len() ==> '0' <= #[trigger] d[i] && d[i] <= '9',
    ensures digits_value(d) >= 0,
    decreases d.len(),
{
    if d.len() > 0 {
        assert forall|i: int| 0 <= i < d.drop_last().len() implies '0' <= #[trigger] d.drop_last()[i] && d.drop_last()[i] <= '9' by {
            assert(d.drop_last()[i] == d[i]);
        }
        lemma_digits_nonneg(d.drop_last());
        assert('0' <= d.last());
    }
}

/// Reads a port number as `u16::from_str` does: an optional `+` followed by
/// ASCII digits whose value fits in a `u16`; `None` for anything else.
fn parse_u16(s: &str) -> (r: Option<u16>)
    ensures
        r is None <==> u16_text_value(s@) is None,
        r matches Some(p) ==> u16_text_value(s@) == Some(p as int),
{
    let n = s.unicode_len();
    let mut start: usize = 0;
    if n > 0 && s.get_char(0) == '+' {
        start = 1;
    }
    let ghost d = if s@.len() > 0 && s@[0] == '+' { s@.drop_first() } else { s@ };
    proof {
        assert(d.len() == n - start);
        assert(forall|i: int| 0 <= i < d.len() ==> d[i] == s@[start + i]);
    }
    if start == n {
        proof { assert(digits_u16(d) is None); }
        return None;
    }
    let mut v: u32 = 0;
    let mut i: usize = start;
    proof { assert(d.subrange(0, 0) =~= Seq::<char>::empty()); }
    while i < n
        invariant
            start <= i <= n, n == s@.len(), d.len() == n - start, start <= 1,
            d == (if s@.len() > 0 && s@[0] == '+' { s@.drop_first() } else { s@ }),
            forall|k: int| 0 <= k < d.len() ==> d[k] == s@[start + k],
            forall|k: int| 0 <= k < i - start ==> '0' <= #[trigger] d[k] && d[k] <= '9',
            v as int == digits_value(d.subrange(0, i - start)),
            v <= 65535,
        decreases n - i,
    {
        let c = s.get_char(i);
        if c < '0' || c > '9' {
            proof {
                assert(d[i - start] == c);
                assert(!('0' <= d[i - start] && d[i - start] <= '9'));
                assert(!(forall|k: int| 0 <= k < d.len() ==> '0' <= #[trigger] d[k] && d[k] <= '9'));
                assert(digits_u16(d) is None);
                assert(u16_text_value(s@) is None);
            }
            return None;
        }
        let ghost p = d.subrange(0, i - start + 1);
        proof {
            assert(d[i - start] == c);
            assert(p.drop_last() =~= d.subrange(0, i - start));
            assert(p.last() == c);
        }
        let w = v * 10 + ((c as u32) - ('0' as u32));
        if w > 65535 {
            proof {
                assert(digits_value(p) == digits_value(p.drop_last()) * 10 + ((p.last() as u32) - ('0' as u32)));
                assert(digits_value(p) == w as int);
                if forall|k: int| 0 <= k < d.len() ==> '0' <= #[trigger] d[k] && d[k] <= '9' {
                    lemma_digits_prefix(d, i - start + 1);
                    assert(digits_value(d) > 65535);
                }
                assert(digits_u16(d) is None);
                assert(u16_text_value(s@) is None);
            }
            return None;
        }
        v = w;
        i = i + 1;
    }
    proof {
        assert(d.subrange(0, n - start) =~= d);
        assert(digits_u16(d) == Some(v as int));
    }
    Some(v as u16)
}

/// The value of the last variable named `key` among the first `k`.
pub open spec fn last_value(vars: Seq<(Seq<char>, Seq<char>)>, key: Seq<char>, k: int) -> Option<Seq<char>>
    decreases k,
{
    if k <= 0 || k > vars.len() {
        None
    } else if vars[k - 1].0 == key {
        Some(vars[k - 1].1)
    } else {
        last_value(vars, key, k - 1)
    }
}

/// The port of the last `SQZ_PORT` variable among the first `k` whose value
/// is a port number.
pub open spec fn last_port(vars: Seq<(Seq<char>, Seq<char>)>, k: int) -> Option<int>
    decreases k,
{
    if k <= 0 || k > vars.len() {
        None
    } else if vars[k - 1].0 == "SQZ_PORT"@ && u16_text_value(vars[k - 1].1) is Some {
        u16_text_value(vars[k - 1].1)
    } else {
        last_port(vars, k - 1)
    }
}

/// The switch of the last `SQZ_COMPRESSION_ENABLED` variable among the first
/// `k` whose value is `true` or `false`.
pub open spec fn last_switch(vars: Seq<(Seq<char>, Seq<char>)>, k: int) -> Option<bool>
    decreases k,
{
    if k <= 0 || k > vars.len() {
        None
    } else if vars[k - 1].0 == "SQZ_COMPRESSION_ENABLED"@ && (vars[k - 1].1 == "true"@ || vars[k - 1].1 == "false"@) {
        Some(vars[k - 1].1 == "true"@)
    } else {
        last_switch(vars, k - 1)
    }
}

/// Environment variables as (name, value) views.
pub open spec fn var_views(vars: Seq<(String, String)>) -> Seq<(Seq<char>, Seq<char>)> {
    vars.map_values(|v: (String, String)| (v.0@, v.1@))
}

/// The value of the last variable named `key`.
fn last_var(vars: &Vec<(String, String)>, key: &str) -> (r: Option<String>)
    ensures
        match r {
            Some(v) => last_value(var_views(vars@), key@, vars@.len() as int) == Some(v@),
            None => last_value(var_views(vars@), key@, vars@.len() as int) is None,
        },
{
    let ghost vs = var_views(vars@);
    let mut r: Option<String> = None;
    let mut k: usize = 0;
    while k < vars.len()
        invariant
            k <= vars@.len(), vs == var_views(vars@),
            match r {
                Some(v) => last_value(vs, key@, k as int) == Some(v@),
                None => last_value(vs, key@, k as int) is None,
            },
        decreases vars.len() - k,
    {
        proof { assert(vs[k as int] == (vars@[k as int].0@, vars@[k as int].1@)); }
        if str_eq(vars[k].0.as_str(), key) {
            r = Some(copy_string(&vars[k].1));
        }
        k = k + 1;
    }
    r
}

/// The port of the last `SQZ_PORT` variable that holds a port number.
fn last_port_var(vars: &Vec<(String, String)>) -> (r: Option<u16>)
    ensures
        match r {
            Some(p) => last_port(var_views(vars@), vars@.len() as int) == Some(p as int),
            None => last_port(var_views(vars@), vars@.len() as int) is None,
        },
{
    let ghost vs = var_views(vars@);
    let mut r: Option<u16> = None;
    let mut k: usize = 0;
    while k < vars.len()
        invariant
            k <= vars@.len(), vs == var_views(vars@),
            match r {
                Some(p) => last_port(vs, k as int) == Some(p as int),
                None => last_port(vs, k as int) is None,
            },
        decreases vars.len() - k,
    {
        proof { assert(vs[k as int] == (vars@[k as int].0@, vars@[k as int].1@)); }
        if str_eq(vars[k].0.as_str(), "SQZ_PORT") {
            if let Some(p) = parse_u16(vars[k].1.as_str()) {
                r = Some(p);
            }
        }
        k = k + 1;
    }
    r
}

/// The switch of the last `SQZ_COMPRESSION_ENABLED` variable that holds
/// `true` or `false`.
fn last_switch_var(vars: &Vec<(String, String)>) -> (r: Option<bool>)
    ensures r == last_switch(var_views(vars@), vars@.len() as int),
{
    let ghost vs = var_views(vars@);
    let mut r: Option<bool> = None;
    let mut k: usize = 0;
    while k < vars.len()
        invariant
            k <= vars@.len(), vs == var_views(vars@),
            r == last_switch(vs, k as int),
        decreases vars.len() - k,
    {
        proof { assert(vs[k as int] == (vars@[k as int].0@, vars@[k as int].1@)); }
        if str_eq(vars[k].0.as_str(), "SQZ_COMPRESSION_ENABLED") {
            let v = vars[k].1.as_str();
            if str_eq(v, "true") {
                r = Some(true);
            } else if str_eq(v, "false") {
                r = Some(false);
            }
        }
        k = k + 1;
    }
    r
}

/// Applies the `SQZ_*` environment variables, given as (name, value) pairs,
/// over the configured values: `SQZ_HOST`, `SQZ_PORT`, `SQZ_DB_PATH`,
/// `SQZ_OPENAI_BASE_URL`, `SQZ_ANTHROPIC_BASE_URL`, `SQZ_LOG_LEVEL` and
/// `SQZ_COMPRESSION_ENABLED`. When a name occurs more than once the last
/// occurrence wins; a port that is not a number and a switch that is neither
/// `true` nor `false` are ignored; other variables are ignored.
pub fn apply_env_overrides(server: &mut ServerConfig, upstream: &mut UpstreamConfig, database: &mut DatabaseConfig,
    logging: &mut LoggingConfig, compression_enabled: &mut bool, vars: &Vec<(String, String)>)
    ensures ({
        let vs = var_views(vars@);
        let n = vars@.len() as int;
        &&& final(server).host@ == (match last_value(vs, "SQZ_HOST"@, n) { Some(v) => v, None => old(server).host@ })
        &&& final(server).port == (match last_port(vs, n) { Some(p) => p, None => old(server).port as int })
        &&& final(server).request_timeout == old(server).request_timeout
        &&& final(database).path@ == (match last_value(vs, "SQZ_DB_PATH"@, n) { Some(v) => v, None => old(database).path@ })
        &&& final(upstream).openai_base_url@ == (match last_value(vs, "SQZ_OPENAI_BASE_URL"@, n) {
            Some(v) => v, None => old(upstream).openai_base_url@ })
        &&& final(upstream).anthropic_base_url@ == (match last_value(vs, "SQZ_ANTHROPIC_BASE_URL"@, n) {
            Some(v) => v, None => old(upstream).anthropic_base_url@ })
        &&& final(logging).level@ == (match last_value(vs, "SQZ_LOG_LEVEL"@, n) { Some(v) => v, None => old(logging).level@ })
        &&& final(logging).json == old(logging).json
        &&& *final(compression_enabled) == (match last_switch(vs, n) { Some(b) => b, None => *old(compression_enabled) })
    }),
{
    if let Some(v) = last_var(vars, "SQZ_HOST") {
        server.host = v;
    }
    if let Some(p) = last_port_var(vars) {
        server.port = p;
    }
    if let Some(v) = last_var(vars, "SQZ_DB_PATH") {
        database.path = v;
    }
    if let Some(v) = last_var(vars, "SQZ_OPENAI_BASE_URL") {
        upstream.openai_base_url = v;
    }
    if let Some(v) = last_var(vars, "SQZ_ANTHROPIC_BASE_URL") {
        upstream.anthropic_base_url = v;
    }
    if let Some(v) = last_var(vars, "SQZ_LOG_LEVEL") {
        logging.level = v;
    }
    if let Some(b) = last_switch_var(vars) {
        *compression_enabled = b;
    }
}

} // verus!
