//! Upstream providers: which one a request is for, where it is sent and which
//! of its headers go along.
use vstd::prelude::*;
use vstd::string::StrSliceExecFns;
use crate::text::{str_eq, concat_str};

verus! {

broadcast use vstd::string::group_string_axioms;

/// An upstream LLM provider.
#[derive(Debug, Clone, Copy, PartialEq, Eq, Structural)]
pub enum Provider {
    OpenAI,
    Anthropic,
}

/// The name of a provider as it is displayed and recorded.
pub open spec fn provider_name(p: Provider) -> Seq<char> {
    match p {
        Provider::OpenAI => "openai"@,
        Provider::Anthropic => "anthropic"@,
    }
}

impl Provider {
    /// The provider's name: `openai` or `anthropic`.
    pub fn as_name(&self) -> (s: String)
        ensures s@ == provider_name(*self),
    {
        match self {
            Provider::OpenAI => "openai".to_string(),
            Provider::Anthropic => "anthropic".to_string(),
        }
    }
}

/// The base URLs of the upstream providers.
#[derive(Debug, Clone)]
pub struct UpstreamConfig {
    pub openai_base_url: String,
    pub anthropic_base_url: String,
}

impl Default for UpstreamConfig {
    fn default() -> (r: UpstreamConfig)
        ensures
            r.openai_base_url@ == "https://api.openai.com"@,
            r.anthropic_base_url@ == "https://api.anthropic.com"@,
    {
        UpstreamConfig {
            openai_base_url: "https://api.openai.com".to_string(),
            anthropic_base_url: "https://api.anthropic.com".to_string(),
        }
    }
}

/// Request headers as (name, value bytes), names in lowercase as HTTP header
/// maps keep them, in the order of the map.
pub type HeaderList = Vec<(String, Vec<u8>)>;

/// The view of a header list.
pub open spec fn header_views(hs: Seq<(String, Vec<u8>)>) -> Seq<(Seq<char>, Seq<u8>)> {
    hs.map_values(|h: (String, Vec<u8>)| (h.0@, h.1@))
}

/// The value of the first header named `name`, from position `i` on.
pub open spec fn first_value_from(hs: Seq<(Seq<char>, Seq<u8>)>, name: Seq<char>, i: int) -> Option<Seq<u8>>
    decreases hs.len() - i,
{
    if i < 0 || i >= hs.len() {
        None
    } else if hs[i].0 == name {
        Some(hs[i].1)
    } else {
        first_value_from(hs, name, i + 1)
    }
}

/// The value of the first header named `name`, as a header map gives it.
pub open spec fn first_value(hs: Seq<(Seq<char>, Seq<u8>)>, name: Seq<char>) -> Option<Seq<u8>> {
    first_value_from(hs, name, 0)
}

/// The provider a request is for: Anthropic when it carries both an
/// `x-api-key` and an `anthropic-version` header, OpenAI otherwise.
pub open spec fn provider_of(hs: Seq<(Seq<char>, Seq<u8>)>) -> Provider {
    if first_value(hs, "x-api-key"@) is Some && first_value(hs, "anthropic-version"@) is Some {
        Provider::Anthropic
    } else {
        Provider::OpenAI
    }
}

/// The headers forwarded to a provider, in order: content type, accept and
/// user agent, then the provider's own authentication headers.
pub open spec fn forwarded_names(p: Provider) -> Seq<Seq<char>> {
    seq!["content-type"@, "accept"@, "user-agent"@] + match p {
        Provider::OpenAI => seq!["authorization"@, "openai-organization"@, "openai-project"@],
        Provider::Anthropic => seq!["x-api-key"@, "anthropic-version"@, "anthropic-beta"@],
    }
}

/// The headers named in `names` that are present, each with its first value.
pub open spec fn forwarded(hs: Seq<(Seq<char>, Seq<u8>)>, names: Seq<Seq<char>>) -> Seq<(Seq<char>, Seq<u8>)>
    decreases names.len(),
{
    if names.len() == 0 {
        Seq::empty()
    } else {
        let r = forwarded(hs, names.drop_last());
        match first_value(hs, names.last()) {
            Some(v) => r.push((names.last(), v)),
            None => r,
        }
    }
}

/// A text without its trailing slashes.
pub open spec fn trim_trailing_slashes(s: Seq<char>) -> Seq<char>
    decreases s.len(),
{
    if s.len() > 0 && s.last() == '/' {
        trim_trailing_slashes(s.drop_last())
    } else {
        s
    }
}

/// The base URL of a provider.
pub open spec fn base_url(p: Provider, config: UpstreamConfig) -> Seq<char> {
    match p {
        Provider::OpenAI => config.openai_base_url@,
        Provider::Anthropic => config.anthropic_base_url@,
    }
}

fn find_first_value(headers: &HeaderList, name: &str) -> (r: Option<Vec<u8>>)
    ensures
        r is None <==> first_value(header_views(headers@), name@) is None,
        r matches Some(v) ==> first_value(header_views(headers@), name@) == Some(v@),
{
    let ghost hv = header_views(headers@);
    let mut i: usize = 0;
    while i < headers.len()
        invariant
            i <= headers@.len(), hv == header_views(headers@),
            first_value_from(hv, name@, i as int) == first_value(hv, name@),
        decreases headers.len() - i,
    {
        proof { assert(hv[i as int] == (headers@[i as int].0@, headers@[i as int].1@)); }
        if str_eq(headers[i].0.as_str(), name) {
            return Some(vstd::slice::slice_to_vec(headers[i].1.as_slice()));
        }
        i = i + 1;
    }
    None
}

/// Detects the provider of a request from its headers: Anthropic when both
/// `x-api-key` and `anthropic-version` are present, OpenAI otherwise.
pub fn detect_provider(headers: &HeaderList) -> (p: Provider)
    ensures p == provider_of(header_views(headers@)),
{
    let has_x_api_key = find_first_value(headers, "x-api-key").is_some();
    let has_anthropic_version = find_first_value(headers, "anthropic-version").is_some();
    if has_x_api_key && has_anthropic_version {
        Provider::Anthropic
    } else {
        Provider::OpenAI
    }
}

/// The full upstream URL for a provider and path: the provider's base URL
/// without trailing slashes, followed by the path.
pub fn upstream_url(provider: &Provider, path: &str, config: &UpstreamConfig) -> (r: String)
    ensures r@ == trim_trailing_slashes(base_url(*provider, *config)) + path@,
{
    let base = match provider {
        Provider::OpenAI => config.openai_base_url.as_str(),
        Provider::Anthropic => config.anthropic_base_url.as_str(),
    };
    let n = base.unicode_len();
    let mut e: usize = n;
    proof { assert(base@.subrange(0, n as int) =~= base@); }
    while e > 0 && base.get_char(e - 1) == '/'
        invariant
            e <= n, n == base@.len(),
            trim_trailing_slashes(base@.subrange(0, e as int)) == trim_trailing_slashes(base@),
        decreases e,
    {
        proof { assert(base@.subrange(0, e as int).drop_last() =~= base@.subrange(0, e - 1)); }
        e = e - 1;
    }
    let trimmed = base.substring_char(0, e);
    proof {
        if e > 0 {
            assert(base@.subrange(0, e as int).last() == base@[e - 1]);
        }
    }
    concat_str(trimmed, path)
}

fn forwarded_name_list(provider: &Provider) -> (r: Vec<&'static str>)
    ensures r@.map_values(|s: &str| s@) == forwarded_names(*provider),
{
    let r = match provider {
        Provider::OpenAI => vec!["content-type", "accept", "user-agent", "authorization", "openai-organization", "openai-project"],
        Provider::Anthropic => vec!["content-type", "accept", "user-agent", "x-api-key", "anthropic-version", "anthropic-beta"],
    };
    proof { assert(r@.map_values(|s: &str| s@) =~= forwarded_names(*provider)); }
    r
}

/// The headers forwarded to a provider: content type, accept and user agent,
/// then `authorization`, `openai-organization` and `openai-project` for
/// OpenAI, or `x-api-key`, `anthropic-version` and `anthropic-beta` for
/// Anthropic; each that is present, with its first value. Everything else,
/// hop-by-hop headers among them, stays behind.
pub fn forward_headers(original: &HeaderList, provider: &Provider) -> (r: HeaderList)
    ensures
        header_views(r@) == forwarded(header_views(original@), forwarded_names(*provider)),
        forall|n: Seq<char>| #![trigger first_value(header_views(original@), n)]
            (n == "content-type"@ || n == "accept"@ || n == "user-agent"@
            || (*provider == Provider::Anthropic && (n == "x-api-key"@ || n == "anthropic-version"@ || n == "anthropic-beta"@))
            || (*provider == Provider::OpenAI && (n == "authorization"@ || n == "openai-organization"@ || n == "openai-project"@)))
            && first_value(header_views(original@), n) is Some
            ==> header_views(r@).contains((n, first_value(header_views(original@), n)->0)),
{
    proof {
        let hv = header_views(original@);
        let ns = forwarded_names(*provider);
        assert forall|n: Seq<char>| #![trigger first_value(hv, n)]
            (n == "content-type"@ || n == "accept"@ || n == "user-agent"@
            || (*provider == Provider::Anthropic && (n == "x-api-key"@ || n == "anthropic-version"@ || n == "anthropic-beta"@))
            || (*provider == Provider::OpenAI && (n == "authorization"@ || n == "openai-organization"@ || n == "openai-project"@)))
            && first_value(hv, n) is Some
            implies forwarded(hv, ns).contains((n, first_value(hv, n)->0)) by {
            if n == "content-type"@ { assert(ns[0] == n); }
            else if n == "accept"@ { assert(ns[1] == n); }
            else if n == "user-agent"@ { assert(ns[2] == n); }
            else if *provider == Provider::Anthropic {
                if n == "x-api-key"@ { assert(ns[3] == n); }
                else if n == "anthropic-version"@ { assert(ns[4] == n); }
                else { assert(ns[5] == n); }
            } else {
                if n == "authorization"@ { assert(ns[3] == n); }
                else if n == "openai-organization"@ { assert(ns[4] == n); }
                else { assert(ns[5] == n); }
            }
            lemma_forwarded_complete(hv, ns, n);
        }
    }
    let names = forwarded_name_list(provider);
    let ghost ns = names@.map_values(|s: &str| s@);
    let ghost hv = header_views(original@);
    let mut r: HeaderList = Vec::new();
    let mut i: usize = 0;
    proof { assert(header_views(r@) =~= forwarded(hv, ns.subrange(0, 0))); }
    while i < names.len()
        invariant
            i <= names@.len(), ns == names@.map_values(|s: &str| s@), hv == header_views(original@),
            header_views(r@) == forwarded(hv, ns.subrange(0, i as int)),
        decreases names.len() - i,
    {
        let name = names[i];
        proof {
            assert(ns.subrange(0, i + 1).drop_last() =~= ns.subrange(0, i as int));
            assert(ns.subrange(0, i + 1).last() == name@);
        }
        match find_first_value(original, name) {
            Some(v) => {
                let ghost old_r = header_views(r@);
                r.push((name.to_string(), v));
                proof { assert(header_views(r@) =~= old_r.push((name@, v@))); }
            },
            None => {},
        }
        i = i + 1;
    }
    proof { assert(ns.subrange(0, names@.len() as int) =~= ns); }
    r
}

/// Only the listed headers are forwarded: every forwarded header carries one
/// of the names in `names`, with the first value the request had for it.
pub proof fn lemma_forwarded_names_only(hs: Seq<(Seq<char>, Seq<u8>)>, names: Seq<Seq<char>>)
    ensures forall|i: int| 0 <= i < forwarded(hs, names).len() ==> names.contains((#[trigger] forwarded(hs, names)[i]).0)
        && first_value(hs, forwarded(hs, names)[i].0) == Some(forwarded(hs, names)[i].1),
    decreases names.len(),
{
    if names.len() > 0 {
        lemma_forwarded_names_only(hs, names.drop_last());
        let r = forwarded(hs, names.drop_last());
        let f = forwarded(hs, names);
        assert forall|i: int| 0 <= i < f.len() implies names.contains((#[trigger] f[i]).0)
            && first_value(hs, f[i].0) == Some(f[i].1) by {
            if i < r.len() {
                assert(f[i] == r[i]);
                let j = choose|j: int| 0 <= j < names.drop_last().len() && names.drop_last()[j] == r[i].0;
                assert(names[j] == r[i].0);
            } else {
                assert(f[i].0 == names.last());
                assert(names[names.len() - 1] == names.last());
            }
        }
    }
}

/// A base URL without trailing slashes does not end with a slash, so the
/// path that follows it is joined with exactly its own leading slash.
pub proof fn lemma_trimmed_no_trailing_slash(s: Seq<char>)
    ensures
        trim_trailing_slashes(s).len() > 0 ==> trim_trailing_slashes(s).last() != '/',
        trim_trailing_slashes(s).len() <= s.len(),
        trim_trailing_slashes(s) == s.subrange(0, trim_trailing_slashes(s).len() as int),
    decreases s.len(),
{
    if s.len() > 0 && s.last() == '/' {
        lemma_trimmed_no_trailing_slash(s.drop_last());
        let t = trim_trailing_slashes(s.drop_last());
        assert(s.drop_last().subrange(0, t.len() as int) =~= s.subrange(0, t.len() as int));
    } else {
        assert(s.subrange(0, s.len() as int) =~= s);
    }
}

/// Every listed header the request carries is forwarded with its first
/// value; so the API key reaches the provider (`authorization` for OpenAI,
/// `x-api-key` for Anthropic).
pub proof fn lemma_forwarded_complete(hs: Seq<(Seq<char>, Seq<u8>)>, names: Seq<Seq<char>>, n: Seq<char>)
    requires names.contains(n), first_value(hs, n) is Some,
    ensures forwarded(hs, names).contains((n, first_value(hs, n)->0)),
    decreases names.len(),
{
    let f = forwarded(hs, names);
    if names.last() == n {
        assert(f.last() == (n, first_value(hs, n)->0));
        assert(f[f.len() - 1] == f.last());
    } else {
        let k = choose|k: int| 0 <= k < names.len() && names[k] == n;
        assert(k < names.len() - 1);
        assert(names.drop_last()[k] == n);
        lemma_forwarded_complete(hs, names.drop_last(), n);
        let r = forwarded(hs, names.drop_last());
        let j = choose|j: int| 0 <= j < r.len() && r[j] == (n, first_value(hs, n)->0);
        assert(f[j] == r[j]);
    }
}

} // verus!
