//! Regular-expression preprocessing that strips Markdown and HTML noise from
//! the parts of a text that are not protected.
use vstd::prelude::*;
use vstd::string::StringSliceAdditionalSpecFns;
use vstd::utf8::*;
use crate::code_fence::{find_protected_regions_in_bytes, protected_regions_of, overlaps_some_region,
    is_in_any_protected_region, ProtectedRegion};
use crate::text::{str_from_utf8, string_from_utf8, splice, splice_bytes, lemma_boundary_byte,
    dedup_adjacent, dedup_strings, copy_string, str_eq};
use crate::types::CoreError;

verus! {

broadcast use vstd::string::group_string_axioms;

/// Whether a pattern compiles as a regular expression of the `regex` crate.
pub uninterp spec fn regex_compiles(pattern: Seq<char>) -> bool;

/// The byte spans of the successive non-overlapping matches of a compiled
/// pattern in a haystack, as `Regex::find_iter` yields them.
pub uninterp spec fn regex_find_spans(pattern: Seq<char>, haystack: Seq<char>) -> Seq<(int, int)>;

/// The haystack with the first match of the pattern replaced by the
/// replacement, capture references such as `$1` expanded, as `Regex::replace`
/// computes it.
pub uninterp spec fn regex_replace_first(pattern: Seq<char>, haystack: Seq<char>, replacement: Seq<char>) -> Seq<char>;

/// Calls `Regex::new`: `Ok` exactly when the pattern compiles; the error
/// carries the message of `regex::Error`.
#[verifier::external_body]
fn regex_check(pattern: &str) -> (r: Result<(), String>)
    ensures r is Ok <==> regex_compiles(pattern@),
{
    regex::Regex::new(pattern).map(|_| ()).map_err(|e| e.to_string())
}

/// Calls `Regex::find_iter` on the compiled pattern. As the `regex` crate
/// documents, the matches are non-overlapping and come from left to right,
/// each with `start <= end`, and their offsets fall on character boundaries
/// of the haystack.
#[verifier::external_body]
fn regex_find_all(pattern: &str, haystack: &str) -> (r: Vec<(usize, usize)>)
    requires regex_compiles(pattern@),
    ensures
        r@.map_values(|m: (usize, usize)| (m.0 as int, m.1 as int)) == regex_find_spans(pattern@, haystack@),
        spans_well_placed(r@.map_values(|m: (usize, usize)| (m.0 as int, m.1 as int)), haystack.spec_bytes()),
{
    let re = regex::Regex::new(pattern).unwrap();
    re.find_iter(haystack).map(|m| (m.start(), m.end())).collect()
}

/// Calls `Regex::replace` on the compiled pattern.
#[verifier::external_body]
fn regex_replace(pattern: &str, haystack: &str, replacement: &str) -> (r: String)
    requires regex_compiles(pattern@),
    ensures r@ == regex_replace_first(pattern@, haystack@, replacement@),
{
    let re = regex::Regex::new(pattern).unwrap();
    re.replace(haystack, replacement).into_owned()
}

/// Spans lie within valid UTF-8 `b`, start and end on character boundaries,
/// and come in order without overlapping.
pub open spec fn spans_well_placed(spans: Seq<(int, int)>, b: Seq<u8>) -> bool {
    &&& forall|k: int| 0 <= k < spans.len() ==> 0 <= (#[trigger] spans[k]).0 <= spans[k].1 <= b.len()
        && is_char_boundary(b, spans[k].0) && is_char_boundary(b, spans[k].1)
    &&& forall|k: int, l: int| 0 <= k < l < spans.len() ==> (#[trigger] spans[k]).1 <= (#[trigger] spans[l]).0
}

/// The first `k` spans that do not overlap a protected region.
pub open spec fn kept_spans(spans: Seq<(int, int)>, prot: Seq<ProtectedRegion>, k: int) -> Seq<(int, int)>
    decreases k,
{
    if k <= 0 {
        Seq::empty()
    } else {
        let rest = kept_spans(spans, prot, k - 1);
        if overlaps_some_region(spans[k - 1].0, spans[k - 1].1, prot) {
            rest
        } else {
            rest.push(spans[k - 1])
        }
    }
}

/// The bytes that replace a matched span: the rule's replacement applied to
/// the matched text.
pub open spec fn replacement_bytes(b: Seq<u8>, pattern: Seq<char>, rep: Seq<char>, span: (int, int)) -> Seq<u8> {
    encode_utf8(regex_replace_first(pattern, decode_utf8(b.subrange(span.0, span.1)), rep))
}

/// The bytes after replacing spans `k..` of `b`, the last one first.
pub open spec fn apply_spans(b: Seq<u8>, spans: Seq<(int, int)>, pattern: Seq<char>, rep: Seq<char>, k: int) -> Seq<u8>
    decreases spans.len() - k,
{
    if k >= spans.len() || k < 0 {
        b
    } else {
        splice(apply_spans(b, spans, pattern, rep, k + 1), spans[k].0, spans[k].1,
            replacement_bytes(b, pattern, rep, spans[k]))
    }
}

/// A text after one rule: every match outside the protected regions is
/// replaced.
pub open spec fn rule_result(text: Seq<char>, pattern: Seq<char>, rep: Seq<char>) -> Seq<char> {
    let b = encode_utf8(text);
    let spans = regex_find_spans(pattern, text);
    let kept = kept_spans(spans, protected_regions_of(b), spans.len() as int);
    decode_utf8(apply_spans(b, kept, pattern, rep, 0))
}

/// A preprocessing rule given by its id, pattern and replacement.
pub type RuleSpec = (Seq<char>, Seq<char>, Seq<char>);

/// Running rules `k..` on `text`, recording the id of each rule that changed it.
pub open spec fn process_from(rules: Seq<RuleSpec>, k: int, text: Seq<char>, ids: Seq<Seq<char>>) -> (Seq<char>, Seq<Seq<char>>)
    decreases rules.len() - k,
{
    if k >= rules.len() || k < 0 {
        (text, ids)
    } else {
        let next = rule_result(text, rules[k].1, rules[k].2);
        if next != text {
            process_from(rules, k + 1, next, ids.push(rules[k].0))
        } else {
            process_from(rules, k + 1, text, ids)
        }
    }
}

/// The text after preprocessing and the ids of the rules that changed it.
pub open spec fn preprocessed(rules: Seq<RuleSpec>, text: Seq<char>) -> (Seq<char>, Seq<Seq<char>>) {
    if rules.len() == 0 || text.len() == 0 {
        (text, Seq::empty())
    } else {
        let (t, ids) = process_from(rules, 0, text, Seq::empty());
        (t, dedup_adjacent(ids))
    }
}

/// The built-in structural rules: Markdown escapes, headings, bold, italic,
/// rules, blank-line runs, links, bare URLs, checkboxes, parenthesised list
/// numbers, `<br>` tags and three HTML entities, in this order.
pub open spec fn structural_rule_specs() -> Seq<RuleSpec> {
    seq![
        ("struct-md-escape"@, "\\\\([*_\\-#\\[\\]()\\\\ ])"@, "$1"@),
        ("struct-md-heading"@, "(?m)^#{1,6}\\s+"@, ""@),
        ("struct-md-bold"@, "\\*\\*(.+?)\\*\\*"@, "$1"@),
        ("struct-md-italic"@, "\\*([^*\\n]+)\\*"@, "$1"@),
        ("struct-md-hr"@, "(?m)^-{3,}\\s*$"@, ""@),
        ("struct-md-blank"@, "\\n{3,}"@, "\n\n"@),
        ("struct-md-link"@, "\\[([^\\]]+)\\]\\([^)]+\\)"@, "$1"@),
        ("struct-bare-url"@, "https?://\\S+"@, ""@),
        ("struct-checkbox"@, "(?m)^-\\s*\\[[ x]\\]\\s*"@, ""@),
        ("struct-list-paren"@, "(?m)^(\\d+)\\)\\s"@, "$1. "@),
        ("struct-html-br"@, "<br\\s*/?>"@, " "@),
        ("struct-html-nbsp"@, "&nbsp;"@, " "@),
        ("struct-html-mdash"@, "&mdash;"@, "\u{2014}"@),
        ("struct-html-ndash"@, "&ndash;"@, "\u{2013}"@),
    ]
}

/// With the structural rules on, a `<br>` tag and a `&nbsp;` entity become a
/// space, so the words on either side stay apart; the dash entities become
/// their dashes.
pub proof fn lemma_structural_separators(config: PreprocessorConfig)
    ensures config.structural_enabled ==> {
        &&& configured_rules(config).contains(("struct-html-br"@, "<br\\s*/?>"@, " "@))
        &&& configured_rules(config).contains(("struct-html-nbsp"@, "&nbsp;"@, " "@))
        &&& configured_rules(config).contains(("struct-html-mdash"@, "&mdash;"@, "\u{2014}"@))
        &&& configured_rules(config).contains(("struct-html-ndash"@, "&ndash;"@, "\u{2013}"@))
    },
{
    if config.structural_enabled {
        let r = configured_rules(config);
        assert(r[10] == ("struct-html-br"@, "<br\\s*/?>"@, " "@));
        assert(r[11] == ("struct-html-nbsp"@, "&nbsp;"@, " "@));
        assert(r[12] == ("struct-html-mdash"@, "&mdash;"@, "\u{2014}"@));
        assert(r[13] == ("struct-html-ndash"@, "&ndash;"@, "\u{2013}"@));
    }
}

/// The rules a configuration selects: the structural ones when enabled; the
/// semantic group holds no regular-expression rule.
pub open spec fn configured_rules(config: PreprocessorConfig) -> Seq<RuleSpec> {
    if config.structural_enabled { structural_rule_specs() } else { Seq::empty() }
}

/// The result of preprocessing a text.
#[derive(Debug, Clone)]
pub struct PreprocessResult {
    pub text: String,
    pub rules_applied: Vec<String>,
}

/// Which groups of preprocessing rules are enabled.
#[derive(Debug, Clone, Copy)]
pub struct PreprocessorConfig {
    pub enabled: bool,
    pub structural_enabled: bool,
    pub semantic_enabled: bool,
}

impl Default for PreprocessorConfig {
    fn default() -> (r: PreprocessorConfig)
        ensures r.enabled && r.structural_enabled && r.semantic_enabled,
    {
        PreprocessorConfig { enabled: true, structural_enabled: true, semantic_enabled: true }
    }
}

#[derive(Debug)]
struct RegexRule {
    id: String,
    pattern: String,
    replacement: String,
}

/// Applies regular-expression rules outside protected regions.
#[derive(Debug)]
pub struct Preprocessor {
    rules: Vec<RegexRule>,
}

impl Preprocessor {
    /// The preprocessor's rules as (id, pattern, replacement).
    pub closed spec fn rule_specs(self) -> Seq<RuleSpec> {
        self.rules@.map_values(|r: RegexRule| (r.id@, r.pattern@, r.replacement@))
    }

    /// Every rule's pattern compiles.
    #[verifier::type_invariant]
    closed spec fn wf(self) -> bool {
        forall|k: int| 0 <= k < self.rules@.len() ==> regex_compiles((#[trigger] self.rules@[k]).pattern@)
    }

    /// Builds a preprocessor from configuration; fails when one of the
    /// selected patterns does not compile.
    pub fn build(config: &PreprocessorConfig) -> (r: Result<Preprocessor, CoreError>)
        ensures
            r is Ok <==> (forall|k: int| 0 <= k < configured_rules(*config).len()
                ==> regex_compiles(#[trigger] configured_rules(*config)[k].1)),
            r matches Ok(p) ==> p.rule_specs() == configured_rules(*config),
            r matches Err(e) ==> e is RegexError,
            config.structural_enabled ==> (r matches Ok(p) ==> {
                &&& p.rule_specs().contains(("struct-html-br"@, "<br\\s*/?>"@, " "@))
                &&& p.rule_specs().contains(("struct-html-nbsp"@, "&nbsp;"@, " "@))
            }),
    {
        proof { lemma_structural_separators(*config); }
        let mut rules: Vec<RegexRule> = Vec::new();
        if config.structural_enabled {
            let defs = Self::structural_rules();
            assert(structural_rule_specs().len() == 14);
            let mut i: usize = 0;
            while i < defs.len()
                invariant
                    i <= defs@.len(),
                    config.structural_enabled,
                    structural_rule_specs().len() == 14,
                    defs@.map_values(|r: RegexRule| (r.id@, r.pattern@, r.replacement@)) == structural_rule_specs(),
                    rules@.map_values(|r: RegexRule| (r.id@, r.pattern@, r.replacement@))
                        == structural_rule_specs().subrange(0, i as int),
                    forall|k: int| 0 <= k < i ==> regex_compiles(#[trigger] structural_rule_specs()[k].1),
                    forall|k: int| 0 <= k < rules@.len() ==> regex_compiles((#[trigger] rules@[k]).pattern@),
                decreases defs.len() - i,
            {
                let d = &defs[i];
                proof {
                    assert(defs@.map_values(|r: RegexRule| (r.id@, r.pattern@, r.replacement@))[i as int]
                        == (d.id@, d.pattern@, d.replacement@));
                }
                match regex_check(d.pattern.as_str()) {
                    Ok(()) => {},
                    Err(msg) => {
                        assert(!regex_compiles(configured_rules(*config)[i as int].1));
                        return Err(CoreError::RegexError(msg));
                    },
                }
                let ghost old_rules = rules@;
                rules.push(RegexRule {
                    id: copy_string(&d.id),
                    pattern: copy_string(&d.pattern),
                    replacement: copy_string(&d.replacement),
                });
                proof {
                    assert(rules@ == old_rules.push(rules@.last()));
                    assert(rules@.map_values(|r: RegexRule| (r.id@, r.pattern@, r.replacement@))
                        =~= old_rules.map_values(|r: RegexRule| (r.id@, r.pattern@, r.replacement@))
                            .push((d.id@, d.pattern@, d.replacement@)));
                    assert(rules@.map_values(|r: RegexRule| (r.id@, r.pattern@, r.replacement@))
                        =~= structural_rule_specs().subrange(0, i + 1));
                }
                i = i + 1;
            }
            proof { assert(structural_rule_specs().subrange(0, 14) =~= structural_rule_specs()); }
        } else {
            proof { assert(rules@.map_values(|r: RegexRule| (r.id@, r.pattern@, r.replacement@)) =~= Seq::<RuleSpec>::empty()); }
        }
        Ok(Preprocessor { rules })
    }

    fn structural_rules() -> (r: Vec<RegexRule>)
        ensures r@.map_values(|r: RegexRule| (r.id@, r.pattern@, r.replacement@)) == structural_rule_specs(),
    {
        let r = vec![
            Self::rule("struct-md-escape", "\\\\([*_\\-#\\[\\]()\\\\ ])", "$1"),
            Self::rule("struct-md-heading", "(?m)^#{1,6}\\s+", ""),
            Self::rule("struct-md-bold", "\\*\\*(.+?)\\*\\*", "$1"),
            Self::rule("struct-md-italic", "\\*([^*\\n]+)\\*", "$1"),
            Self::rule("struct-md-hr", "(?m)^-{3,}\\s*$", ""),
            Self::rule("struct-md-blank", "\\n{3,}", "\n\n"),
            Self::rule("struct-md-link", "\\[([^\\]]+)\\]\\([^)]+\\)", "$1"),
            Self::rule("struct-bare-url", "https?://\\S+", ""),
            Self::rule("struct-checkbox", "(?m)^-\\s*\\[[ x]\\]\\s*", ""),
            Self::rule("struct-list-paren", "(?m)^(\\d+)\\)\\s", "$1. "),
            Self::rule("struct-html-br", "<br\\s*/?>", " "),
            Self::rule("struct-html-nbsp", "&nbsp;", " "),
            Self::rule("struct-html-mdash", "&mdash;", "\u{2014}"),
            Self::rule("struct-html-ndash", "&ndash;", "\u{2013}"),
        ];
        proof {
            assert(r@.map_values(|r: RegexRule| (r.id@, r.pattern@, r.replacement@)) =~= structural_rule_specs());
        }
        r
    }

    fn rule(id: &str, pattern: &str, replacement: &str) -> (r: RegexRule)
        ensures r.id@ == id@, r.pattern@ == pattern@, r.replacement@ == replacement@,
    {
        RegexRule { id: id.to_string(), pattern: pattern.to_string(), replacement: replacement.to_string() }
    }

    /// Applies one rule to `text`: every match that does not overlap a
    /// protected region is replaced by the rule's replacement applied to the
    /// matched text.
    fn apply_rule_respecting_protection(text: &str, rule: &RegexRule, protected: &Vec<ProtectedRegion>) -> (r: String)
        requires
            regex_compiles(rule.pattern@),
            protected@ == protected_regions_of(text.spec_bytes()),
        ensures r@ == rule_result(text@, rule.pattern@, rule.replacement@),
    {
        let ghost b = text.spec_bytes();
        let ghost pat = rule.pattern@;
        let ghost rep = rule.replacement@;
        proof { encode_utf8_valid_utf8(text@); }
        let spans = regex_find_all(rule.pattern.as_str(), text);
        let ghost sp = spans@.map_values(|m: (usize, usize)| (m.0 as int, m.1 as int));
        let mut kept: Vec<(usize, usize)> = Vec::new();
        let mut i: usize = 0;
        while i < spans.len()
            invariant
                i <= spans@.len(),
                sp == spans@.map_values(|m: (usize, usize)| (m.0 as int, m.1 as int)),
                kept@.map_values(|m: (usize, usize)| (m.0 as int, m.1 as int)) == kept_spans(sp, protected@, i as int),
            decreases spans.len() - i,
        {
            let (s, e) = spans[i];
            if !is_in_any_protected_region(s, e, protected.as_slice()) {
                kept.push((s, e));
            }
            proof {
                assert(sp[i as int] == (s as int, e as int));
                assert(kept@.map_values(|m: (usize, usize)| (m.0 as int, m.1 as int)) =~= kept_spans(sp, protected@, i + 1));
            }
            i = i + 1;
        }
        let ghost ks = kept@.map_values(|m: (usize, usize)| (m.0 as int, m.1 as int));
        proof {
            assert(sp.len() == spans@.len());
            lemma_kept_spans(sp, protected@, sp.len() as int, b);
        }
        if kept.len() == 0 {
            proof {
                assert(apply_spans(b, ks, pat, rep, 0) == b);
                encode_utf8_decode_utf8(text@);
            }
            return text.to_string();
        }
        let bytes = text.as_bytes();
        let mut r: Vec<u8> = vstd::slice::slice_to_vec(bytes);
        let mut k: usize = kept.len();
        let ghost mut tail: Seq<u8> = Seq::empty();
        proof {
            assert(r@ =~= b.subrange(0, b.len() as int) + tail);
            is_char_boundary_start_end_of_seq(b);
        }
        while k > 0
            invariant
                k <= kept@.len(),
                bytes@ == b, valid_utf8(b), is_char_boundary(b, b.len() as int),
                ks == kept@.map_values(|m: (usize, usize)| (m.0 as int, m.1 as int)),
                spans_well_placed(ks, b),
                regex_compiles(pat), pat == rule.pattern@, rep == rule.replacement@,
                r@ == apply_spans(b, ks, pat, rep, k as int),
                r@ == b.subrange(0, start_at(ks, b, k as int)) + tail,
                valid_utf8(tail),
            decreases k,
        {
            k = k - 1;
            let (s, e) = kept[k];
            proof { assert(ks[k as int] == (s as int, e as int)); }
            let piece_bytes = vstd::slice::slice_subrange(bytes, s, e);
            proof {
                valid_utf8_split(b, e as int);
                assert(b.subrange(0, e as int).subrange(s as int, e as int) =~= piece_bytes@);
                lemma_boundary_byte(b, s as int);
                lemma_boundary_byte(b.subrange(0, e as int), s as int);
                if (s as int) < (e as int) {
                    assert(b.subrange(0, e as int)[s as int] == b[s as int]);
                }
                valid_utf8_split(b.subrange(0, e as int), s as int);
                assert(b.subrange(0, e as int).subrange(s as int, e as int) =~= piece_bytes@);
            }
            let piece = match str_from_utf8(piece_bytes) {
                Some(p) => p,
                None => {
                    assert(false);
                    return text.to_string();
                },
            };
            let replaced = regex_replace(rule.pattern.as_str(), piece, rule.replacement.as_str());
            let ghost old_r = r@;
            proof {
                encode_utf8_valid_utf8(replaced@);
                lemma_splice_shape(b, old_r, start_at(ks, b, k + 1), tail, s as int, e as int,
                    encode_utf8(replaced@));
                tail = encode_utf8(replaced@) + b.subrange(e as int, start_at(ks, b, k + 1)) + tail;
            }
            r = splice_bytes(r.as_slice(), s, e, replaced.as_str().as_bytes());
            proof {
                assert(replacement_bytes(b, pat, rep, ks[k as int]) == encode_utf8(replaced@));
            }
        }
        proof {
            valid_utf8_split(b, start_at(ks, b, 0));
            valid_utf8_concat(b.subrange(0, start_at(ks, b, 0)), tail);
        }
        match string_from_utf8(r) {
            Some(out) => out,
            None => {
                assert(false);
                text.to_string()
            },
        }
    }

    /// Applies every rule in order, each one to the result of the previous
    /// one and outside the regions protected in that result, and records the
    /// ids of the rules that changed the text.
    pub fn process(&self, text: &str) -> (r: PreprocessResult)
        ensures
            r.text@ == preprocessed(self.rule_specs(), text@).0,
            r.rules_applied@.map_values(|x: String| x@) == preprocessed(self.rule_specs(), text@).1,
    {
        proof { use_type_invariant(self); }
        if self.rules.len() == 0 || text.is_empty() {
            let v: Vec<String> = Vec::new();
            proof { assert(v@.map_values(|x: String| x@) =~= Seq::<Seq<char>>::empty()); }
            return PreprocessResult { text: text.to_string(), rules_applied: v };
        }
        let ghost rs = self.rule_specs();
        let mut result = text.to_string();
        let mut ids: Vec<String> = Vec::new();
        let mut i: usize = 0;
        proof { assert(ids@.map_values(|x: String| x@) =~= Seq::<Seq<char>>::empty()); }
        while i < self.rules.len()
            invariant
                i <= self.rules@.len(),
                rs == self.rule_specs(),
                self.wf(),
                process_from(rs, i as int, result@, ids@.map_values(|x: String| x@))
                    == process_from(rs, 0, text@, Seq::empty()),
            decreases self.rules.len() - i,
        {
            let rule = &self.rules[i];
            proof {
                assert(rs[i as int] == (rule.id@, rule.pattern@, rule.replacement@));
                assert(regex_compiles(self.rules@[i as int].pattern@));
            }
            let protected = find_protected_regions_in_bytes(result.as_str().as_bytes());
            let new_text = Self::apply_rule_respecting_protection(result.as_str(), rule, &protected);
            if !str_eq(new_text.as_str(), result.as_str()) {
                let ghost old_ids = ids@;
                ids.push(copy_string(&rule.id));
                proof {
                    assert(ids@.map_values(|x: String| x@) =~= old_ids.map_values(|x: String| x@).push(rule.id@));
                }
                result = new_text;
            }
            i = i + 1;
        }
        let rules_applied = dedup_strings(ids);
        PreprocessResult { text: result, rules_applied }
    }
}

/// Where the unchanged prefix ends before span `k` is replaced: the start of
/// span `k`, or the end of the text after the last span.
pub open spec fn start_at(ks: Seq<(int, int)>, b: Seq<u8>, k: int) -> int {
    if 0 <= k < ks.len() { ks[k].0 } else { b.len() as int }
}

/// Replacing `[s, e)` in a text that agrees with valid `b` up to `sp` keeps
/// the prefix of `b` up to `s`, followed by valid UTF-8.
pub proof fn lemma_splice_shape(b: Seq<u8>, a: Seq<u8>, sp: int, t: Seq<u8>, s: int, e: int, rep: Seq<u8>)
    requires
        valid_utf8(b), valid_utf8(t), valid_utf8(rep),
        a == b.subrange(0, sp) + t,
        0 <= s <= e <= sp <= b.len(),
        is_char_boundary(b, s), is_char_boundary(b, e), is_char_boundary(b, sp),
    ensures
        splice(a, s, e, rep) == b.subrange(0, s) + (rep + b.subrange(e, sp) + t),
        valid_utf8(rep + b.subrange(e, sp) + t),
{
    assert(a.subrange(0, s) =~= b.subrange(0, s));
    assert(a.subrange(e, a.len() as int) =~= b.subrange(e, sp) + t);
    assert(splice(a, s, e, rep) =~= b.subrange(0, s) + (rep + b.subrange(e, sp) + t));
    valid_utf8_split(b, sp);
    let pre = b.subrange(0, sp);
    lemma_boundary_byte(b, e);
    lemma_boundary_byte(pre, e);
    if e < sp {
        assert(pre[e] == b[e]);
    }
    valid_utf8_split(pre, e);
    assert(pre.subrange(e, sp) =~= b.subrange(e, sp));
    valid_utf8_concat(rep, b.subrange(e, sp));
    valid_utf8_concat(rep + b.subrange(e, sp), t);
}

/// The kept spans are well placed whenever all spans are, and each ends
/// before every span not yet considered starts.
pub proof fn lemma_kept_spans(spans: Seq<(int, int)>, prot: Seq<ProtectedRegion>, k: int, b: Seq<u8>)
    requires spans_well_placed(spans, b), 0 <= k <= spans.len(),
    ensures
        spans_well_placed(kept_spans(spans, prot, k), b),
        forall|x: int, j: int| 0 <= x < kept_spans(spans, prot, k).len() && k <= j < spans.len()
            ==> (#[trigger] kept_spans(spans, prot, k)[x]).1 <= (#[trigger] spans[j]).0,
    decreases k,
{
    if k > 0 {
        lemma_kept_spans(spans, prot, k - 1, b);
        let rest = kept_spans(spans, prot, k - 1);
        let cur = kept_spans(spans, prot, k);
        if !overlaps_some_region(spans[k - 1].0, spans[k - 1].1, prot) {
            assert(cur == rest.push(spans[k - 1]));
            assert forall|x: int| 0 <= x < cur.len() implies
                0 <= (#[trigger] cur[x]).0 <= cur[x].1 <= b.len() && is_char_boundary(b, cur[x].0)
                && is_char_boundary(b, cur[x].1) by {
                if x < rest.len() { assert(cur[x] == rest[x]); }
            }
            assert forall|x: int, y: int| 0 <= x < y < cur.len() implies (#[trigger] cur[x]).1 <= (#[trigger] cur[y]).0 by {
                if y < rest.len() {
                    assert(cur[x] == rest[x] && cur[y] == rest[y]);
                } else {
                    assert(cur[x] == rest[x]);
                    assert(rest[x].1 <= spans[k - 1].0);
                }
            }
            assert forall|x: int, j: int| 0 <= x < cur.len() && k <= j < spans.len()
                implies (#[trigger] cur[x]).1 <= (#[trigger] spans[j]).0 by {
                if x < rest.len() {
                    assert(cur[x] == rest[x]);
                    assert(rest[x].1 <= spans[j].0);
                } else {
                    assert(spans[k - 1].1 <= spans[j].0);
                }
            }
        }
    }
}

/// A regular-expression rule replaces only matches that overlap no protected
/// region: every kept span lies outside all of them.
pub proof fn lemma_kept_spans_avoid_regions(spans: Seq<(int, int)>, prot: Seq<ProtectedRegion>, k: int)
    ensures forall|x: int| 0 <= x < kept_spans(spans, prot, k).len()
        ==> !overlaps_some_region((#[trigger] kept_spans(spans, prot, k)[x]).0, kept_spans(spans, prot, k)[x].1, prot),
    decreases k,
{
    if k > 0 {
        lemma_kept_spans_avoid_regions(spans, prot, k - 1);
        let rest = kept_spans(spans, prot, k - 1);
        let cur = kept_spans(spans, prot, k);
        assert forall|x: int| 0 <= x < cur.len() implies !overlaps_some_region((#[trigger] cur[x]).0, cur[x].1, prot) by {
            if x < rest.len() {
                assert(cur[x] == rest[x]);
            }
        }
    }
}

} // verus!
