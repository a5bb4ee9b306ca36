//! The compression engine: the rules of the three layers ranked into one
//! table, matched case-insensitively with an Aho-Corasick automaton, and
//! applied outside code, JSON and protected domain terms.
use vstd::prelude::*;
use vstd::utf8::*;
use crate::types::{Rule, RuleLayer, RuleView, rule_view, CoreError, DomainConfig, DomainRule, CompressorConfig,
    LayersEnabled, CompressionResult, CompressionLevel};
use crate::layer2_domain::{DomainLayer, copy_config};
use crate::domain_detector::{detection_view, detect_domain, detected_domain, keywords_nonempty};
use crate::order::{ascending_set, insert_ascending};
use crate::text::{copy_string, copy_opt_string, str_eq, concat_str, lowercase, lowercase_chars, dedup_adjacent,
    dedup_strings};
use crate::rewrite::{matches_shaped, rewritten, selected_matches, apply_matches};
use crate::code_fence::{ProtectedRegion, protected_regions_of, find_protected_regions};
use crate::preprocessor::{Preprocessor, preprocessed};
use crate::token_counter::{TokenCounter, cl100k_token_count};

verus! {

broadcast use vstd::string::group_string_axioms;

/// Whether an Aho-Corasick automaton with ASCII case insensitivity can be
/// built from the patterns, with leftmost-first match semantics when
/// `leftmost` holds and the standard ones otherwise
/// (`AhoCorasickBuilder::build` fails only when one of the crate's size
/// limits is exceeded).
pub uninterp spec fn ac_builds(patterns: Seq<Seq<char>>, leftmost: bool) -> bool;

/// The matches `(start, end, pattern index)`, as byte offsets, that
/// `AhoCorasick::find_iter` reports in a haystack for an automaton built with
/// ASCII case insensitivity and leftmost-first match semantics when
/// `leftmost` holds (of the matches that start first, the one whose pattern
/// comes first in the list), the standard ones otherwise.
pub uninterp spec fn ac_find_iter(patterns: Seq<Seq<char>>, haystack: Seq<char>, leftmost: bool) -> Seq<(int, int, int)>;

/// The views of strings.
pub open spec fn string_views(v: Seq<String>) -> Seq<Seq<char>> {
    v.map_values(|s: String| s@)
}

/// Match triples as integers.
pub open spec fn triples(v: Seq<(usize, usize, usize)>) -> Seq<(int, int, int)> {
    v.map_values(|m: (usize, usize, usize)| (m.0 as int, m.1 as int, m.2 as int))
}

/// Calls `AhoCorasickBuilder::build` with ASCII case insensitivity and the
/// match kind that `leftmost` selects (`LeftmostFirst` or `Standard`): `Ok`
/// exactly when the automaton can be built; the error carries the message of
/// `BuildError`.
#[verifier::external_body]
fn ac_check(patterns: &Vec<String>, leftmost: bool) -> (r: Result<(), String>)
    ensures r is Ok <==> ac_builds(string_views(patterns@), leftmost),
{
    let kind = if leftmost { aho_corasick::MatchKind::LeftmostFirst } else { aho_corasick::MatchKind::Standard };
    aho_corasick::AhoCorasick::builder().ascii_case_insensitive(true).match_kind(kind).build(patterns)
        .map(|_| ()).map_err(|e| e.to_string())
}

/// Builds the automaton as `ac_check` does and collects `find_iter` over the
/// haystack, each match as (start byte, end byte, pattern index). As the
/// crate's `Match` guarantees, a match's start is not after its end, and the
/// pattern index is the position of the matched pattern among those the
/// automaton was built from.
#[verifier::external_body]
fn ac_find_all(patterns: &Vec<String>, haystack: &str, leftmost: bool) -> (r: Vec<(usize, usize, usize)>)
    requires ac_builds(string_views(patterns@), leftmost),
    ensures
        triples(r@) == ac_find_iter(string_views(patterns@), haystack@, leftmost),
        matches_shaped(triples(r@), patterns@.len() as int),
{
    let kind = if leftmost { aho_corasick::MatchKind::LeftmostFirst } else { aho_corasick::MatchKind::Standard };
    let ac = aho_corasick::AhoCorasick::builder().ascii_case_insensitive(true).match_kind(kind).build(patterns).unwrap();
    ac.find_iter(haystack).map(|m| (m.start(), m.end(), m.pattern().as_usize())).collect()
}

/// `a` ranks before `b`: a higher priority, or the same priority and a
/// longer pattern in bytes.
pub open spec fn ranks_before(a: RuleView, b: RuleView) -> bool {
    a.3 > b.3 || (a.3 == b.3 && encode_utf8(a.1).len() > encode_utf8(b.1).len())
}

/// The first position in `s`, from `j` on, of a rule that `x` ranks before.
pub open spec fn rank_position(s: Seq<RuleView>, x: RuleView, j: int) -> int
    decreases s.len() - j,
{
    if j < 0 || j >= s.len() {
        s.len() as int
    } else if ranks_before(x, s[j]) {
        j
    } else {
        rank_position(s, x, j + 1)
    }
}

/// `x` inserted into ranked rules after every rule it does not rank before,
/// so rules of equal rank keep the order in which they came.
pub open spec fn rank_insert(s: Seq<RuleView>, x: RuleView) -> Seq<RuleView> {
    s.insert(rank_position(s, x, 0), x)
}

/// The rules of `s`, one after the other, inserted into ranked `acc`.
pub open spec fn ranked_onto(acc: Seq<RuleView>, s: Seq<RuleView>) -> Seq<RuleView>
    decreases s.len(),
{
    if s.len() == 0 {
        acc
    } else {
        rank_insert(ranked_onto(acc, s.drop_last()), s.last())
    }
}

/// The rules of `s` in rank order; rules of equal rank keep their order.
pub open spec fn ranked(s: Seq<RuleView>) -> Seq<RuleView> {
    ranked_onto(Seq::empty(), s)
}

/// The enabled rules of `s`, in order.
pub open spec fn enabled_views(s: Seq<RuleView>) -> Seq<RuleView>
    decreases s.len(),
{
    if s.len() == 0 {
        s
    } else if s.last().4 {
        enabled_views(s.drop_last()).push(s.last())
    } else {
        enabled_views(s.drop_last())
    }
}

/// The enabled rules of the enabled layers: static, then domain, then learned.
pub open spec fn collected_rules(st: Seq<RuleView>, dom: Seq<RuleView>, le: Seq<RuleView>, layers: LayersEnabled) -> Seq<RuleView> {
    (if layers.static_enabled { enabled_views(st) } else { Seq::empty() })
        + (if layers.domain_enabled { enabled_views(dom) } else { Seq::empty() })
        + (if layers.learned_enabled { enabled_views(le) } else { Seq::empty() })
}

/// What the compressor keeps of a rule: id, pattern, replacement and the
/// domain the rule belongs to.
pub type RuleEntry = (Seq<char>, Seq<char>, Seq<char>, Option<Seq<char>>);

/// The rules of `s` whose pattern is not empty, as entries.
pub open spec fn table_entries(s: Seq<RuleView>) -> Seq<RuleEntry>
    decreases s.len(),
{
    if s.len() == 0 {
        Seq::empty()
    } else if encode_utf8(s.last().1).len() > 0 {
        table_entries(s.drop_last()).push((s.last().0, s.last().1, s.last().2, s.last().5))
    } else {
        table_entries(s.drop_last())
    }
}

/// The rule table of a compressor: the enabled rules of the enabled layers in
/// rank order, without those whose pattern is empty.
pub open spec fn rule_table(st: Seq<RuleView>, dom: Seq<RuleView>, le: Seq<RuleView>, layers: LayersEnabled) -> Seq<RuleEntry> {
    table_entries(ranked(collected_rules(st, dom, le, layers)))
}

/// The protected terms of the domains, domain by domain.
pub open spec fn all_terms(cs: Seq<DomainConfig>) -> Seq<Seq<char>>
    decreases cs.len(),
{
    if cs.len() == 0 {
        Seq::empty()
    } else {
        all_terms(cs.drop_last()) + string_views(cs.last().protected_terms@)
    }
}


/// The text that compression works on and the ids of the preprocessing
/// rules that changed it: the preprocessor's output, or the text itself.
pub open spec fn working_text(pp: Option<Preprocessor>, text: Seq<char>) -> (Seq<char>, Seq<Seq<char>>) {
    match pp {
        Some(p) => preprocessed(p.rule_specs(), text),
        None => (text, Seq::empty()),
    }
}

/// Regions over the matches of protected terms.
pub open spec fn term_regions(ms: Seq<(int, int, int)>) -> Seq<ProtectedRegion> {
    ms.map_values(|m: (int, int, int)| ProtectedRegion { start: m.0 as usize, end: m.1 as usize })
}

/// The regions of a text that rules leave alone: code fences, inline code and
/// JSON blocks, then each match of a protected term in the lowercased text.
pub open spec fn regions_of(terms: Seq<Seq<char>>, w: Seq<char>) -> Seq<ProtectedRegion> {
    protected_regions_of(encode_utf8(w)) + (if terms.len() > 0 {
        term_regions(ac_find_iter(terms, lowercase_chars(w), false))
    } else {
        Seq::empty()
    })
}

/// The matches of the rule patterns in the lowercased text, leftmost-first:
/// of the matches that start first, the one of the highest-ranked rule.
pub open spec fn rule_matches(rules: Seq<RuleEntry>, w: Seq<char>) -> Seq<(int, int, int)> {
    ac_find_iter(rules.map_values(|e: RuleEntry| e.1), lowercase_chars(w), true)
}

/// The bytes of the compressed text (see `rewritten`): outside protected
/// text the selected rule matches are replaced and space runs collapsed,
/// protected text is kept, and unprotected outer whitespace is trimmed.
pub open spec fn compressed_bytes(rules: Seq<RuleEntry>, terms: Seq<Seq<char>>, w: Seq<char>) -> Seq<u8> {
    rewritten(encode_utf8(w), rule_matches(rules, w), regions_of(terms, w),
        rules.map_values(|e: RuleEntry| encode_utf8(e.2)))
}

/// Compression never changes protected text: the bytes of every protected
/// region of the working text (a code fence, inline code span, JSON block or
/// protected term) appear, unchanged and in order, in the compressed bytes.
pub proof fn lemma_compressed_keeps_protected(rules: Seq<RuleEntry>, terms: Seq<Seq<char>>, w: Seq<char>, k: int)
    requires
        0 <= k < regions_of(terms, w).len(),
        regions_of(terms, w)[k].start < regions_of(terms, w)[k].end <= encode_utf8(w).len(),
    ensures ({
        let out = compressed_bytes(rules, terms, w);
        let s = regions_of(terms, w)[k].start as int;
        let e = regions_of(terms, w)[k].end as int;
        exists|j: int| 0 <= j && j + (e - s) <= out.len() && #[trigger] out.subrange(j, j + (e - s)) == encode_utf8(w).subrange(s, e)
    }),
{
    let b = encode_utf8(w);
    let reps = rules.map_values(|e: RuleEntry| encode_utf8(e.2));
    let prot = regions_of(terms, w);
    crate::rewrite::lemma_protected_regions_kept(b, rule_matches(rules, w), prot, reps, k);
    let out = compressed_bytes(rules, terms, w);
    let s = prot[k].start as int;
    let e = prot[k].end as int;
    assert(out == rewritten(b, rule_matches(rules, w), prot, reps));
    let j = choose|j: int| 0 <= j && j + (e - s) <= out.len() && #[trigger] out.subrange(j, j + (e - s)) == b.subrange(s, e);
    assert(out.subrange(j, j + (e - s)) == b.subrange(s, e));
}

/// The ids of the rules applied to a text, one per applied match, in text order.
pub open spec fn applied_rule_ids(rules: Seq<RuleEntry>, terms: Seq<Seq<char>>, w: Seq<char>) -> Seq<Seq<char>> {
    selected_matches(encode_utf8(w), rule_matches(rules, w), regions_of(terms, w))
        .map_values(|m: (int, int, int)| rules[m.2].0)
}

/// The entries of `rules` that belong to domain `h` (when `mine`) or that do
/// not (otherwise), in order.
pub open spec fn entries_of(rules: Seq<RuleEntry>, h: Seq<char>, mine: bool) -> Seq<RuleEntry>
    decreases rules.len(),
{
    if rules.len() == 0 {
        Seq::empty()
    } else {
        let rest = entries_of(rules.drop_last(), h, mine);
        if (rules.last().3 == Some(h)) == mine {
            rest.push(rules.last())
        } else {
            rest
        }
    }
}

/// The rules of domain `h` first, then the others, each in rank order.
pub open spec fn prioritized(rules: Seq<RuleEntry>, h: Seq<char>) -> Seq<RuleEntry> {
    entries_of(rules, h, true) + entries_of(rules, h, false)
}

/// The rule table that compression with a domain hint uses: the hinted
/// domain's rules ahead of the others, when those patterns build into an
/// automaton (they are the same patterns, reordered); without a hint, the
/// compressor's table.
pub open spec fn table_for(rules: Seq<RuleEntry>, hint: Option<Seq<char>>) -> Seq<RuleEntry> {
    match hint {
        Some(h) => if ac_builds(prioritized(rules, h).map_values(|e: RuleEntry| e.1), true) {
            prioritized(rules, h)
        } else {
            rules
        },
        None => rules,
    }
}

/// The view of an optional string slice.
pub open spec fn opt_str_view(o: Option<&str>) -> Option<Seq<char>> {
    match o {
        Some(s) => Some(s@),
        None => None,
    }
}

/// The view of an optional string.
pub open spec fn opt_string_view(o: Option<String>) -> Option<Seq<char>> {
    match o {
        Some(s) => Some(s@),
        None => None,
    }
}

/// The result of leaving a text as it is.
pub open spec fn skip_result(text: Seq<char>, r: CompressionResult) -> bool {
    &&& r.text@ == text
    &&& r.original_tokens == cl100k_token_count(text)
    &&& r.compressed_tokens == cl100k_token_count(text)
    &&& r.rules_applied@.len() == 0
    &&& r.domain_detected is None
}

/// The result of compressing an empty text.
pub open spec fn empty_result(r: CompressionResult) -> bool {
    &&& r.text@.len() == 0
    &&& r.original_tokens == 0
    &&& r.compressed_tokens == 0
    &&& r.rules_applied@.len() == 0
    &&& r.domain_detected is None
}

/// The views of rules.
pub open spec fn rule_views(v: Seq<Rule>) -> Seq<RuleView> {
    v.map_values(|r: Rule| rule_view(r))
}


/// No rule of `s` ranks before an earlier one.
pub open spec fn rank_sorted(s: Seq<RuleView>) -> bool {
    forall|i: int, j: int| 0 <= i < j < s.len() ==> !ranks_before(#[trigger] s[j], #[trigger] s[i])
}

proof fn lemma_rank_position(s: Seq<RuleView>, x: RuleView, j: int)
    requires 0 <= j <= s.len(), forall|k: int| 0 <= k < j ==> !ranks_before(x, #[trigger] s[k]),
    ensures ({
        let p = rank_position(s, x, j);
        &&& j <= p <= s.len()
        &&& forall|k: int| 0 <= k < p ==> !ranks_before(x, #[trigger] s[k])
        &&& p < s.len() ==> ranks_before(x, s[p])
    }),
    decreases s.len() - j,
{
    if j < s.len() && !ranks_before(x, s[j]) {
        lemma_rank_position(s, x, j + 1);
    }
}

proof fn lemma_rank_insert(s: Seq<RuleView>, x: RuleView)
    requires rank_sorted(s),
    ensures
        rank_sorted(rank_insert(s, x)),
        rank_insert(s, x).to_multiset() == s.to_multiset().insert(x),
{
    lemma_rank_position(s, x, 0);
    let p = rank_position(s, x, 0);
    let n = s.insert(p, x);
    assert forall|i: int, j: int| 0 <= i < j < n.len() implies !ranks_before(#[trigger] n[j], #[trigger] n[i]) by {
        if j < p {
            assert(n[i] == s[i] && n[j] == s[j]);
        } else if j == p {
            assert(n[i] == s[i] && n[j] == x);
        } else if i < p {
            assert(n[i] == s[i] && n[j] == s[j - 1]);
        } else if i == p {
            assert(n[i] == x && n[j] == s[j - 1]);
            if j - 1 > p {
                assert(!ranks_before(s[j - 1], s[p]));
            }
        } else {
            assert(n[i] == s[i - 1] && n[j] == s[j - 1]);
        }
    }
    broadcast use vstd::seq_lib::group_to_multiset_ensures;
    assert(n.remove(p) =~= s);
    assert(n[p] == x);
    assert(n.to_multiset().remove(x) == s.to_multiset());
    assert(n.to_multiset().count(x) > 0) by { assert(n.contains(x)); }
    assert(n.to_multiset() =~= s.to_multiset().insert(x));
}

proof fn lemma_ranked_onto(acc: Seq<RuleView>, s: Seq<RuleView>)
    requires rank_sorted(acc),
    ensures
        rank_sorted(ranked_onto(acc, s)),
        ranked_onto(acc, s).to_multiset() == acc.to_multiset().add(s.to_multiset()),
    decreases s.len(),
{
    broadcast use vstd::seq_lib::group_to_multiset_ensures;
    if s.len() == 0 {
        assert(acc.to_multiset().add(s.to_multiset()) =~= acc.to_multiset());
    } else {
        lemma_ranked_onto(acc, s.drop_last());
        lemma_rank_insert(ranked_onto(acc, s.drop_last()), s.last());
        assert(s.drop_last().push(s.last()) =~= s);
        assert(s.to_multiset() =~= s.drop_last().to_multiset().insert(s.last()));
        assert(ranked_onto(acc, s).to_multiset() =~= acc.to_multiset().add(s.to_multiset()));
    }
}

/// Ranking orders rules so that no rule ranks before an earlier one, and
/// keeps every rule as often as it came.
pub proof fn lemma_ranked_sorted_permutation(s: Seq<RuleView>)
    ensures
        rank_sorted(ranked(s)),
        ranked(s).to_multiset() == s.to_multiset(),
{
    broadcast use vstd::seq_lib::group_to_multiset_ensures;
    lemma_ranked_onto(Seq::empty(), s);
    assert(Seq::<RuleView>::empty().to_multiset().add(s.to_multiset()) =~= s.to_multiset());
}

proof fn lemma_ranked_onto_concat(acc: Seq<RuleView>, a: Seq<RuleView>, b: Seq<RuleView>)
    ensures ranked_onto(acc, a + b) == ranked_onto(ranked_onto(acc, a), b),
    decreases b.len(),
{
    if b.len() == 0 {
        assert(a + b =~= a);
    } else {
        lemma_ranked_onto_concat(acc, a, b.drop_last());
        assert((a + b).drop_last() =~= a + b.drop_last());
        assert((a + b).last() == b.last());
    }
}

/// A rule on its way into the table.
struct RankedRule {
    id: String,
    pattern: String,
    replacement: String,
    priority: i32,
    domain: Option<String>,
}

spec fn ranked_view(e: RankedRule) -> RuleView {
    (e.id@, e.pattern@, e.replacement@, e.priority as int, true, opt_string_view(e.domain))
}

spec fn ranked_views(v: Seq<RankedRule>) -> Seq<RuleView> {
    v.map_values(|e: RankedRule| ranked_view(e))
}

/// The entries of rules kept side by side.
pub open spec fn zip_entries(ids: Seq<String>, pats: Seq<String>, reps: Seq<String>, doms: Seq<Option<String>>) -> Seq<RuleEntry> {
    Seq::new(pats.len(), |i: int| (ids[i]@, pats[i]@, reps[i]@, opt_string_view(doms[i])))
}

fn insert_ranked(sorted: &mut Vec<RankedRule>, e: RankedRule)
    ensures ranked_views(final(sorted)@) == rank_insert(ranked_views(old(sorted)@), ranked_view(e)),
{
    let ghost sv = ranked_views(sorted@);
    let ghost x = ranked_view(e);
    let n = e.pattern.as_str().as_bytes().len();
    let mut j: usize = 0;
    while j < sorted.len() && !(e.priority > sorted[j].priority
        || (e.priority == sorted[j].priority && n > sorted[j].pattern.as_str().as_bytes().len()))
        invariant
            j <= sorted@.len(), sv == ranked_views(sorted@), x == ranked_view(e),
            n == encode_utf8(e.pattern@).len(),
            rank_position(sv, x, j as int) == rank_position(sv, x, 0),
        decreases sorted.len() - j,
    {
        proof { assert(sv[j as int] == ranked_view(sorted@[j as int])); }
        j = j + 1;
    }
    proof {
        if j < sorted@.len() {
            assert(sv[j as int] == ranked_view(sorted@[j as int]));
        }
    }
    sorted.insert(j, e);
    proof {
        assert(ranked_views(sorted@) =~= sv.insert(j as int, x));
    }
}

fn add_enabled(sorted: &mut Vec<RankedRule>, rules: &Vec<Rule>)
    ensures ranked_views(final(sorted)@) == ranked_onto(ranked_views(old(sorted)@), enabled_views(rule_views(rules@))),
{
    let ghost acc = ranked_views(sorted@);
    let ghost rv = rule_views(rules@);
    let mut i: usize = 0;
    proof { assert(rv.subrange(0, 0) =~= Seq::<RuleView>::empty()); }
    while i < rules.len()
        invariant
            i <= rules@.len(), rv == rule_views(rules@),
            ranked_views(sorted@) == ranked_onto(acc, enabled_views(rv.subrange(0, i as int))),
        decreases rules.len() - i,
    {
        let r = &rules[i];
        let ghost pre = rv.subrange(0, i as int);
        let ghost next = rv.subrange(0, i + 1);
        proof {
            assert(next.drop_last() =~= pre);
            assert(next.last() == rule_view(*r));
        }
        if r.enabled {
            let e = RankedRule {
                id: copy_string(&r.id),
                pattern: copy_string(&r.pattern),
                replacement: copy_string(&r.replacement),
                priority: r.priority,
                domain: copy_opt_string(&r.domain),
            };
            proof {
                assert(ranked_view(e) == rule_view(*r));
                assert(enabled_views(next) == enabled_views(pre).push(rule_view(*r)));
                assert(enabled_views(pre).push(rule_view(*r)).drop_last() =~= enabled_views(pre));
            }
            insert_ranked(sorted, e);
        }
        i = i + 1;
    }
    proof { assert(rv.subrange(0, rules@.len() as int) =~= rv); }
}

/// The rule table with the rules of domain `h` moved ahead of the others.
fn prioritized_table(pats: &Vec<String>, reps: &Vec<String>, ids: &Vec<String>, doms: &Vec<Option<String>>, h: &str)
    -> (r: (Vec<String>, Vec<String>, Vec<String>, Vec<Option<String>>))
    requires pats@.len() == reps@.len(), pats@.len() == ids@.len(), pats@.len() == doms@.len(),
    ensures
        r.0@.len() == r.1@.len(), r.0@.len() == r.2@.len(), r.0@.len() == r.3@.len(),
        zip_entries(r.2@, r.0@, r.1@, r.3@) == prioritized(zip_entries(ids@, pats@, reps@, doms@), h@),
{
    let ghost all = zip_entries(ids@, pats@, reps@, doms@);
    let mut p2: Vec<String> = Vec::new();
    let mut r2: Vec<String> = Vec::new();
    let mut i2: Vec<String> = Vec::new();
    let mut d2: Vec<Option<String>> = Vec::new();
    let mut pass: usize = 0;
    proof { assert(zip_entries(i2@, p2@, r2@, d2@) =~= Seq::<RuleEntry>::empty()); }
    while pass < 2
        invariant
            pass <= 2, all == zip_entries(ids@, pats@, reps@, doms@),
            pats@.len() == reps@.len(), pats@.len() == ids@.len(), pats@.len() == doms@.len(),
            p2@.len() == r2@.len(), p2@.len() == i2@.len(), p2@.len() == d2@.len(),
            zip_entries(i2@, p2@, r2@, d2@) == (if pass == 0 { Seq::empty() } else if pass == 1 {
                entries_of(all, h@, true) } else { prioritized(all, h@) }),
        decreases 2 - pass,
    {
        let mine = pass == 0;
        let ghost base = zip_entries(i2@, p2@, r2@, d2@);
        let mut k: usize = 0;
        proof {
            assert(all.subrange(0, 0) =~= Seq::<RuleEntry>::empty());
            assert(base + entries_of(all.subrange(0, 0), h@, mine) =~= base);
        }
        while k < pats.len()
            invariant
                k <= pats@.len(), all == zip_entries(ids@, pats@, reps@, doms@), all.len() == pats@.len(),
                pats@.len() == reps@.len(), pats@.len() == ids@.len(), pats@.len() == doms@.len(),
                p2@.len() == r2@.len(), p2@.len() == i2@.len(), p2@.len() == d2@.len(),
                zip_entries(i2@, p2@, r2@, d2@) == base + entries_of(all.subrange(0, k as int), h@, mine),
            decreases pats.len() - k,
        {
            let in_h = match &doms[k] {
                Some(d) => str_eq(d.as_str(), h),
                None => false,
            };
            let ghost sub = all.subrange(0, k + 1);
            proof {
                assert(sub.drop_last() =~= all.subrange(0, k as int));
                assert(sub.last() == all[k as int]);
                assert(all[k as int].3 == opt_string_view(doms@[k as int]));
                assert(in_h == (all[k as int].3 == Some(h@)));
            }
            if in_h == mine {
                let ghost old_z = zip_entries(i2@, p2@, r2@, d2@);
                p2.push(copy_string(&pats[k]));
                r2.push(copy_string(&reps[k]));
                i2.push(copy_string(&ids[k]));
                d2.push(copy_opt_string(&doms[k]));
                proof {
                    assert(zip_entries(i2@, p2@, r2@, d2@) =~= old_z.push(all[k as int]));
                }
            }
            k = k + 1;
        }
        proof { assert(all.subrange(0, pats@.len() as int) =~= all); }
        pass = pass + 1;
    }
    (p2, r2, i2, d2)
}

/// The compression engine.
///
/// Holds the rule table (ids, patterns and replacements side by side, in
/// rank order), the protected terms of all domains in ascending order, the
/// domain configurations for detection and an optional preprocessor.
#[derive(Debug)]
pub struct Compressor {
    patterns: Vec<String>,
    replacements: Vec<String>,
    rule_ids: Vec<String>,
    rule_domains: Vec<Option<String>>,
    protected_terms: Vec<String>,
    token_counter: TokenCounter,
    config: CompressorConfig,
    domain_configs: Vec<DomainConfig>,
    preprocessor: Option<Preprocessor>,
}

impl Compressor {
    /// The rule table: (id, pattern, replacement) in rank order.
    pub closed spec fn rules(self) -> Seq<RuleEntry> {
        zip_entries(self.rule_ids@, self.patterns@, self.replacements@, self.rule_domains@)
    }

    /// The protected terms, in ascending byte-wise order, each once.
    pub closed spec fn terms(self) -> Seq<Seq<char>> {
        string_views(self.protected_terms@)
    }

    /// The domain configurations used for detection.
    pub closed spec fn domains(self) -> Seq<DomainConfig> {
        self.domain_configs@
    }

    /// The preprocessor, if any.
    pub closed spec fn preprocessor_spec(self) -> Option<Preprocessor> {
        self.preprocessor
    }

    /// The rule patterns can be built into an automaton, and so can the
    /// protected terms when there are any.
    #[verifier::type_invariant]
    closed spec fn wf(self) -> bool {
        &&& self.patterns@.len() == self.replacements@.len()
        &&& self.patterns@.len() == self.rule_ids@.len()
        &&& self.patterns@.len() == self.rule_domains@.len()
        &&& ac_builds(string_views(self.patterns@), true)
        &&& (self.protected_terms@.len() > 0 ==> ac_builds(string_views(self.protected_terms@), false))
    }

    /// Builds a compressor from the three rule layers without a preprocessor.
    pub fn build(
        static_rules: Vec<Rule>,
        domain_layer: &DomainLayer,
        learned_rules: Vec<Rule>,
        config: CompressorConfig,
    ) -> (r: Result<Self, CoreError>)
        ensures ({
            let table = rule_table(rule_views(static_rules@), domain_layer.all_rule_views(),
                rule_views(learned_rules@), config.layers_enabled);
            let terms = ascending_set(all_terms(domain_layer.configs()));
            &&& r is Ok <==> (ac_builds(table.map_values(|e: RuleEntry| e.1), true)
                && (terms.len() > 0 ==> ac_builds(terms, false)))
            &&& r matches Ok(c) ==> c.rules() == table && c.terms() == terms
                && c.domains().map_values(|d: DomainConfig| detection_view(d))
                    == domain_layer.configs().map_values(|d: DomainConfig| detection_view(d))
                && c.preprocessor_spec() is None
            &&& !ac_builds(table.map_values(|e: RuleEntry| e.1), true) ==> (r matches Err(CoreError::Other(m))
                && m@.subrange(0, 40) == "failed to build Aho-Corasick automaton: "@)
            &&& (ac_builds(table.map_values(|e: RuleEntry| e.1), true) && !(terms.len() > 0 ==> ac_builds(terms, false)))
                ==> (r matches Err(CoreError::Other(m)) && m@.subrange(0, 43) == "failed to build protected terms automaton: "@)
        }),
    {
        Self::build_with_preprocessor(static_rules, domain_layer, learned_rules, config, None)
    }

    /// Builds a compressor from the three rule layers and an optional
    /// preprocessor: the enabled rules of the enabled layers are ranked by
    /// priority, then by pattern length, both descending (rules of equal rank
    /// keep their order); rules with an empty pattern are left out. Fails
    /// when the patterns, or the protected terms of the domains, cannot be
    /// built into an automaton.
    #[verifier::spinoff_prover]
    pub fn build_with_preprocessor(
        static_rules: Vec<Rule>,
        domain_layer: &DomainLayer,
        learned_rules: Vec<Rule>,
        config: CompressorConfig,
        preprocessor: Option<Preprocessor>,
    ) -> (r: Result<Self, CoreError>)
        ensures ({
            let table = rule_table(rule_views(static_rules@), domain_layer.all_rule_views(),
                rule_views(learned_rules@), config.layers_enabled);
            let terms = ascending_set(all_terms(domain_layer.configs()));
            &&& r is Ok <==> (ac_builds(table.map_values(|e: RuleEntry| e.1), true)
                && (terms.len() > 0 ==> ac_builds(terms, false)))
            &&& r matches Ok(c) ==> c.rules() == table && c.terms() == terms
                && c.domains().map_values(|d: DomainConfig| detection_view(d))
                    == domain_layer.configs().map_values(|d: DomainConfig| detection_view(d))
                && c.preprocessor_spec() == preprocessor
            &&& !ac_builds(table.map_values(|e: RuleEntry| e.1), true) ==> (r matches Err(CoreError::Other(m))
                && m@.subrange(0, 40) == "failed to build Aho-Corasick automaton: "@)
            &&& (ac_builds(table.map_values(|e: RuleEntry| e.1), true) && !(terms.len() > 0 ==> ac_builds(terms, false)))
                ==> (r matches Err(CoreError::Other(m)) && m@.subrange(0, 43) == "failed to build protected terms automaton: "@)
        }),
    {
        let ghost st = rule_views(static_rules@);
        let ghost le = rule_views(learned_rules@);
        let ghost layers = config.layers_enabled;
        let mut sorted: Vec<RankedRule> = Vec::new();
        proof { assert(ranked_views(sorted@) =~= Seq::<RuleView>::empty()); }
        if config.layers_enabled.static_enabled {
            add_enabled(&mut sorted, &static_rules);
        }
        let ghost after_static = ranked_views(sorted@);
        let domain_rules = domain_layer.all_rules();
        let ghost dom = rule_views(domain_rules@);
        if config.layers_enabled.domain_enabled {
            add_enabled(&mut sorted, &domain_rules);
        }
        let ghost after_domain = ranked_views(sorted@);
        if config.layers_enabled.learned_enabled {
            add_enabled(&mut sorted, &learned_rules);
        }
        proof {
            let a = if layers.static_enabled { enabled_views(st) } else { Seq::empty() };
            let b = if layers.domain_enabled { enabled_views(dom) } else { Seq::empty() };
            let c = if layers.learned_enabled { enabled_views(le) } else { Seq::empty() };
            assert(after_static == ranked_onto(Seq::empty(), a));
            assert(after_domain == ranked_onto(after_static, b));
            assert(ranked_views(sorted@) == ranked_onto(after_domain, c));
            lemma_ranked_onto_concat(Seq::empty(), a, b);
            lemma_ranked_onto_concat(Seq::empty(), a + b, c);
            assert(ranked_views(sorted@) == ranked(collected_rules(st, dom, le, layers)));
        }
        let ghost sv = ranked_views(sorted@);
        let mut patterns: Vec<String> = Vec::new();
        let mut replacements: Vec<String> = Vec::new();
        let mut rule_ids: Vec<String> = Vec::new();
        let mut rule_domains: Vec<Option<String>> = Vec::new();
        let mut k: usize = 0;
        proof { assert(zip_entries(rule_ids@, patterns@, replacements@, rule_domains@) =~= table_entries(sv.subrange(0, 0))); }
        while k < sorted.len()
            invariant
                k <= sorted@.len(), sv == ranked_views(sorted@),
                patterns@.len() == replacements@.len(), patterns@.len() == rule_ids@.len(),
                patterns@.len() == rule_domains@.len(),
                zip_entries(rule_ids@, patterns@, replacements@, rule_domains@) == table_entries(sv.subrange(0, k as int)),
            decreases sorted.len() - k,
        {
            let e = &sorted[k];
            let ghost pre = sv.subrange(0, k as int);
            let ghost next = sv.subrange(0, k + 1);
            proof {
                assert(next.drop_last() =~= pre);
                assert(next.last() == ranked_view(*e));
            }
            if e.pattern.as_str().as_bytes().len() > 0 {
                let ghost old_z = zip_entries(rule_ids@, patterns@, replacements@, rule_domains@);
                patterns.push(copy_string(&e.pattern));
                replacements.push(copy_string(&e.replacement));
                rule_ids.push(copy_string(&e.id));
                rule_domains.push(copy_opt_string(&e.domain));
                proof {
                    assert(zip_entries(rule_ids@, patterns@, replacements@, rule_domains@) =~= old_z.push((e.id@, e.pattern@, e.replacement@, opt_string_view(e.domain))));
                }
            }
            k = k + 1;
        }
        proof {
            assert(sv.subrange(0, sorted@.len() as int) =~= sv);
            assert(string_views(patterns@) =~= zip_entries(rule_ids@, patterns@, replacements@, rule_domains@).map_values(|e: RuleEntry| e.1));
        }
        match ac_check(&patterns, true) {
            Ok(()) => {},
            Err(msg) => {
                let m = concat_str("failed to build Aho-Corasick automaton: ", msg.as_str());
                proof {
                    reveal_strlit("failed to build Aho-Corasick automaton: ");
                    assert(m@.subrange(0, 40) =~= "failed to build Aho-Corasick automaton: "@);
                }
                return Err(CoreError::Other(m));
            },
        }
        let configs = domain_layer.domain_configs();
        let mut protected_terms: Vec<String> = Vec::new();
        let mut domain_configs: Vec<DomainConfig> = Vec::new();
        let mut i: usize = 0;
        proof {
            assert(string_views(protected_terms@) =~= ascending_set(all_terms(configs@.subrange(0, 0))));
            assert(domain_configs@.map_values(|d: DomainConfig| detection_view(d))
                =~= configs@.subrange(0, 0).map_values(|d: DomainConfig| detection_view(d)));
        }
        while i < configs.len()
            invariant
                i <= configs@.len(), configs@ == domain_layer.configs(),
                string_views(protected_terms@) == ascending_set(all_terms(configs@.subrange(0, i as int))),
                domain_configs@.map_values(|d: DomainConfig| detection_view(d))
                    == configs@.subrange(0, i as int).map_values(|d: DomainConfig| detection_view(d)),
            decreases configs.len() - i,
        {
            let c = &configs[i];
            let ghost before = all_terms(configs@.subrange(0, i as int));
            let ghost ts = string_views(c.protected_terms@);
            proof {
                assert(configs@.subrange(0, i + 1).drop_last() =~= configs@.subrange(0, i as int));
                assert(all_terms(configs@.subrange(0, i + 1)) == before + ts);
            }
            let mut j: usize = 0;
            proof { assert(before + ts.subrange(0, 0) =~= before); }
            while j < c.protected_terms.len()
                invariant
                    j <= c.protected_terms@.len(), ts == string_views(c.protected_terms@),
                    string_views(protected_terms@) == ascending_set(before + ts.subrange(0, j as int)),
                decreases c.protected_terms.len() - j,
            {
                let ghost cur = before + ts.subrange(0, j as int);
                proof {
                    assert((before + ts.subrange(0, j + 1)).drop_last() =~= cur);
                    assert((before + ts.subrange(0, j + 1)).last() == c.protected_terms@[j as int]@);
                }
                insert_ascending(&mut protected_terms, &c.protected_terms[j]);
                j = j + 1;
            }
            proof { assert(ts.subrange(0, ts.len() as int) =~= ts); }
            let ghost old_dc = domain_configs@;
            let cc = copy_config(c);
            domain_configs.push(cc);
            proof {
                assert(domain_configs@.map_values(|d: DomainConfig| detection_view(d))
                    =~= old_dc.map_values(|d: DomainConfig| detection_view(d)).push(detection_view(cc)));
                assert(configs@.subrange(0, i + 1).map_values(|d: DomainConfig| detection_view(d))
                    =~= configs@.subrange(0, i as int).map_values(|d: DomainConfig| detection_view(d)).push(detection_view(configs@[i as int])));
            }
            i = i + 1;
        }
        proof {
            assert(configs@.subrange(0, configs@.len() as int) =~= configs@);
        }
        if protected_terms.len() > 0 {
            match ac_check(&protected_terms, false) {
                Ok(()) => {},
                Err(msg) => {
                    let m = concat_str("failed to build protected terms automaton: ", msg.as_str());
                    proof {
                        reveal_strlit("failed to build protected terms automaton: ");
                        assert(m@.subrange(0, 43) =~= "failed to build protected terms automaton: "@);
                    }
                    return Err(CoreError::Other(m));
                },
            }
        }
        Ok(Compressor {
            patterns,
            replacements,
            rule_ids,
            rule_domains,
            protected_terms,
            token_counter: TokenCounter::new(),
            config,
            domain_configs,
            preprocessor,
        })
    }

    /// The result of full compression of `text` with an optional domain hint.
    pub open spec fn normal_result(self, text: Seq<char>, hint: Option<Seq<char>>, r: CompressionResult) -> bool {
        if text.len() == 0 {
            empty_result(r)
        } else {
            let w = working_text(self.preprocessor_spec(), text);
            &&& r.original_tokens == cl100k_token_count(text)
            &&& encode_utf8(r.text@) == compressed_bytes(table_for(self.rules(), hint), self.terms(), w.0)
            &&& r.compressed_tokens == cl100k_token_count(r.text@)
            &&& string_views(r.rules_applied@) == dedup_adjacent(w.1 + applied_rule_ids(table_for(self.rules(), hint), self.terms(), w.0))
            &&& opt_string_view(r.domain_detected) == match hint {
                Some(h) => Some(h),
                None => detected_domain(w.0, self.domains()),
            }
        }
    }

    /// Full compression is determined by its input: two results that both
    /// meet `normal_result` for the same text and hint have the same text,
    /// token counts, applied rules and detected domain. So compressing at the
    /// `Normal` level gives what `compress` gives.
    pub proof fn lemma_normal_result_determined(self, text: Seq<char>, hint: Option<Seq<char>>,
        r1: CompressionResult, r2: CompressionResult)
        requires self.normal_result(text, hint, r1), self.normal_result(text, hint, r2),
        ensures
            r1.text@ == r2.text@,
            r1.original_tokens == r2.original_tokens,
            r1.compressed_tokens == r2.compressed_tokens,
            string_views(r1.rules_applied@) == string_views(r2.rules_applied@),
            opt_string_view(r1.domain_detected) == opt_string_view(r2.domain_detected),
    {
        if text.len() == 0 {
            assert(r1.text@ =~= r2.text@);
            assert(string_views(r1.rules_applied@) =~= string_views(r2.rules_applied@));
        } else {
            encode_utf8_decode_utf8(r1.text@);
            encode_utf8_decode_utf8(r2.text@);
        }
    }

    /// The result of light compression of `text`: the preprocessor alone.
    pub open spec fn light_result(self, text: Seq<char>, r: CompressionResult) -> bool {
        if text.len() == 0 {
            empty_result(r)
        } else {
            let w = working_text(self.preprocessor_spec(), text);
            &&& r.text@ == w.0
            &&& r.original_tokens == cl100k_token_count(text)
            &&& r.compressed_tokens == cl100k_token_count(w.0)
            &&& string_views(r.rules_applied@) == w.1
            &&& r.domain_detected is None
        }
    }

    /// Whether every keyword of every domain is non-empty, which domain
    /// detection needs.
    pub fn keywords_ready(&self) -> (r: bool)
        ensures r == keywords_nonempty(self.domains()),
    {
        let mut i: usize = 0;
        while i < self.domain_configs.len()
            invariant
                i <= self.domain_configs@.len(),
                forall|a: int, b: int| 0 <= a < i && 0 <= b < self.domain_configs@[a].keywords@.len()
                    ==> (#[trigger] self.domain_configs@[a].keywords@[b])@.len() > 0,
            decreases self.domain_configs.len() - i,
        {
            let kws = &self.domain_configs[i].keywords;
            let mut j: usize = 0;
            while j < kws.len()
                invariant
                    j <= kws@.len(), i < self.domain_configs@.len(), kws == self.domain_configs@[i as int].keywords,
                    forall|a: int, b: int| 0 <= a < i && 0 <= b < self.domain_configs@[a].keywords@.len()
                        ==> (#[trigger] self.domain_configs@[a].keywords@[b])@.len() > 0,
                    forall|b: int| 0 <= b < j ==> (#[trigger] kws@[b])@.len() > 0,
                decreases kws.len() - j,
            {
                if kws[j].as_str().is_empty() {
                    proof {
                        assert(self.domain_configs@[i as int].keywords@[j as int]@.len() == 0);
                        assert(!keywords_nonempty(self.domains()));
                    }
                    return false;
                }
                j = j + 1;
            }
            i = i + 1;
        }
        assert(self.domains() == self.domain_configs@);
        true
    }

    /// Compresses a text: runs the preprocessor, detects the domain unless a
    /// hint names it (the hinted domain's rules then take priority over the
    /// others), finds the protected regions (code, JSON, protected
    /// terms), applies the rule matches that lie outside them on word
    /// boundaries (the first of overlapping matches wins), collapses space
    /// runs and trims the result; counts tokens before and after.
    pub fn compress(&self, text: &str, domain_hint: Option<&str>) -> (r: CompressionResult)
        requires text@.len() == 0 || domain_hint is Some || keywords_nonempty(self.domains()),
        ensures self.normal_result(text@, opt_str_view(domain_hint), r),
    {
        proof { use_type_invariant(self); }
        let original_tokens = self.token_counter.count(text);
        if text.is_empty() {
            return CompressionResult {
                text: String::new(),
                original_tokens: 0,
                compressed_tokens: 0,
                rules_applied: Vec::new(),
                domain_detected: None,
            };
        }
        let (working, pre_ids) = match &self.preprocessor {
            Some(pp) => {
                let res = pp.process(text);
                (res.text, res.rules_applied)
            },
            None => {
                let v: Vec<String> = Vec::new();
                proof { assert(string_views(v@) =~= Seq::<Seq<char>>::empty()); }
                (text.to_string(), v)
            },
        };
        let ghost w = working@;
        proof {
            assert(w == working_text(self.preprocessor_spec(), text@).0);
            assert(string_views(pre_ids@) == working_text(self.preprocessor_spec(), text@).1);
        }
        let domain_detected = match domain_hint {
            Some(h) => Some(h.to_string()),
            None => detect_domain(working.as_str(), &self.domain_configs),
        };
        let lower = lowercase(working.as_str());
        let mut regions = find_protected_regions(working.as_str());
        let ghost base = regions@;
        if self.protected_terms.len() > 0 {
            let tm = ac_find_all(&self.protected_terms, lower.as_str(), false);
            let ghost tr = term_regions(triples(tm@));
            let mut k: usize = 0;
            proof { assert(base + tr.subrange(0, 0) =~= base); }
            while k < tm.len()
                invariant
                    k <= tm@.len(), tr == term_regions(triples(tm@)),
                    regions@ == base + tr.subrange(0, k as int),
                decreases tm.len() - k,
            {
                let ghost old_regions = regions@;
                regions.push(ProtectedRegion { start: tm[k].0, end: tm[k].1 });
                proof {
                    assert(tr[k as int] == ProtectedRegion { start: tm@[k as int].0, end: tm@[k as int].1 });
                    assert(regions@ =~= base + tr.subrange(0, k + 1));
                }
                k = k + 1;
            }
            proof { assert(tr.subrange(0, tr.len() as int) =~= tr); }
        } else {
            proof { assert(regions@ =~= base + Seq::<ProtectedRegion>::empty()); }
        }
        let prio = match domain_hint {
            Some(h) => {
                let t = prioritized_table(&self.patterns, &self.replacements, &self.rule_ids, &self.rule_domains, h);
                proof {
                    assert(string_views(t.0@) =~= zip_entries(t.2@, t.0@, t.1@, t.3@).map_values(|e: RuleEntry| e.1));
                }
                match ac_check(&t.0, true) {
                    Ok(()) => Some(t),
                    Err(_) => None,
                }
            },
            None => None,
        };
        let ghost tab = table_for(self.rules(), opt_str_view(domain_hint));
        let (pats, reps, rids) = match &prio {
            Some(t) => (&t.0, &t.1, &t.2),
            None => (&self.patterns, &self.replacements, &self.rule_ids),
        };
        proof {
            match &prio {
                Some(t) => {
                    assert(zip_entries(t.2@, t.0@, t.1@, t.3@) == tab);
                    assert(string_views(pats@) =~= tab.map_values(|e: RuleEntry| e.1));
                    assert(forall|i: int| 0 <= i < tab.len() ==> #[trigger] tab[i].0 == rids@[i]@);
                },
                None => {
                    assert(self.rules() == tab);
                    assert(string_views(pats@) =~= tab.map_values(|e: RuleEntry| e.1));
                    assert(forall|i: int| 0 <= i < tab.len() ==> #[trigger] tab[i].0 == rids@[i]@);
                },
            }
            assert(pats@.len() == reps@.len() && pats@.len() == rids@.len() && pats@.len() == tab.len());
            assert(reps@.map_values(|s: String| encode_utf8(s@)) =~= tab.map_values(|e: RuleEntry| encode_utf8(e.2)));
            assert(ac_builds(string_views(pats@), true));
            assert(regions@ == regions_of(self.terms(), w));
        }
        let ms = ac_find_all(pats, lower.as_str(), true);
        let (out, idx) = apply_matches(working.as_str(), ms.as_slice(), regions.as_slice(), reps.as_slice());
        proof {
            assert(triples(ms@) == rule_matches(tab, w));
        }
        let ghost sel = selected_matches(encode_utf8(w), rule_matches(tab, w), regions_of(self.terms(), w));
        let ghost ids = applied_rule_ids(tab, self.terms(), w);
        let mut applied = pre_ids;
        let ghost pre = string_views(applied@);
        let mut x: usize = 0;
        proof { assert(pre + ids.subrange(0, 0) =~= pre); }
        while x < idx.len()
            invariant
                x <= idx@.len(), idx@.len() == sel.len(), ids == sel.map_values(|m: (int, int, int)| tab[m.2].0),
                forall|y: int| 0 <= y < sel.len() ==> #[trigger] idx@[y] == sel[y].2,
                forall|y: int| 0 <= y < sel.len() ==> #[trigger] idx@[y] < reps@.len(),
                pats@.len() == reps@.len() && pats@.len() == rids@.len() && pats@.len() == tab.len(),
                forall|i: int| 0 <= i < tab.len() ==> #[trigger] tab[i].0 == rids@[i]@,
                string_views(applied@) == pre + ids.subrange(0, x as int),
            decreases idx.len() - x,
        {
            let i = idx[x];
            let ghost old_applied = applied@;
            applied.push(copy_string(&rids[i]));
            proof {
                assert(ids[x as int] == tab[sel[x as int].2].0);
                assert(tab[i as int].0 == rids@[i as int]@);
                assert(string_views(applied@) =~= string_views(old_applied).push(rids@[i as int]@));
                assert(string_views(applied@) =~= pre + ids.subrange(0, x + 1));
            }
            x = x + 1;
        }
        proof { assert(ids.subrange(0, ids.len() as int) =~= ids); }
        let rules_applied = dedup_strings(applied);
        let compressed_tokens = self.token_counter.count(out.as_str());
        CompressionResult {
            text: out,
            original_tokens,
            compressed_tokens,
            rules_applied,
            domain_detected,
        }
    }

    /// Compresses a text at a level: `Skip` leaves it as it is, `Light` runs
    /// the preprocessor alone, `Normal` is `compress`.
    pub fn compress_with_level(&self, text: &str, domain_hint: Option<&str>, level: CompressionLevel) -> (r: CompressionResult)
        requires level == CompressionLevel::Normal ==> (text@.len() == 0 || domain_hint is Some || keywords_nonempty(self.domains())),
        ensures
            level == CompressionLevel::Skip ==> skip_result(text@, r),
            level == CompressionLevel::Light ==> self.light_result(text@, r),
            level == CompressionLevel::Normal ==> self.normal_result(text@, opt_str_view(domain_hint), r),
    {
        match level {
            CompressionLevel::Skip => self.compress_skip(text),
            CompressionLevel::Light => self.compress_light(text),
            CompressionLevel::Normal => self.compress(text, domain_hint),
        }
    }

    /// Leaves a text as it is, with its token count.
    fn compress_skip(&self, text: &str) -> (r: CompressionResult)
        ensures skip_result(text@, r),
    {
        let tokens = self.token_counter.count(text);
        CompressionResult {
            text: text.to_string(),
            original_tokens: tokens,
            compressed_tokens: tokens,
            rules_applied: Vec::new(),
            domain_detected: None,
        }
    }

    /// Runs the preprocessor alone.
    fn compress_light(&self, text: &str) -> (r: CompressionResult)
        ensures self.light_result(text@, r),
    {
        let original_tokens = self.token_counter.count(text);
        if text.is_empty() {
            return CompressionResult {
                text: String::new(),
                original_tokens: 0,
                compressed_tokens: 0,
                rules_applied: Vec::new(),
                domain_detected: None,
            };
        }
        let (result, rules_applied) = match &self.preprocessor {
            Some(pp) => {
                let res = pp.process(text);
                (res.text, res.rules_applied)
            },
            None => {
                let v: Vec<String> = Vec::new();
                proof { assert(string_views(v@) =~= Seq::<Seq<char>>::empty()); }
                (text.to_string(), v)
            },
        };
        let compressed_tokens = self.token_counter.count(result.as_str());
        CompressionResult {
            text: result,
            original_tokens,
            compressed_tokens,
            rules_applied,
            domain_detected: None,
        }
    }
}

/// Whether a rule belongs to the learned layer.
pub open spec fn is_learned(r: Rule) -> bool {
    r.layer == RuleLayer::Learned
}

/// The rules of the learned layer among stored rules, in their order: what
/// a rebuild of the compressor takes from the rule store.
pub fn learned_layer_rules(rules: Vec<Rule>) -> (r: Vec<Rule>)
    ensures r@ == rules@.filter(|x: Rule| is_learned(x)),
{
    let ghost all = rules@;
    let mut rest = rules;
    let mut out: Vec<Rule> = Vec::new();
    proof {
        reveal(Seq::filter);
        assert(all.subrange(0, 0).filter(|x: Rule| is_learned(x)) =~= Seq::<Rule>::empty());
        assert(all.subrange(0, 0) + rest@ =~= all);
    }
    while rest.len() > 0
        invariant
            out@ + rest@.filter(|x: Rule| is_learned(x)) == all.filter(|x: Rule| is_learned(x)),
        decreases rest.len(),
    {
        let ghost before = rest@;
        let x = rest.remove(0);
        proof {
            let p = |y: Rule| is_learned(y);
            assert(before =~= seq![x] + rest@);
            Seq::filter_distributes_over_add(seq![x], rest@, p);
            reveal_with_fuel(Seq::filter, 2);
            assert(seq![x].drop_last() =~= Seq::<Rule>::empty());
        }
        match x.layer {
            RuleLayer::Learned => {
                let ghost o = out@;
                out.push(x);
                proof { assert(out@ == o + seq![x]); }
            },
            _ => {},
        }
    }
    proof { assert(rest@.filter(|x: Rule| is_learned(x)) =~= Seq::<Rule>::empty()) by { reveal(Seq::filter); } }
    out
}

} // verus!
