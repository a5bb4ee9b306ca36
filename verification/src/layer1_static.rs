//! Layer 1: static filler-phrase rules, one per line, optionally written as
//! `pattern -> replacement` (the arrow with a space on each side).
use vstd::prelude::*;
use vstd::utf8::*;
use crate::text::{trim_vec, trim_bytes, lemma_trim_valid, lowercase, lowercase_chars, string_from_utf8,
    str_eq, copy_string, concat_str, usize_to_decimal, decimal, lemma_boundary_byte, lemma_scalar_end_boundary};
use crate::search::{find_from, first_occurrence, lemma_first_occurrence_bounds, occurs_at};
use crate::order::{lex_lt, lex_less, lemma_lex_irreflexive, lemma_lex_transitive, lemma_lex_total};
use crate::types::{Rule, RuleLayer};

verus! {

broadcast use vstd::string::group_string_axioms;

/// The arrow that separates a pattern from its replacement: ` -> `, with a
/// space on each side.
pub open spec fn arrow() -> Seq<u8> {
    seq![0x20u8, 0x2du8, 0x3eu8, 0x20u8]
}

/// A rule line read as (pattern, replacement): the line is trimmed; an empty
/// line gives nothing; text before the first ` -> ` (trimmed, lowercased) is
/// the pattern and the text after it (trimmed) the replacement; without that
/// arrow (a bare `->` is no arrow) the whole trimmed, lowercased line is the
/// pattern and the replacement is empty.
pub open spec fn parse_rule_line(line: Seq<char>) -> Option<(Seq<char>, Seq<char>)> {
    let t = trim_bytes(encode_utf8(line));
    if t.len() == 0 {
        None
    } else {
        match first_occurrence(t, arrow(), 0) {
            Some(p) => Some((
                lowercase_chars(decode_utf8(trim_bytes(t.subrange(0, p)))),
                decode_utf8(trim_bytes(t.subrange(p + 4, t.len() as int))),
            )),
            None => Some((lowercase_chars(decode_utf8(t)), Seq::empty())),
        }
    }
}

/// Pattern `a` precedes pattern `b`: it is longer in bytes, or as long and
/// smaller byte-wise.
pub open spec fn pattern_before(a: Seq<char>, b: Seq<char>) -> bool {
    let ab = encode_utf8(a);
    let bb = encode_utf8(b);
    ab.len() > bb.len() || (ab.len() == bb.len() && lex_lt(ab, bb))
}

/// The first position at or after `j` whose pattern `x` precedes, or the end.
pub open spec fn insert_position(s: Seq<(Seq<char>, Seq<char>)>, x: Seq<char>, j: int) -> int
    decreases s.len() - j,
{
    if j >= s.len() || j < 0 {
        s.len() as int
    } else if pattern_before(x, s[j].0) {
        j
    } else {
        insert_position(s, x, j + 1)
    }
}

/// Some entry already has pattern `p`.
pub open spec fn has_pattern(s: Seq<(Seq<char>, Seq<char>)>, p: Seq<char>) -> bool {
    exists|i: int| 0 <= i < s.len() && (#[trigger] s[i]).0 == p
}

/// Adds an entry to the ordered list unless its pattern is already there.
pub open spec fn insert_entry(s: Seq<(Seq<char>, Seq<char>)>, x: (Seq<char>, Seq<char>)) -> Seq<(Seq<char>, Seq<char>)> {
    if has_pattern(s, x.0) {
        s
    } else {
        s.insert(insert_position(s, x.0, 0), x)
    }
}

/// The entries of the first `k` lines: one per distinct pattern, with the
/// replacement of its first line, longest patterns first.
pub open spec fn static_entries(lines: Seq<Seq<char>>, k: int) -> Seq<(Seq<char>, Seq<char>)>
    decreases k,
{
    if k <= 0 {
        Seq::empty()
    } else {
        let rest = static_entries(lines, k - 1);
        match parse_rule_line(lines[k - 1]) {
            Some(x) => insert_entry(rest, x),
            None => rest,
        }
    }
}

/// The rule for entry `i` of the static layer.
pub open spec fn static_rule_ok(r: Rule, i: int, entry: (Seq<char>, Seq<char>)) -> bool {
    &&& r.id@ == "static-"@ + decimal(i as nat)
    &&& r.pattern@ == entry.0
    &&& r.replacement@ == entry.1
    &&& r.layer == RuleLayer::Static
    &&& r.domain is None
    &&& r.samples == i64::MAX
    &&& r.enabled
    &&& r.priority == 100
}

/// Layer 1: static rules, one per distinct pattern, longest pattern first.
#[derive(Debug, Clone)]
pub struct StaticLayer {
    patterns: Vec<(String, String)>,
}

impl StaticLayer {
    /// The layer's (pattern, replacement) entries in order.
    pub closed spec fn entries(self) -> Seq<(Seq<char>, Seq<char>)> {
        self.patterns@.map_values(|e: (String, String)| (e.0@, e.1@))
    }

    fn parse_line(line: &String) -> (r: Option<(String, String)>)
        ensures
            r is Some <==> parse_rule_line(line@) is Some,
            r matches Some(e) ==> parse_rule_line(line@) == Some((e.0@, e.1@)),
    {
        let ghost lb = encode_utf8(line@);
        proof { encode_utf8_valid_utf8(line@); lemma_trim_valid(lb); }
        let t = trim_vec(line.as_str().as_bytes());
        if t.len() == 0 {
            return None;
        }
        let arrow_bytes: Vec<u8> = vec![0x20u8, 0x2du8, 0x3eu8, 0x20u8];
        proof { assert(arrow_bytes@ =~= arrow()); }
        let ghost tb = t@;
        match find_from(t.as_slice(), arrow_bytes.as_slice(), 0) {
            Some(p) => {
                proof {
                    lemma_first_occurrence_bounds(tb, arrow(), 0);
                    assert(occurs_at(tb, arrow(), p as int));
                    assert(tb.subrange(p as int, p + 4)[0] == tb[p as int]);
                    assert(tb.subrange(p as int, p + 4)[3] == tb[p + 3]);
                    lemma_boundary_byte(tb, p as int);
                    lemma_boundary_byte(tb, p + 3);
                    lemma_scalar_end_boundary(tb, p + 3, 1);
                    valid_utf8_split(tb, p as int);
                    valid_utf8_split(tb, p + 4);
                    lemma_trim_valid(tb.subrange(0, p as int));
                    lemma_trim_valid(tb.subrange(p + 4, tb.len() as int));
                }
                let left = trim_vec(vstd::slice::slice_subrange(t.as_slice(), 0, p));
                let right = trim_vec(vstd::slice::slice_subrange(t.as_slice(), p + 4, t.len()));
                let left_s = match string_from_utf8(left) {
                    Some(s) => s,
                    None => { assert(false); return None; },
                };
                let right_s = match string_from_utf8(right) {
                    Some(s) => s,
                    None => { assert(false); return None; },
                };
                Some((lowercase(left_s.as_str()), right_s))
            },
            None => {
                let whole = match string_from_utf8(t) {
                    Some(s) => s,
                    None => { assert(false); return None; },
                };
                Some((lowercase(whole.as_str()), String::new()))
            },
        }
    }

    fn position_for(entries: &Vec<(String, String)>, pattern: &String) -> (r: usize)
        ensures r == insert_position(entries@.map_values(|e: (String, String)| (e.0@, e.1@)), pattern@, 0),
    {
        let ghost es = entries@.map_values(|e: (String, String)| (e.0@, e.1@));
        let pb = pattern.as_str().as_bytes();
        let mut j: usize = 0;
        while j < entries.len()
            invariant
                j <= entries@.len(),
                es == entries@.map_values(|e: (String, String)| (e.0@, e.1@)),
                pb@ == encode_utf8(pattern@),
                insert_position(es, pattern@, j as int) == insert_position(es, pattern@, 0),
            decreases entries.len() - j,
        {
            let eb = entries[j].0.as_str().as_bytes();
            proof { assert(es[j as int].0 == entries@[j as int].0@); }
            if pb.len() > eb.len() || (pb.len() == eb.len() && lex_less(pb, eb)) {
                return j;
            }
            j = j + 1;
        }
        j
    }

    fn contains_pattern(entries: &Vec<(String, String)>, pattern: &String) -> (r: bool)
        ensures r == has_pattern(entries@.map_values(|e: (String, String)| (e.0@, e.1@)), pattern@),
    {
        let ghost es = entries@.map_values(|e: (String, String)| (e.0@, e.1@));
        let mut j: usize = 0;
        while j < entries.len()
            invariant
                j <= entries@.len(),
                es == entries@.map_values(|e: (String, String)| (e.0@, e.1@)),
                forall|i: int| 0 <= i < j ==> (#[trigger] es[i]).0 != pattern@,
            decreases entries.len() - j,
        {
            if str_eq(entries[j].0.as_str(), pattern.as_str()) {
                proof { assert(es[j as int].0 == pattern@); }
                return true;
            }
            j = j + 1;
        }
        false
    }

    /// Builds the layer from rule lines: blank lines are skipped, each
    /// pattern is kept once with the replacement of its first line, and
    /// patterns are ordered longest first, then byte-wise.
    pub fn load_from_strings(lines: &[String]) -> (r: StaticLayer)
        ensures r.entries() == static_entries(lines@.map_values(|l: String| l@), lines@.len() as int),
    {
        let ghost ls = lines@.map_values(|l: String| l@);
        let mut patterns: Vec<(String, String)> = Vec::new();
        let mut i: usize = 0;
        proof { assert(patterns@.map_values(|e: (String, String)| (e.0@, e.1@)) =~= Seq::<(Seq<char>, Seq<char>)>::empty()); }
        while i < lines.len()
            invariant
                i <= lines@.len(),
                ls == lines@.map_values(|l: String| l@),
                patterns@.map_values(|e: (String, String)| (e.0@, e.1@)) == static_entries(ls, i as int),
            decreases lines.len() - i,
        {
            proof { assert(ls[i as int] == lines@[i as int]@); }
            match Self::parse_line(&lines[i]) {
                Some(entry) => {
                    if !Self::contains_pattern(&patterns, &entry.0) {
                        let pos = Self::position_for(&patterns, &entry.0);
                        let ghost old_p = patterns@;
                        proof { lemma_insert_position_bound(old_p.map_values(|e: (String, String)| (e.0@, e.1@)), entry.0@, 0); }
                        let ghost ev = (entry.0@, entry.1@);
                        patterns.insert(pos, entry);
                        proof {
                            assert(patterns@.map_values(|e: (String, String)| (e.0@, e.1@))
                                =~= old_p.map_values(|e: (String, String)| (e.0@, e.1@)).insert(pos as int, ev));
                        }
                    }
                },
                None => {},
            }
            i = i + 1;
        }
        StaticLayer { patterns }
    }

    /// The layer's entries as rules `static-0`, `static-1`, ... in order:
    /// static layer, no domain, always enabled, priority 100, and a sample
    /// count that marks them as proven.
    pub fn rules(&self) -> (r: Vec<Rule>)
        ensures
            r@.len() == self.entries().len(),
            forall|i: int| 0 <= i < r@.len() ==> static_rule_ok(#[trigger] r@[i], i, self.entries()[i]),
    {
        let mut r: Vec<Rule> = Vec::new();
        let mut i: usize = 0;
        while i < self.patterns.len()
            invariant
                i <= self.patterns@.len(),
                r@.len() == i,
                forall|k: int| 0 <= k < i ==> static_rule_ok(#[trigger] r@[k], k, self.entries()[k]),
            decreases self.patterns.len() - i,
        {
            let num = usize_to_decimal(i);
            let id = concat_str("static-", num.as_str());
            let (p, rep) = (&self.patterns[i].0, &self.patterns[i].1);
            r.push(Rule {
                id,
                pattern: copy_string(p),
                replacement: copy_string(rep),
                layer: RuleLayer::Static,
                domain: None,
                samples: i64::MAX,
                enabled: true,
                priority: 100,
            });
            proof { assert(self.entries()[i as int] == (p@, rep@)); }
            i = i + 1;
        }
        r
    }
}


proof fn lemma_pattern_order(a: Seq<char>, b: Seq<char>, c: Seq<char>)
    ensures
        !pattern_before(a, a),
        pattern_before(a, b) && pattern_before(b, c) ==> pattern_before(a, c),
        a != b ==> pattern_before(a, b) || pattern_before(b, a),
{
    lemma_lex_irreflexive(encode_utf8(a));
    if pattern_before(a, b) && pattern_before(b, c) {
        if encode_utf8(a).len() == encode_utf8(b).len() && encode_utf8(b).len() == encode_utf8(c).len() {
            lemma_lex_transitive(encode_utf8(a), encode_utf8(b), encode_utf8(c));
        }
    }
    lemma_lex_total(encode_utf8(a), encode_utf8(b));
    if encode_utf8(a) == encode_utf8(b) {
        encode_utf8_decode_utf8(a);
        encode_utf8_decode_utf8(b);
    }
}

proof fn lemma_insert_position(s: Seq<(Seq<char>, Seq<char>)>, x: Seq<char>, j: int)
    requires 0 <= j <= s.len(), forall|k: int| 0 <= k < j ==> !pattern_before(x, (#[trigger] s[k]).0),
    ensures ({
        let p = insert_position(s, x, j);
        &&& j <= p <= s.len()
        &&& forall|k: int| 0 <= k < p ==> !pattern_before(x, (#[trigger] s[k]).0)
        &&& p < s.len() ==> pattern_before(x, s[p].0)
    }),
    decreases s.len() - j,
{
    if j < s.len() && !pattern_before(x, s[j].0) {
        lemma_insert_position(s, x, j + 1);
    }
}

/// Patterns in strictly descending order: longer first, equal lengths in
/// byte order.
pub open spec fn patterns_ordered(s: Seq<(Seq<char>, Seq<char>)>) -> bool {
    forall|i: int, j: int| 0 <= i < j < s.len() ==> pattern_before((#[trigger] s[i]).0, (#[trigger] s[j]).0)
}

proof fn lemma_insert_entry_ordered(s: Seq<(Seq<char>, Seq<char>)>, x: (Seq<char>, Seq<char>))
    requires patterns_ordered(s),
    ensures patterns_ordered(insert_entry(s, x)),
{
    if !has_pattern(s, x.0) {
        lemma_insert_position(s, x.0, 0);
        let p = insert_position(s, x.0, 0);
        let n = s.insert(p, x);
        assert forall|i: int, j: int| 0 <= i < j < n.len() implies pattern_before((#[trigger] n[i]).0, (#[trigger] n[j]).0) by {
            if j < p {
                assert(n[i] == s[i] && n[j] == s[j]);
            } else if j == p {
                assert(n[i] == s[i] && n[j] == x);
                assert(s[i].0 != x.0);
                lemma_pattern_order(s[i].0, x.0, x.0);
            } else if i < p {
                assert(n[i] == s[i] && n[j] == s[j - 1]);
                if j - 1 > p {
                    assert(pattern_before(s[i].0, s[j - 1].0));
                } else {
                    assert(s[i].0 != x.0);
                    lemma_pattern_order(s[i].0, x.0, x.0);
                    lemma_pattern_order(s[i].0, x.0, s[p].0);
                }
            } else if i == p {
                assert(n[i] == x && n[j] == s[j - 1]);
                if j - 1 > p {
                    lemma_pattern_order(x.0, s[p].0, s[j - 1].0);
                }
            } else {
                assert(n[i] == s[i - 1] && n[j] == s[j - 1]);
            }
        }
    }
}

/// The static layer's entries come longest pattern first, patterns of equal
/// length in byte order, and no pattern occurs twice.
pub proof fn lemma_static_entries_ordered(lines: Seq<Seq<char>>, k: int)
    requires k <= lines.len(),
    ensures
        patterns_ordered(static_entries(lines, k)),
        forall|i: int, j: int| 0 <= i < j < static_entries(lines, k).len()
            ==> (#[trigger] static_entries(lines, k)[i]).0 != (#[trigger] static_entries(lines, k)[j]).0,
    decreases k,
{
    if k > 0 {
        lemma_static_entries_ordered(lines, k - 1);
        if let Some(x) = parse_rule_line(lines[k - 1]) {
            lemma_insert_entry_ordered(static_entries(lines, k - 1), x);
        }
    }
    let e = static_entries(lines, k);
    assert forall|i: int, j: int| 0 <= i < j < e.len() implies (#[trigger] e[i]).0 != (#[trigger] e[j]).0 by {
        lemma_pattern_order(e[i].0, e[j].0, e[j].0);
    }
}

proof fn lemma_insert_position_bound(s: Seq<(Seq<char>, Seq<char>)>, x: Seq<char>, j: int)
    requires 0 <= j <= s.len(),
    ensures j <= insert_position(s, x, j) <= s.len(),
    decreases s.len() - j,
{
    if j < s.len() && !pattern_before(x, s[j].0) {
        lemma_insert_position_bound(s, x, j + 1);
    }
}

} // verus!
