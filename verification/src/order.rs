//! Orders on byte strings used to sort patterns and terms.
use vstd::prelude::*;
use vstd::utf8::*;
use crate::text::{str_eq, copy_string};

verus! {

broadcast use vstd::string::group_string_axioms;

/// `a` comes strictly before `b` in byte-wise lexicographic order.
pub open spec fn lex_lt(a: Seq<u8>, b: Seq<u8>) -> bool
    decreases a.len(),
{
    if a.len() == 0 {
        b.len() > 0
    } else if b.len() == 0 {
        false
    } else if a[0] != b[0] {
        a[0] < b[0]
    } else {
        lex_lt(a.drop_first(), b.drop_first())
    }
}

/// Whether `a` comes strictly before `b` in byte-wise lexicographic order.
pub fn lex_less(a: &[u8], b: &[u8]) -> (r: bool)
    ensures r == lex_lt(a@, b@),
{
    let mut i: usize = 0;
    proof {
        assert(a@.subrange(0, a@.len() as int) =~= a@);
        assert(b@.subrange(0, b@.len() as int) =~= b@);
    }
    while i < a.len() && i < b.len() && a[i] == b[i]
        invariant
            i <= a@.len(), i <= b@.len(),
            lex_lt(a@.subrange(i as int, a@.len() as int), b@.subrange(i as int, b@.len() as int)) == lex_lt(a@, b@),
        decreases a.len() - i,
    {
        proof {
            let sa = a@.subrange(i as int, a@.len() as int);
            let sb = b@.subrange(i as int, b@.len() as int);
            assert(sa.drop_first() =~= a@.subrange(i + 1, a@.len() as int));
            assert(sb.drop_first() =~= b@.subrange(i + 1, b@.len() as int));
        }
        i = i + 1;
    }
    proof {
        assert(a@.subrange(0, a@.len() as int) =~= a@);
        assert(b@.subrange(0, b@.len() as int) =~= b@);
    }
    if i == a.len() {
        i < b.len()
    } else if i == b.len() {
        false
    } else {
        a[i] < b[i]
    }
}

/// No byte string comes before itself.
pub proof fn lemma_lex_irreflexive(a: Seq<u8>)
    ensures !lex_lt(a, a),
    decreases a.len(),
{
    if a.len() > 0 {
        lemma_lex_irreflexive(a.drop_first());
    }
}

/// The byte-wise order is transitive.
pub proof fn lemma_lex_transitive(a: Seq<u8>, b: Seq<u8>, c: Seq<u8>)
    requires lex_lt(a, b), lex_lt(b, c),
    ensures lex_lt(a, c),
    decreases a.len(),
{
    if a.len() > 0 && a[0] == b[0] && b[0] == c[0] {
        lemma_lex_transitive(a.drop_first(), b.drop_first(), c.drop_first());
    }
}

/// Of two byte strings, one comes first unless they are equal.
pub proof fn lemma_lex_total(a: Seq<u8>, b: Seq<u8>)
    ensures lex_lt(a, b) || a == b || lex_lt(b, a),
    decreases a.len(),
{
    if a.len() == 0 {
        if b.len() == 0 {
            assert(a =~= b);
        }
    } else if b.len() > 0 && a[0] == b[0] {
        lemma_lex_total(a.drop_first(), b.drop_first());
        if a.drop_first() == b.drop_first() {
            assert(a =~= seq![a[0]] + a.drop_first());
            assert(b =~= seq![b[0]] + b.drop_first());
        }
    }
}

/// Strings in strictly ascending byte-wise order, so no string occurs twice.
pub open spec fn strictly_ascending(s: Seq<Seq<char>>) -> bool {
    forall|i: int, j: int| 0 <= i < j < s.len() ==> lex_lt(encode_utf8(#[trigger] s[i]), encode_utf8(#[trigger] s[j]))
}

/// The first position in `s`, from `j` on, whose string does not come
/// before `t`.
pub open spec fn ascending_position(s: Seq<Seq<char>>, t: Seq<char>, j: int) -> int
    decreases s.len() - j,
{
    if j < 0 || j >= s.len() {
        s.len() as int
    } else if !lex_lt(encode_utf8(s[j]), encode_utf8(t)) {
        j
    } else {
        ascending_position(s, t, j + 1)
    }
}

/// `t` added to ascending strings at its place, unless it is there already.
pub open spec fn ascending_insert(s: Seq<Seq<char>>, t: Seq<char>) -> Seq<Seq<char>> {
    let p = ascending_position(s, t, 0);
    if p < s.len() && s[p] == t {
        s
    } else {
        s.insert(p, t)
    }
}

/// The strings of `s` in ascending byte-wise order, each once.
pub open spec fn ascending_set(s: Seq<Seq<char>>) -> Seq<Seq<char>>
    decreases s.len(),
{
    if s.len() == 0 {
        s
    } else {
        ascending_insert(ascending_set(s.drop_last()), s.last())
    }
}

proof fn lemma_ascending_position(s: Seq<Seq<char>>, t: Seq<char>, j: int)
    requires 0 <= j <= s.len(),
        forall|k: int| 0 <= k < j ==> lex_lt(encode_utf8(#[trigger] s[k]), encode_utf8(t)),
    ensures ({
        let p = ascending_position(s, t, j);
        &&& j <= p <= s.len()
        &&& forall|k: int| 0 <= k < p ==> lex_lt(encode_utf8(#[trigger] s[k]), encode_utf8(t))
        &&& p < s.len() ==> !lex_lt(encode_utf8(s[p]), encode_utf8(t))
    }),
    decreases s.len() - j,
{
    if j < s.len() && lex_lt(encode_utf8(s[j]), encode_utf8(t)) {
        lemma_ascending_position(s, t, j + 1);
    }
}

/// Adding a string keeps strings ascending and adds it to their set.
pub proof fn lemma_ascending_insert(s: Seq<Seq<char>>, t: Seq<char>)
    requires strictly_ascending(s),
    ensures
        strictly_ascending(ascending_insert(s, t)),
        ascending_insert(s, t).to_set() == s.to_set().insert(t),
{
    lemma_ascending_position(s, t, 0);
    let p = ascending_position(s, t, 0);
    if p < s.len() && s[p] == t {
        assert(s.to_set().insert(t) =~= s.to_set()) by {
            assert(s.contains(t));
        }
    } else {
        if p < s.len() {
            lemma_lex_total(encode_utf8(s[p]), encode_utf8(t));
            if encode_utf8(s[p]) == encode_utf8(t) {
                encode_utf8_decode_utf8(s[p]);
                encode_utf8_decode_utf8(t);
            }
            assert(lex_lt(encode_utf8(t), encode_utf8(s[p])));
        }
        let ns = s.insert(p, t);
        assert forall|i: int, j: int| 0 <= i < j < ns.len() implies lex_lt(encode_utf8(#[trigger] ns[i]), encode_utf8(#[trigger] ns[j])) by {
            if j < p {
                assert(ns[i] == s[i] && ns[j] == s[j]);
            } else if j == p {
                assert(ns[i] == s[i] && ns[j] == t);
            } else if i < p {
                assert(ns[i] == s[i] && ns[j] == s[j - 1]);
                if j - 1 > p {
                    lemma_lex_transitive(encode_utf8(t), encode_utf8(s[p]), encode_utf8(s[j - 1]));
                }
                lemma_lex_transitive(encode_utf8(s[i]), encode_utf8(t), encode_utf8(s[j - 1]));
            } else if i == p {
                assert(ns[i] == t && ns[j] == s[j - 1]);
                if j - 1 > p {
                    lemma_lex_transitive(encode_utf8(t), encode_utf8(s[p]), encode_utf8(s[j - 1]));
                }
            } else {
                assert(ns[i] == s[i - 1] && ns[j] == s[j - 1]);
            }
        }
        assert forall|x: Seq<char>| ns.to_set().contains(x) <==> s.to_set().insert(t).contains(x) by {
            if ns.contains(x) {
                let k = choose|k: int| 0 <= k < ns.len() && ns[k] == x;
                if k < p { assert(s[k] == x); } else if k > p { assert(s[k - 1] == x); }
            }
            if s.contains(x) {
                let k = choose|k: int| 0 <= k < s.len() && s[k] == x;
                if k < p { assert(ns[k] == x); } else { assert(ns[k + 1] == x); }
            }
            if x == t { assert(ns[p] == x); }
        }
        assert(ns.to_set() =~= s.to_set().insert(t));
    }
}

/// Sorting strings and dropping repeats gives strings in strictly ascending
/// byte-wise order with the same set as the input.
pub proof fn lemma_ascending_set(s: Seq<Seq<char>>)
    ensures
        strictly_ascending(ascending_set(s)),
        ascending_set(s).to_set() == s.to_set(),
    decreases s.len(),
{
    if s.len() > 0 {
        lemma_ascending_set(s.drop_last());
        lemma_ascending_insert(ascending_set(s.drop_last()), s.last());
        assert(s.to_set() =~= s.drop_last().to_set().insert(s.last())) by {
            assert forall|x: Seq<char>| s.contains(x) <==> (s.drop_last().contains(x) || x == s.last()) by {
                if s.contains(x) {
                    let k = choose|k: int| 0 <= k < s.len() && s[k] == x;
                    if k < s.len() - 1 { assert(s.drop_last()[k] == x); }
                }
                if s.drop_last().contains(x) {
                    let k = choose|k: int| 0 <= k < s.drop_last().len() && s.drop_last()[k] == x;
                    assert(s[k] == x);
                }
                if x == s.last() { assert(s[s.len() - 1] == x); }
            }
        }
    } else {
        assert(s.to_set() =~= Set::<Seq<char>>::empty());
    }
}

/// Adds `t` to strings kept in ascending order, unless it is there already.
pub fn insert_ascending(v: &mut Vec<String>, t: &String)
    ensures final(v)@.map_values(|x: String| x@) == ascending_insert(old(v)@.map_values(|x: String| x@), t@),
{
    let ghost vs = v@.map_values(|x: String| x@);
    let tb = t.as_str().as_bytes();
    let mut p: usize = 0;
    while p < v.len() && lex_less(v[p].as_str().as_bytes(), tb)
        invariant
            p <= v@.len(), vs == v@.map_values(|x: String| x@), tb@ == encode_utf8(t@),
            ascending_position(vs, t@, p as int) == ascending_position(vs, t@, 0),
        decreases v.len() - p,
    {
        proof { assert(vs[p as int] == v@[p as int]@); }
        p = p + 1;
    }
    proof {
        if p < v@.len() {
            assert(vs[p as int] == v@[p as int]@);
        }
    }
    if p < v.len() && str_eq(v[p].as_str(), t.as_str()) {
        return;
    }
    v.insert(p, copy_string(t));
    proof {
        assert(v@.map_values(|x: String| x@) =~= vs.insert(p as int, t@));
    }
}

} // verus!
