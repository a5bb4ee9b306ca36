//! Applying rule matches to a text: choosing which matches to apply,
//! replacing them, and tidying the spaces that removals leave behind.
use vstd::prelude::*;
use vstd::string::StringSliceAdditionalSpecFns;
use vstd::utf8::*;
use crate::code_fence::{ProtectedRegion, overlaps_some_region, in_some_region, is_in_any_protected_region,
    is_in_protected_region};
use crate::boundary::{word_boundary, is_word_boundary};
use crate::text::{splice, splice_bytes, lemma_boundary_byte, at_char_start, trim_bytes,
    lemma_trim_bounds, lemma_trim_no_outer_whitespace, ws_len_at, ws_len_before, string_from_utf8,
    trim_sides, lemma_trim_sides, trim_sides_vec};
use crate::preprocessor::lemma_splice_shape;

verus! {

broadcast use vstd::string::group_string_axioms;

pub const SPACE: u8 = 0x20;

/// A rule match `(start, end, rule index)` may be applied to text `b`: it lies
/// within the text on character boundaries, touches no protected region and
/// stands on word boundaries.
pub open spec fn match_ok(b: Seq<u8>, m: (int, int, int), prot: Seq<ProtectedRegion>) -> bool {
    &&& m.1 <= b.len()
    &&& is_char_boundary(b, m.0)
    &&& is_char_boundary(b, m.1)
    &&& !overlaps_some_region(m.0, m.1, prot)
    &&& word_boundary(b, m.0, m.1)
}

/// Matches `k..` that are applied: each one that may be applied and starts
/// at or after the end of the last one taken (`rightmost`).
pub open spec fn select_from(b: Seq<u8>, ms: Seq<(int, int, int)>, prot: Seq<ProtectedRegion>, k: int, rightmost: int) -> Seq<(int, int, int)>
    decreases ms.len() - k,
{
    if k >= ms.len() || k < 0 {
        Seq::empty()
    } else if match_ok(b, ms[k], prot) && ms[k].0 >= rightmost {
        seq![ms[k]] + select_from(b, ms, prot, k + 1, ms[k].1)
    } else {
        select_from(b, ms, prot, k + 1, rightmost)
    }
}

/// The matches that are applied to `b`, in text order.
pub open spec fn selected_matches(b: Seq<u8>, ms: Seq<(int, int, int)>, prot: Seq<ProtectedRegion>) -> Seq<(int, int, int)> {
    select_from(b, ms, prot, 0, 0)
}

/// Applies one match to `r`: a non-empty replacement takes the matched
/// range's place; an empty one removes the range, and when the range had a
/// space on both sides one of the two spaces goes too.
pub open spec fn apply_match(r: Seq<u8>, m: (int, int, int), rep: Seq<u8>) -> Seq<u8> {
    if rep.len() == 0 {
        let space_before = m.0 > 0 && r[m.0 - 1] == SPACE;
        let space_after = m.1 < r.len() && r[m.1] == SPACE;
        let r1 = splice(r, m.0, m.1, Seq::empty());
        if space_before && space_after && m.0 > 0 && m.0 < r1.len() && r1[m.0 - 1] == SPACE && r1[m.0] == SPACE {
            r1.remove(m.0)
        } else {
            r1
        }
    } else {
        splice(r, m.0, m.1, rep)
    }
}

/// The text after applying matches `k..` of `sel`, the last one first.
pub open spec fn apply_from(b: Seq<u8>, sel: Seq<(int, int, int)>, reps: Seq<Seq<u8>>, k: int) -> Seq<u8>
    decreases sel.len() - k,
{
    if k >= sel.len() || k < 0 {
        b
    } else {
        apply_match(apply_from(b, sel, reps, k + 1), sel[k], reps[sel[k].2])
    }
}

/// Every space that is followed by another space removed, so that each run
/// of spaces becomes a single one.
pub open spec fn collapse_spaces(s: Seq<u8>) -> Seq<u8>
    decreases s.len(),
{
    if s.len() < 2 {
        s
    } else if s[0] == SPACE && s[1] == SPACE {
        collapse_spaces(s.drop_first())
    } else {
        seq![s[0]] + collapse_spaces(s.drop_first())
    }
}

/// Byte `i` of `b` is protected directly, or a later byte of the same
/// character is.
pub open spec fn cov_back(b: Seq<u8>, prot: Seq<ProtectedRegion>, i: int) -> bool
    decreases b.len() - i,
{
    if i < 0 || i >= b.len() {
        false
    } else {
        in_some_region(i, prot) || (i + 1 < b.len() && is_continuation_byte(b[i + 1]) && cov_back(b, prot, i + 1))
    }
}

/// Byte `i` of `b` belongs to a character one of whose bytes lies in a
/// protected region: such bytes are kept as they are.
pub open spec fn covered(b: Seq<u8>, prot: Seq<ProtectedRegion>, i: int) -> bool
    decreases i,
{
    if i < 0 || i >= b.len() {
        false
    } else {
        cov_back(b, prot, i) || (i > 0 && is_continuation_byte(b[i]) && covered(b, prot, i - 1))
    }
}

/// Whether each byte of `b` is kept as it is.
pub open spec fn coverage(b: Seq<u8>, prot: Seq<ProtectedRegion>) -> Seq<bool> {
    Seq::new(b.len(), |i: int| covered(b, prot, i))
}

/// The first `j` positions cut into maximal runs of equal flags, as
/// `[start, end)` pairs in order.
pub open spec fn pieces_of(fl: Seq<bool>, j: int) -> Seq<(int, int)>
    decreases j,
{
    if j <= 0 {
        Seq::empty()
    } else {
        let p = pieces_of(fl, j - 1);
        if j >= 2 && fl[j - 1] == fl[j - 2] && p.len() > 0 {
            p.update(p.len() - 1, (p.last().0, j))
        } else {
            p.push((j - 1, j))
        }
    }
}

/// The matches of `sel` that lie within `[s, e)`, shifted to start at `s`.
pub open spec fn local_matches(sel: Seq<(int, int, int)>, s: int, e: int) -> Seq<(int, int, int)>
    decreases sel.len(),
{
    if sel.len() == 0 {
        Seq::empty()
    } else {
        let rest = local_matches(sel.drop_last(), s, e);
        let m = sel.last();
        if s <= m.0 && m.1 <= e {
            rest.push((m.0 - s, m.1 - s, m.2))
        } else {
            rest
        }
    }
}

/// `c` without a leading space when the protected byte before the stretch
/// (`before`) is a space, and without a trailing space when the protected
/// byte after it (`after`) is one: the run of spaces then keeps the
/// protected space alone.
pub open spec fn join_spaces(c: Seq<u8>, before: bool, after: bool) -> Seq<u8> {
    let c1 = if before && c.len() > 0 && c[0] == SPACE { c.drop_first() } else { c };
    if after && c1.len() > 0 && c1.last() == SPACE { c1.drop_last() } else { c1 }
}

/// An unprotected stretch `[s, e)` of `b` rewritten: its matches applied,
/// its space runs collapsed (a run that touches a protected space loses its
/// unprotected spaces), and its leading (when `lead`) and trailing (when
/// `tail`) whitespace trimmed.
#[verifier::opaque]
pub open spec fn gap_text(b: Seq<u8>, s: int, e: int, sel: Seq<(int, int, int)>, reps: Seq<Seq<u8>>, lead: bool, tail: bool) -> Seq<u8> {
    trim_sides(join_spaces(collapse_spaces(apply_from(b.subrange(s, e), local_matches(sel, s, e), reps, 0)),
        s > 0 && b[s - 1] == SPACE, e < b.len() && b[e] == SPACE), lead, tail)
}

proof fn lemma_join_spaces_valid(c: Seq<u8>, before: bool, after: bool)
    requires valid_utf8(c),
    ensures valid_utf8(join_spaces(c, before, after)),
{
    let c1 = if before && c.len() > 0 && c[0] == SPACE { c.drop_first() } else { c };
    if before && c.len() > 0 && c[0] == SPACE {
        lemma_drop_ascii_valid(c);
    }
    if after && c1.len() > 0 && c1.last() == SPACE {
        let k = c1.len() - 1;
        lemma_boundary_byte(c1, k);
        valid_utf8_split(c1, k);
        assert(c1.subrange(0, k) =~= c1.drop_last());
    }
}

/// Drops a leading space (when `before`) and a trailing one (when `after`).
fn join_spaces_vec(c: Vec<u8>, before: bool, after: bool) -> (r: Vec<u8>)
    ensures r@ == join_spaces(c@, before, after),
{
    let mut c = c;
    if before && c.len() > 0 && c[0] == SPACE {
        let ghost c0 = c@;
        c.remove(0);
        proof { assert(c@ =~= c0.drop_first()); }
    }
    if after && c.len() > 0 && c[c.len() - 1] == SPACE {
        c.pop();
    }
    c
}

/// The output of piece `k` of `pcs`: a protected piece as it is, an
/// unprotected one rewritten; only the first piece loses leading and only
/// the last loses trailing whitespace.
pub open spec fn piece_text(b: Seq<u8>, fl: Seq<bool>, pcs: Seq<(int, int)>, k: int, sel: Seq<(int, int, int)>, reps: Seq<Seq<u8>>) -> Seq<u8> {
    let pc = pcs[k];
    if fl[pc.0] {
        b.subrange(pc.0, pc.1)
    } else {
        gap_text(b, pc.0, pc.1, sel, reps, k == 0, k == pcs.len() - 1)
    }
}

/// The outputs of the first `k` pieces, joined.
pub open spec fn assembled(b: Seq<u8>, fl: Seq<bool>, pcs: Seq<(int, int)>, k: int, sel: Seq<(int, int, int)>, reps: Seq<Seq<u8>>) -> Seq<u8>
    decreases k,
{
    if k <= 0 {
        Seq::empty()
    } else {
        assembled(b, fl, pcs, k - 1, sel, reps) + piece_text(b, fl, pcs, k - 1, sel, reps)
    }
}

/// The text that results from a text given by its bytes, the matches found
/// in it, the protected regions and the replacement of each rule. The text
/// is cut into runs of protected characters (those touching a protected
/// region) and unprotected ones. Protected runs are kept byte for byte; in
/// each unprotected run the selected matches are applied and space runs
/// collapsed; the whitespace at the text's two ends is trimmed where it is
/// unprotected.
pub open spec fn rewritten(b: Seq<u8>, ms: Seq<(int, int, int)>, prot: Seq<ProtectedRegion>, reps: Seq<Seq<u8>>) -> Seq<u8> {
    let fl = coverage(b, prot);
    let pcs = pieces_of(fl, b.len() as int);
    assembled(b, fl, pcs, pcs.len() as int, selected_matches(b, ms, prot), reps)
}

/// The pieces of the first `j` positions are non-empty, consecutive runs of
/// equal flags that start at 0 and end at `j`, and the flag changes between
/// two pieces.
pub open spec fn pieces_ok(fl: Seq<bool>, pcs: Seq<(int, int)>, j: int) -> bool {
    &&& (pcs.len() == 0 <==> j <= 0)
    &&& pcs.len() > 0 ==> pcs[0].0 == 0 && pcs.last().1 == j
    &&& forall|k: int| 0 <= k < pcs.len() ==> 0 <= (#[trigger] pcs[k]).0 < pcs[k].1 <= j
    &&& forall|k: int| 0 <= k < pcs.len() - 1 ==> (#[trigger] pcs[k]).1 == pcs[k + 1].0
    &&& forall|k: int, i: int| 0 <= k < pcs.len() && (#[trigger] pcs[k]).0 <= i < pcs[k].1 ==> #[trigger] fl[i] == fl[pcs[k].0]
    &&& forall|k: int| 0 < k < pcs.len() ==> fl[(#[trigger] pcs[k]).0] != fl[pcs[k].0 - 1]
}

pub proof fn lemma_pieces_ok(fl: Seq<bool>, j: int)
    requires 0 <= j <= fl.len(),
    ensures pieces_ok(fl, pieces_of(fl, j), j),
    decreases j,
{
    if j > 0 {
        lemma_pieces_ok(fl, j - 1);
        let p = pieces_of(fl, j - 1);
        let q = pieces_of(fl, j);
        if j >= 2 && fl[j - 1] == fl[j - 2] && p.len() > 0 {
            assert(q == p.update(p.len() - 1, (p.last().0, j)));
            assert forall|k: int, i: int| 0 <= k < q.len() && (#[trigger] q[k]).0 <= i < q[k].1 implies #[trigger] fl[i] == fl[q[k].0] by {
                if k == q.len() - 1 && i == j - 1 {
                    assert(p[k].0 <= j - 2 < p[k].1);
                    assert(fl[j - 2] == fl[p[k].0]);
                } else {
                    assert(p[k].0 <= i < p[k].1);
                }
            }
            assert forall|k: int| 0 < k < q.len() implies fl[(#[trigger] q[k]).0] != fl[q[k].0 - 1] by {
                assert(q[k].0 == p[k].0);
            }
            assert forall|k: int| 0 <= k < q.len() - 1 implies (#[trigger] q[k]).1 == q[k + 1].0 by {
                assert(q[k] == p[k]);
                assert(q[k + 1].0 == p[k + 1].0);
            }
        } else {
            assert(q == p.push((j - 1, j)));
            if j >= 2 {
                assert(p.len() > 0);
                assert(fl[j - 1] != fl[j - 2]);
                assert(q[q.len() - 1].0 == j - 1);
                assert(p.last().1 == j - 1);
            }
            assert forall|k: int, i: int| 0 <= k < q.len() && (#[trigger] q[k]).0 <= i < q[k].1 implies #[trigger] fl[i] == fl[q[k].0] by {
                if k < p.len() { assert(q[k] == p[k]); }
            }
            assert forall|k: int| 0 < k < q.len() implies fl[(#[trigger] q[k]).0] != fl[q[k].0 - 1] by {
                if k < p.len() { assert(q[k] == p[k]); }
            }
            assert forall|k: int| 0 <= k < q.len() - 1 implies (#[trigger] q[k]).1 == q[k + 1].0 by {
                assert(q[k] == p[k]);
                if k + 1 < p.len() { assert(q[k + 1] == p[k + 1]); }
            }
        }
    }
}

/// Where the protection flag changes, a character starts.
pub proof fn lemma_cover_change_boundary(b: Seq<u8>, prot: Seq<ProtectedRegion>, s: int)
    requires 0 < s < b.len(), covered(b, prot, s) != covered(b, prot, s - 1),
    ensures !is_continuation_byte(b[s]),
{
    if is_continuation_byte(b[s]) {
        assert(cov_back(b, prot, s - 1) == (in_some_region(s - 1, prot) || cov_back(b, prot, s)));
    }
}

/// A byte that lies in a protected region is kept as it is.
pub proof fn lemma_region_byte_covered(b: Seq<u8>, prot: Seq<ProtectedRegion>, i: int)
    requires 0 <= i < b.len(), in_some_region(i, prot),
    ensures covered(b, prot, i),
{
}

/// The joined outputs of the first `k` pieces begin the joined outputs of
/// the first `m`.
pub proof fn lemma_assembled_prefix(b: Seq<u8>, fl: Seq<bool>, pcs: Seq<(int, int)>, k: int, m: int, sel: Seq<(int, int, int)>, reps: Seq<Seq<u8>>)
    requires 0 <= k <= m,
    ensures
        assembled(b, fl, pcs, k, sel, reps).len() <= assembled(b, fl, pcs, m, sel, reps).len(),
        assembled(b, fl, pcs, m, sel, reps).subrange(0, assembled(b, fl, pcs, k, sel, reps).len() as int)
            == assembled(b, fl, pcs, k, sel, reps),
    decreases m - k,
{
    if k < m {
        lemma_assembled_prefix(b, fl, pcs, k, m - 1, sel, reps);
        let a = assembled(b, fl, pcs, k, sel, reps);
        let am = assembled(b, fl, pcs, m - 1, sel, reps);
        assert(assembled(b, fl, pcs, m, sel, reps) == am + piece_text(b, fl, pcs, m - 1, sel, reps));
        assert((am + piece_text(b, fl, pcs, m - 1, sel, reps)).subrange(0, a.len() as int) =~= am.subrange(0, a.len() as int));
    } else {
        assert(assembled(b, fl, pcs, m, sel, reps).subrange(0, assembled(b, fl, pcs, m, sel, reps).len() as int)
            =~= assembled(b, fl, pcs, m, sel, reps));
    }
}

/// The piece of `pcs` that holds position `i`.
proof fn lemma_piece_of(fl: Seq<bool>, pcs: Seq<(int, int)>, j: int, i: int) -> (q: int)
    requires pieces_ok(fl, pcs, j), 0 <= i < j,
    ensures 0 <= q < pcs.len(), pcs[q].0 <= i < pcs[q].1,
    decreases pcs.len(),
{
    let n = pcs.len() as int;
    if pcs[n - 1].0 <= i {
        n - 1
    } else {
        let p = pcs.drop_last();
        assert forall|k: int| 0 <= k < p.len() implies 0 <= (#[trigger] p[k]).0 < p[k].1 <= pcs[n - 1].0 by {
            assert(p[k] == pcs[k]);
            if k < n - 2 {
                assert(pcs[k].1 == pcs[k + 1].0);
            }
        }
        assert forall|k: int| 0 <= k < p.len() - 1 implies (#[trigger] p[k]).1 == p[k + 1].0 by {
            assert(p[k] == pcs[k]);
            assert(p[k + 1] == pcs[k + 1]);
        }
        assert forall|k: int, x: int| 0 <= k < p.len() && (#[trigger] p[k]).0 <= x < p[k].1 implies #[trigger] fl[x] == fl[p[k].0] by {
            assert(p[k] == pcs[k]);
        }
        assert forall|k: int| 0 < k < p.len() implies fl[(#[trigger] p[k]).0] != fl[p[k].0 - 1] by {
            assert(p[k] == pcs[k]);
        }
        assert(n >= 2);
        assert(p.last() == pcs[n - 2]);
        assert(pcs[n - 2].1 == pcs[n - 1].0);
        lemma_pieces_ok_bounds(fl, pcs, j);
        let q = lemma_piece_of(fl, p, pcs[n - 1].0, i);
        assert(p[q] == pcs[q]);
        q
    }
}

proof fn lemma_pieces_ok_bounds(fl: Seq<bool>, pcs: Seq<(int, int)>, j: int)
    requires pieces_ok(fl, pcs, j), pcs.len() > 0,
    ensures forall|k: int| 0 <= k < pcs.len() ==> (#[trigger] pcs[k]).1 <= pcs.last().1,
{
    assert forall|k: int| 0 <= k < pcs.len() implies (#[trigger] pcs[k]).1 <= pcs.last().1 by {
        assert(pcs[k].1 <= j);
    }
}

/// A stretch of flagged positions lies in one flagged piece, whose output is
/// its bytes as they are.
#[verifier::spinoff_prover]
#[verifier::rlimit(40)]
proof fn lemma_flagged_stretch_kept(b: Seq<u8>, fl: Seq<bool>, pcs: Seq<(int, int)>, sel: Seq<(int, int, int)>, reps: Seq<Seq<u8>>, s: int, e: int) -> (j: int)
    requires
        fl.len() == b.len(), pieces_ok(fl, pcs, b.len() as int), 0 <= s < e <= b.len(),
        forall|i: int| s <= i < e ==> #[trigger] fl[i],
    ensures ({
        let r = assembled(b, fl, pcs, pcs.len() as int, sel, reps);
        0 <= j && j + (e - s) <= r.len() && r.subrange(j, j + (e - s)) == b.subrange(s, e)
    }),
{
    let n = b.len() as int;
    let q = lemma_piece_of(fl, pcs, n, s);
    let ps = pcs[q].0;
    let pe = pcs[q].1;
    assert(fl[s]);
    assert(fl[s] == fl[ps]);
    if pe < e {
        assert(q < pcs.len() - 1);
        assert(pcs[q].1 == pcs[q + 1].0);
        assert(0 < q + 1 < pcs.len());
        assert(fl[pcs[q + 1].0] != fl[pcs[q + 1].0 - 1]);
        assert(fl[pe]);
        assert(fl[pe - 1]);
    }
    let a = assembled(b, fl, pcs, q, sel, reps);
    let piece = b.subrange(ps, pe);
    assert(piece_text(b, fl, pcs, q, sel, reps) == piece);
    assert(assembled(b, fl, pcs, q + 1, sel, reps) == a + piece);
    lemma_assembled_prefix(b, fl, pcs, q + 1, pcs.len() as int, sel, reps);
    let r = assembled(b, fl, pcs, pcs.len() as int, sel, reps);
    let j = a.len() + (s - ps);
    assert((a + piece).subrange(j, j + (e - s)) =~= b.subrange(s, e));
    assert(r.subrange(0, (a + piece).len() as int) == a + piece);
    assert(r.subrange(j, j + (e - s)) =~= (a + piece).subrange(j, j + (e - s)));
    j
}

/// Protected text is never changed: for every protected region within the
/// text, its bytes appear, unchanged and in order, in the rewritten text.
pub proof fn lemma_protected_regions_kept(b: Seq<u8>, ms: Seq<(int, int, int)>, prot: Seq<ProtectedRegion>, reps: Seq<Seq<u8>>, k: int)
    requires 0 <= k < prot.len(), prot[k].start < prot[k].end <= b.len(),
    ensures ({
        let r = rewritten(b, ms, prot, reps);
        let s = prot[k].start as int;
        let e = prot[k].end as int;
        exists|j: int| 0 <= j && j + (e - s) <= r.len() && #[trigger] r.subrange(j, j + (e - s)) == b.subrange(s, e)
    }),
{
    let fl = coverage(b, prot);
    let n = b.len() as int;
    let s = prot[k].start as int;
    let e = prot[k].end as int;
    lemma_pieces_ok(fl, n);
    assert forall|i: int| s <= i < e implies #[trigger] fl[i] by {
        assert(prot[k].start <= i < prot[k].end);
        assert(in_some_region(i, prot));
        lemma_region_byte_covered(b, prot, i);
    }
    let j = lemma_flagged_stretch_kept(b, fl, pieces_of(fl, n), selected_matches(b, ms, prot), reps, s, e);
    let r = rewritten(b, ms, prot, reps);
    assert(r.subrange(j, j + (e - s)) == b.subrange(s, e));
}

/// The matches handed in are ranges `start <= end` with a rule index below `n`.
pub open spec fn matches_shaped(ms: Seq<(int, int, int)>, n: int) -> bool {
    forall|k: int| 0 <= k < ms.len() ==> 0 <= (#[trigger] ms[k]).0 <= ms[k].1 && 0 <= ms[k].2 < n
}

/// The matches handed in are ranges `start <= end`.
pub open spec fn ranges_shaped(ms: Seq<(int, int, int)>) -> bool {
    forall|k: int| 0 <= k < ms.len() ==> 0 <= (#[trigger] ms[k]).0 <= ms[k].1 && 0 <= ms[k].2
}

proof fn lemma_select_props(b: Seq<u8>, ms: Seq<(int, int, int)>, prot: Seq<ProtectedRegion>, k: int, rightmost: int, n: int)
    requires valid_utf8(b), matches_shaped(ms, n), 0 <= k, 0 <= rightmost,
    ensures ({
        let sel = select_from(b, ms, prot, k, rightmost);
        &&& forall|x: int| 0 <= x < sel.len() ==> match_ok(b, #[trigger] sel[x], prot)
            && rightmost <= sel[x].0 <= sel[x].1 <= b.len() && 0 <= sel[x].2 < n
        &&& forall|x: int, y: int| 0 <= x < y < sel.len() ==> (#[trigger] sel[x]).1 <= (#[trigger] sel[y]).0
    }),
    decreases ms.len() - k,
{
    if k < ms.len() {
        if match_ok(b, ms[k], prot) && ms[k].0 >= rightmost {
            lemma_select_props(b, ms, prot, k + 1, ms[k].1, n);
            let rest = select_from(b, ms, prot, k + 1, ms[k].1);
            let sel = select_from(b, ms, prot, k, rightmost);
            assert(sel == seq![ms[k]] + rest);
            assert(0 <= ms[k].0 <= ms[k].1 && 0 <= ms[k].2 < n);
            assert forall|x: int| 0 <= x < sel.len() implies match_ok(b, #[trigger] sel[x], prot)
                && rightmost <= sel[x].0 <= sel[x].1 <= b.len() && 0 <= sel[x].2 < n by {
                if x > 0 { assert(sel[x] == rest[x - 1]); } else { assert(sel[0] == ms[k]); }
            }
            assert forall|x: int, y: int| 0 <= x < y < sel.len() implies (#[trigger] sel[x]).1 <= (#[trigger] sel[y]).0 by {
                assert(sel[y] == rest[y - 1]);
                if x > 0 { assert(sel[x] == rest[x - 1]); } else { assert(sel[0] == ms[k]); }
            }
        } else {
            lemma_select_props(b, ms, prot, k + 1, rightmost, n);
            assert(select_from(b, ms, prot, k, rightmost) == select_from(b, ms, prot, k + 1, rightmost));
        }
    }
}


/// Every match that is applied lies within the text on character boundaries,
/// overlaps no protected region and stands on word boundaries; each applied
/// match ends before the next one starts.
pub proof fn lemma_applied_matches_respect_regions(b: Seq<u8>, ms: Seq<(int, int, int)>, prot: Seq<ProtectedRegion>, n: int)
    requires valid_utf8(b), matches_shaped(ms, n),
    ensures ({
        let sel = selected_matches(b, ms, prot);
        &&& forall|x: int| 0 <= x < sel.len() ==> match_ok(b, #[trigger] sel[x], prot)
        &&& forall|x: int, y: int| 0 <= x < y < sel.len() ==> (#[trigger] sel[x]).1 <= (#[trigger] sel[y]).0
    }),
{
    lemma_select_props(b, ms, prot, 0, 0, n);
}

proof fn lemma_collapse_no_double(s: Seq<u8>)
    ensures ({
        let c = collapse_spaces(s);
        forall|i: int| 0 <= i < c.len() - 1 ==> !(#[trigger] c[i] == SPACE && c[i + 1] == SPACE)
    }),
    decreases s.len(),
{
    if s.len() >= 2 {
        let d = s.drop_first();
        lemma_collapse_no_double(d);
        if !(s[0] == SPACE && s[1] == SPACE) {
            let c = collapse_spaces(s);
            let cd = collapse_spaces(d);
            assert(c == seq![s[0]] + cd);
            if s[0] == SPACE {
                assert(d[0] != SPACE);
                if d.len() >= 2 {
                    assert(cd == seq![d[0]] + collapse_spaces(d.drop_first()));
                }
                assert(cd[0] == d[0]);
            }
            assert forall|i: int| 0 <= i < c.len() - 1 implies !(#[trigger] c[i] == SPACE && c[i + 1] == SPACE) by {
                if i > 0 {
                    assert(c[i] == cd[i - 1] && c[i + 1] == cd[i]);
                }
            }
        }
    }
}

proof fn lemma_no_cover(b: Seq<u8>, prot: Seq<ProtectedRegion>, i: int)
    requires prot.len() == 0,
    ensures !cov_back(b, prot, i), !covered(b, prot, i),
    decreases b.len() - i,
{
    if 0 <= i < b.len() {
        lemma_no_cover(b, prot, i + 1);
        lemma_no_cover_fwd(b, prot, i);
    }
}

proof fn lemma_no_cover_fwd(b: Seq<u8>, prot: Seq<ProtectedRegion>, i: int)
    requires prot.len() == 0,
    ensures !covered(b, prot, i),
    decreases i,
{
    if 0 <= i < b.len() {
        lemma_no_cover_back(b, prot, i);
        if i > 0 {
            lemma_no_cover_fwd(b, prot, i - 1);
        }
    }
}

proof fn lemma_no_cover_back(b: Seq<u8>, prot: Seq<ProtectedRegion>, i: int)
    requires prot.len() == 0,
    ensures !cov_back(b, prot, i),
    decreases b.len() - i,
{
    if 0 <= i < b.len() {
        lemma_no_cover_back(b, prot, i + 1);
    }
}

/// Matches that all lie within `[0, e)` are their own local matches.
proof fn lemma_local_all(sel: Seq<(int, int, int)>, e: int)
    requires forall|x: int| 0 <= x < sel.len() ==> 0 <= (#[trigger] sel[x]).0 && sel[x].1 <= e,
    ensures local_matches(sel, 0, e) == sel,
    decreases sel.len(),
{
    if sel.len() > 0 {
        let d = sel.drop_last();
        assert forall|x: int| 0 <= x < d.len() implies 0 <= (#[trigger] d[x]).0 && d[x].1 <= e by {
            assert(d[x] == sel[x]);
        }
        lemma_local_all(d, e);
        let m = sel.last();
        assert((m.0 - 0, m.1 - 0, m.2) == m);
        assert(d.push(m) =~= sel);
    }
}

/// Without protected regions, the rewritten text has no two spaces in a
/// row, and neither starts nor ends with whitespace.
pub proof fn lemma_rewritten_tidy(b: Seq<u8>, ms: Seq<(int, int, int)>, prot: Seq<ProtectedRegion>, reps: Seq<Seq<u8>>)
    requires prot.len() == 0, valid_utf8(b), matches_shaped(ms, reps.len() as int),
    ensures ({
        let r = rewritten(b, ms, prot, reps);
        &&& forall|i: int| 0 <= i < r.len() - 1 ==> !(#[trigger] r[i] == SPACE && r[i + 1] == SPACE)
        &&& r.len() > 0 ==> ws_len_at(r, 0) == 0 && ws_len_before(r, r.len() as int) == 0
    }),
{
    let n = b.len() as int;
    let fl = coverage(b, prot);
    let pcs = pieces_of(fl, n);
    let sel = selected_matches(b, ms, prot);
    let r = rewritten(b, ms, prot, reps);
    if n > 0 {
        lemma_pieces_ok(fl, n);
        assert forall|i: int| 0 <= i < n implies !(#[trigger] fl[i]) by {
            lemma_no_cover(b, prot, i);
        }
        if pcs.len() > 1 {
            assert(fl[pcs[1].0] != fl[pcs[1].0 - 1]);
            assert(!fl[pcs[1].0] && !fl[pcs[1].0 - 1]);
        }
        assert(pcs.len() == 1);
        assert(pcs[0] == (0int, n));
        lemma_select_props(b, ms, prot, 0, 0, reps.len() as int);
        lemma_local_all(sel, n);
        assert(b.subrange(0, n) =~= b);
        let c = collapse_spaces(apply_from(b, sel, reps, 0));
        reveal(gap_text);
        assert(piece_text(b, fl, pcs, 0, sel, reps) == trim_sides(c, true, true));
        assert(assembled(b, fl, pcs, 0, sel, reps) == Seq::<u8>::empty());
        assert(assembled(b, fl, pcs, 1, sel, reps) == assembled(b, fl, pcs, 0, sel, reps) + piece_text(b, fl, pcs, 0, sel, reps));
        assert(assembled(b, fl, pcs, 1, sel, reps) =~= piece_text(b, fl, pcs, 0, sel, reps));
        lemma_trim_sides(c, true, true);
        assert(r == trim_bytes(c));
        lemma_trim_no_outer_whitespace(c);
        lemma_collapse_no_double(apply_from(b, sel, reps, 0));
        lemma_trim_bounds(c);
        let a = crate::text::skip_ws_forward(c, 0);
        assert forall|i: int| 0 <= i < r.len() - 1 implies !(#[trigger] r[i] == SPACE && r[i + 1] == SPACE) by {
            assert(r[i] == c[a + i] && r[i + 1] == c[a + i + 1]);
        }
    } else {
        assert(pcs.len() == 0);
        assert(r.len() == 0);
    }
}

proof fn lemma_drop_ascii_valid(t: Seq<u8>)
    requires valid_utf8(t), t.len() > 0, t[0] < 0x80,
    ensures valid_utf8(t.drop_first()),
{
    assert(valid_utf8(pop_first_scalar(t)));
    assert(pop_first_scalar(t) =~= t.drop_first());
}

/// Applying a match to a text that agrees with valid `b` up to `sp` keeps the
/// prefix of `b` up to the match, followed by valid UTF-8.
proof fn lemma_apply_match_shape(b: Seq<u8>, a: Seq<u8>, sp: int, t: Seq<u8>, m: (int, int, int), rep: Seq<u8>) -> (t2: Seq<u8>)
    requires
        valid_utf8(b), valid_utf8(t), valid_utf8(rep),
        a == b.subrange(0, sp) + t,
        0 <= m.0 <= m.1 <= sp <= b.len(),
        is_char_boundary(b, m.0), is_char_boundary(b, m.1), is_char_boundary(b, sp),
    ensures
        apply_match(a, m, rep) == b.subrange(0, m.0) + t2,
        valid_utf8(t2),
{
    lemma_splice_shape(b, a, sp, t, m.0, m.1, rep);
    let t1 = rep + b.subrange(m.1, sp) + t;
    if rep.len() == 0 {
        let r1 = splice(a, m.0, m.1, Seq::empty());
        assert(rep =~= Seq::<u8>::empty());
        let space_before = m.0 > 0 && a[m.0 - 1] == SPACE;
        let space_after = m.1 < a.len() && a[m.1] == SPACE;
        if space_before && space_after && m.0 > 0 && m.0 < r1.len() && r1[m.0 - 1] == SPACE && r1[m.0] == SPACE {
            assert(r1 == b.subrange(0, m.0) + t1);
            assert(t1.len() > 0);
            assert(t1[0] == r1[m.0]);
            lemma_drop_ascii_valid(t1);
            assert(r1.remove(m.0) =~= b.subrange(0, m.0) + t1.drop_first());
            t1.drop_first()
        } else {
            t1
        }
    } else {
        t1
    }
}

proof fn lemma_collapse_prefix(s: Seq<u8>, l: int)
    requires 0 <= l <= s.len(), forall|j: int| 0 <= j < l ==> s[j] != SPACE,
    ensures collapse_spaces(s) == s.subrange(0, l) + collapse_spaces(s.subrange(l, s.len() as int)),
    decreases l,
{
    if l == 0 {
        assert(s.subrange(0, s.len() as int) =~= s);
        assert(s.subrange(0, 0) + s =~= s);
    } else {
        let d = s.drop_first();
        lemma_collapse_prefix(d, l - 1);
        assert(d.subrange(l - 1, d.len() as int) =~= s.subrange(l, s.len() as int));
        assert(seq![s[0]] + d.subrange(0, l - 1) =~= s.subrange(0, l));
        if s.len() < 2 {
            assert(s.subrange(l, s.len() as int) =~= Seq::<u8>::empty());
            assert(s =~= s.subrange(0, l));
        }
    }
}

proof fn lemma_first_scalar_valid(s: Seq<u8>)
    requires valid_utf8(s), s.len() > 0,
    ensures valid_utf8(s.subrange(0, length_of_first_scalar(s))),
{
    reveal_with_fuel(valid_utf8, 2);
    let h = s.subrange(0, length_of_first_scalar(s));
    assert(valid_first_scalar(s));
    assert(h[0] == s[0]);
    assert(h.len() >= 2 ==> h[1] == s[1]);
    assert(h.len() >= 3 ==> h[2] == s[2]);
    assert(h.len() >= 4 ==> h[3] == s[3]);
    assert(valid_first_scalar(h));
    assert(pop_first_scalar(h) =~= Seq::<u8>::empty());
}

proof fn lemma_collapse_valid(s: Seq<u8>)
    requires valid_utf8(s),
    ensures valid_utf8(collapse_spaces(s)),
    decreases s.len(),
{
    if s.len() >= 2 {
        assert(valid_first_scalar(s));
        assert(valid_utf8(pop_first_scalar(s)));
        let l = length_of_first_scalar(s);
        let rest = pop_first_scalar(s);
        if s[0] == SPACE && s[1] == SPACE {
            lemma_drop_ascii_valid(s);
            lemma_collapse_valid(s.drop_first());
        } else if s[0] < 0x80 {
            lemma_drop_ascii_valid(s);
            lemma_collapse_valid(s.drop_first());
            lemma_first_scalar_valid(s);
            assert(s.subrange(0, 1) =~= seq![s[0]]);
            valid_utf8_concat(seq![s[0]], collapse_spaces(s.drop_first()));
        } else {
            assert forall|j: int| 0 <= j < l implies s[j] != SPACE by {
                if j > 0 { assert(is_continuation_byte(s[j])); }
            }
            lemma_collapse_prefix(s, l);
            assert(rest =~= s.subrange(l, s.len() as int));
            lemma_collapse_valid(rest);
            lemma_first_scalar_valid(s);
            valid_utf8_concat(s.subrange(0, l), collapse_spaces(rest));
        }
    }
}

/// Removes every space that is followed by another space.
pub fn collapse_double_spaces(s: &[u8]) -> (r: Vec<u8>)
    ensures r@ == collapse_spaces(s@),
{
    let n = s.len();
    let mut r: Vec<u8> = Vec::new();
    let mut i: usize = 0;
    proof { assert(s@.subrange(0, n as int) =~= s@); assert(r@ + s@ =~= s@); }
    while i < n
        invariant
            i <= n, n == s@.len(),
            r@ + collapse_spaces(s@.subrange(i as int, n as int)) == collapse_spaces(s@),
        decreases n - i,
    {
        let ghost rest = s@.subrange(i as int, n as int);
        proof { assert(rest.drop_first() =~= s@.subrange(i + 1, n as int)); }
        if i + 1 < n && s[i] == SPACE && s[i + 1] == SPACE {
            proof { assert(rest[0] == s@[i as int] && rest[1] == s@[i + 1]); }
        } else {
            proof {
                if rest.len() < 2 {
                    assert(rest =~= seq![s@[i as int]]);
                    assert(s@.subrange(i + 1, n as int) =~= Seq::<u8>::empty());
                }
            }
            let ghost old_r = r@;
            r.push(s[i]);
            proof { assert(r@ =~= old_r + seq![s@[i as int]]); }
        }
        i = i + 1;
    }
    proof {
        assert(s@.subrange(0, n as int) =~= s@);
        assert(s@.subrange(n as int, n as int) =~= Seq::<u8>::empty());
        assert(r@ + Seq::<u8>::empty() =~= r@);
    }
    r
}

/// Chooses the matches to apply: in order, each one that may be applied and
/// starts at or after the end of the last one taken.
pub fn select_matches(text: &[u8], matches: &[(usize, usize, usize)], protected: &[ProtectedRegion]) -> (r: Vec<(usize, usize, usize)>)
    requires
        valid_utf8(text@),
        ranges_shaped(matches@.map_values(|m: (usize, usize, usize)| (m.0 as int, m.1 as int, m.2 as int))),
    ensures
        r@.map_values(|m: (usize, usize, usize)| (m.0 as int, m.1 as int, m.2 as int)) == selected_matches(text@,
            matches@.map_values(|m: (usize, usize, usize)| (m.0 as int, m.1 as int, m.2 as int)), protected@),
{
    let ghost ms = matches@.map_values(|m: (usize, usize, usize)| (m.0 as int, m.1 as int, m.2 as int));
    let mut r: Vec<(usize, usize, usize)> = Vec::new();
    let mut rightmost: usize = 0;
    let mut k: usize = 0;
    proof { assert(r@.map_values(|m: (usize, usize, usize)| (m.0 as int, m.1 as int, m.2 as int)) =~= Seq::<(int, int, int)>::empty()); }
    while k < matches.len()
        invariant
            k <= matches@.len(),
            valid_utf8(text@),
            ms == matches@.map_values(|m: (usize, usize, usize)| (m.0 as int, m.1 as int, m.2 as int)),
            ranges_shaped(ms),
            r@.map_values(|m: (usize, usize, usize)| (m.0 as int, m.1 as int, m.2 as int))
                + select_from(text@, ms, protected@, k as int, rightmost as int) == selected_matches(text@, ms, protected@),
        decreases matches.len() - k,
    {
        let (s, e, p) = matches[k];
        proof { assert(ms[k as int] == (s as int, e as int, p as int)); }
        let mut ok = e <= text.len();
        if ok {
            proof {
                lemma_boundary_byte(text@, s as int);
                lemma_boundary_byte(text@, e as int);
            }
            ok = at_char_start(text, s) && at_char_start(text, e)
                && !is_in_any_protected_region(s, e, protected)
                && is_word_boundary(text, s, e);
        }
        if ok && s >= rightmost {
            let ghost old_r = r@;
            r.push((s, e, p));
            proof {
                assert(r@.map_values(|m: (usize, usize, usize)| (m.0 as int, m.1 as int, m.2 as int))
                    =~= old_r.map_values(|m: (usize, usize, usize)| (m.0 as int, m.1 as int, m.2 as int)) + seq![ms[k as int]]);
            }
            rightmost = e;
        }
        k = k + 1;
    }
    proof {
        assert(r@.map_values(|m: (usize, usize, usize)| (m.0 as int, m.1 as int, m.2 as int)) + Seq::<(int, int, int)>::empty()
            =~= r@.map_values(|m: (usize, usize, usize)| (m.0 as int, m.1 as int, m.2 as int)));
    }
    r
}

/// The matches can be applied to `g` one after another: each lies within
/// `g` on character boundaries with a rule index below `n`, and each ends
/// before the next starts.
pub open spec fn applicable(g: Seq<u8>, sv: Seq<(int, int, int)>, n: int) -> bool {
    &&& forall|x: int| 0 <= x < sv.len() ==> 0 <= (#[trigger] sv[x]).0 <= sv[x].1 <= g.len()
        && is_char_boundary(g, sv[x].0) && is_char_boundary(g, sv[x].1) && 0 <= sv[x].2 < n
    &&& forall|x: int, y: int| 0 <= x < y < sv.len() ==> (#[trigger] sv[x]).1 <= (#[trigger] sv[y]).0
}

/// The matches of `sel` within `[s, e)` of `b`, shifted, can be applied to
/// that stretch when `s` and `e` are character boundaries.
#[verifier::spinoff_prover]
#[verifier::rlimit(30)]
proof fn lemma_local_applicable(b: Seq<u8>, s: int, e: int, sel: Seq<(int, int, int)>, n: int)
    requires
        valid_utf8(b), 0 <= s <= e <= b.len(), is_char_boundary(b, s), is_char_boundary(b, e),
        applicable(b, sel, n),
    ensures
        valid_utf8(b.subrange(s, e)),
        applicable(b.subrange(s, e), local_matches(sel, s, e), n),
        forall|x: int| 0 <= x < local_matches(sel, s, e).len() ==> exists|y: int| 0 <= y < sel.len()
            && #[trigger] local_matches(sel, s, e)[x] == (sel[y].0 - s, sel[y].1 - s, sel[y].2)
            && s <= sel[y].0 && sel[y].1 <= e,
    decreases sel.len(),
{
    valid_utf8_split(b, e);
    let pre = b.subrange(0, e);
    lemma_boundary_byte(b, s);
    lemma_boundary_byte(pre, s);
    if s < e { assert(pre[s] == b[s]); }
    valid_utf8_split(pre, s);
    let g = b.subrange(s, e);
    assert(pre.subrange(s, e) =~= g);
    if sel.len() > 0 {
        let d = sel.drop_last();
        assert forall|x: int| 0 <= x < d.len() implies 0 <= (#[trigger] d[x]).0 <= d[x].1 <= b.len()
            && is_char_boundary(b, d[x].0) && is_char_boundary(b, d[x].1) && 0 <= d[x].2 < n by {
            assert(d[x] == sel[x]);
        }
        assert forall|x: int, y: int| 0 <= x < y < d.len() implies (#[trigger] d[x]).1 <= (#[trigger] d[y]).0 by {
            assert(d[x] == sel[x] && d[y] == sel[y]);
        }
        lemma_local_applicable(b, s, e, d, n);
        let rest = local_matches(d, s, e);
        let m = sel.last();
        let l = local_matches(sel, s, e);
        assert forall|x: int| 0 <= x < rest.len() implies exists|y: int| 0 <= y < sel.len()
            && #[trigger] rest[x] == (sel[y].0 - s, sel[y].1 - s, sel[y].2) && s <= sel[y].0 && sel[y].1 <= e by {
            let y = choose|y: int| 0 <= y < d.len() && #[trigger] rest[x] == (d[y].0 - s, d[y].1 - s, d[y].2) && s <= d[y].0 && d[y].1 <= e;
            assert(d[y] == sel[y]);
        }
        if s <= m.0 && m.1 <= e {
            assert(l == rest.push((m.0 - s, m.1 - s, m.2)));
            let mm = (m.0 - s, m.1 - s, m.2);
            lemma_boundary_byte(b, m.0);
            lemma_boundary_byte(b, m.1);
            lemma_boundary_byte(g, mm.0);
            lemma_boundary_byte(g, mm.1);
            if mm.0 < g.len() { assert(g[mm.0] == b[m.0]); }
            if mm.1 < g.len() { assert(g[mm.1] == b[m.1]); }
            assert forall|x: int| 0 <= x < l.len() implies 0 <= (#[trigger] l[x]).0 <= l[x].1 <= g.len()
                && is_char_boundary(g, l[x].0) && is_char_boundary(g, l[x].1) && 0 <= l[x].2 < n by {
                if x < rest.len() { assert(l[x] == rest[x]); } else { assert(l[x] == mm); }
            }
            assert forall|x: int, y: int| 0 <= x < y < l.len() implies (#[trigger] l[x]).1 <= (#[trigger] l[y]).0 by {
                assert(l[x] == rest[x]);
                if y < rest.len() {
                    assert(l[y] == rest[y]);
                } else {
                    assert(l[y] == mm);
                    let z = choose|z: int| 0 <= z < sel.len() && #[trigger] rest[x] == (sel[z].0 - s, sel[z].1 - s, sel[z].2)
                        && s <= sel[z].0 && sel[z].1 <= e;
                    if z == sel.len() - 1 {
                        assert(sel[z] == m);
                        assert(l[x] == mm);
                    } else {
                        assert(sel[z].1 <= sel[sel.len() - 1].0);
                    }
                }
            }
            assert forall|x: int| 0 <= x < l.len() implies exists|y: int| 0 <= y < sel.len()
                && #[trigger] l[x] == (sel[y].0 - s, sel[y].1 - s, sel[y].2) && s <= sel[y].0 && sel[y].1 <= e by {
                if x < rest.len() {
                    assert(l[x] == rest[x]);
                } else {
                    assert(l[x] == (sel[sel.len() - 1].0 - s, sel[sel.len() - 1].1 - s, sel[sel.len() - 1].2));
                }
            }
        } else {
            assert(l == rest);
            assert forall|x: int| 0 <= x < l.len() implies exists|y: int| 0 <= y < sel.len()
                && #[trigger] l[x] == (sel[y].0 - s, sel[y].1 - s, sel[y].2) && s <= sel[y].0 && sel[y].1 <= e by {
                assert(l[x] == rest[x]);
            }
        }
    }
}

/// Applies matches to a text, the last one first (see `apply_match`).
fn apply_selected(g: &[u8], sel: &Vec<(usize, usize, usize)>, replacements: &[String]) -> (r: Vec<u8>)
    requires
        valid_utf8(g@),
        applicable(g@, sel@.map_values(|m: (usize, usize, usize)| (m.0 as int, m.1 as int, m.2 as int)), replacements@.len() as int),
    ensures
        r@ == apply_from(g@, sel@.map_values(|m: (usize, usize, usize)| (m.0 as int, m.1 as int, m.2 as int)),
            replacements@.map_values(|s: String| encode_utf8(s@)), 0),
        valid_utf8(r@),
{
    let ghost b = g@;
    let ghost sv = sel@.map_values(|m: (usize, usize, usize)| (m.0 as int, m.1 as int, m.2 as int));
    let ghost reps = replacements@.map_values(|s: String| encode_utf8(s@));
    proof { is_char_boundary_start_end_of_seq(b); }
    let mut r: Vec<u8> = vstd::slice::slice_to_vec(g);
    let ghost mut tail: Seq<u8> = Seq::empty();
    let mut k: usize = sel.len();
    proof { assert(r@ =~= b.subrange(0, b.len() as int) + tail); }
    while k > 0
        invariant
            k <= sel@.len(),
            g@ == b, valid_utf8(b), is_char_boundary(b, b.len() as int),
            sv == sel@.map_values(|m: (usize, usize, usize)| (m.0 as int, m.1 as int, m.2 as int)),
            reps == replacements@.map_values(|s: String| encode_utf8(s@)),
            applicable(b, sv, replacements@.len() as int),
            r@ == apply_from(b, sv, reps, k as int),
            r@ == b.subrange(0, start_seq(sv, b, k as int)) + tail,
            valid_utf8(tail),
        decreases k,
    {
        k = k - 1;
        let (s, e, p) = sel[k];
        proof { assert(sv[k as int] == (s as int, e as int, p as int)); }
        let rep = replacements[p].as_str();
        let ghost a = r@;
        let ghost sp = start_seq(sv, b, k + 1);
        proof {
            encode_utf8_valid_utf8(rep@);
            assert(reps[p as int] == encode_utf8(rep@));
            if k + 1 < sv.len() {
                assert(sv[k as int].1 <= sv[k + 1].0);
            }
            tail = lemma_apply_match_shape(b, a, sp, tail, sv[k as int], encode_utf8(rep@));
        }
        let rb = rep.as_bytes();
        if rb.len() == 0 {
            let space_before = s > 0 && r[s - 1] == SPACE;
            let space_after = e < r.len() && r[e] == SPACE;
            r = splice_bytes(r.as_slice(), s, e, rb);
            proof { assert(rb@ =~= Seq::<u8>::empty()); }
            if space_before && space_after && s > 0 && s < r.len() && r[s - 1] == SPACE && r[s] == SPACE {
                r.remove(s);
            }
        } else {
            r = splice_bytes(r.as_slice(), s, e, rb);
        }
    }
    proof {
        valid_utf8_split(b, start_seq(sv, b, 0));
        valid_utf8_concat(b.subrange(0, start_seq(sv, b, 0)), tail);
    }
    r
}

/// Whether each byte of `b` belongs to a character that touches a
/// protected region.
fn coverage_flags(b: &[u8], prot: &[ProtectedRegion]) -> (c: Vec<bool>)
    ensures c@ == coverage(b@, prot@),
{
    let n = b.len();
    let mut rev: Vec<bool> = Vec::new();
    let mut t: usize = 0;
    while t < n
        invariant
            t <= n, n == b@.len(), rev@.len() == t,
            forall|u: int| 0 <= u < t ==> #[trigger] rev@[u] == cov_back(b@, prot@, n - 1 - u),
        decreases n - t,
    {
        let i = n - 1 - t;
        let inside = is_in_protected_region(i, prot);
        let v = if inside {
            true
        } else if i + 1 < n && 0x80u8 <= b[i + 1] && b[i + 1] <= 0xbfu8 {
            rev[t - 1]
        } else {
            false
        };
        proof {
            if t > 0 { assert(n - 1 - (t - 1) == i + 1); }
            assert(v == cov_back(b@, prot@, i as int));
        }
        rev.push(v);
        t = t + 1;
    }
    let mut c: Vec<bool> = Vec::new();
    let mut i: usize = 0;
    while i < n
        invariant
            i <= n, n == b@.len(), rev@.len() == n, c@.len() == i,
            forall|u: int| 0 <= u < n ==> #[trigger] rev@[u] == cov_back(b@, prot@, n - 1 - u),
            forall|u: int| 0 <= u < i ==> #[trigger] c@[u] == covered(b@, prot@, u),
        decreases n - i,
    {
        let back = rev[n - 1 - i];
        proof { assert(n - 1 - (n - 1 - i) == i); }
        let v = if back {
            true
        } else if i > 0 && 0x80u8 <= b[i] && b[i] <= 0xbfu8 {
            c[i - 1]
        } else {
            false
        };
        proof { assert(v == covered(b@, prot@, i as int)); }
        c.push(v);
        i = i + 1;
    }
    proof { assert(c@ =~= coverage(b@, prot@)); }
    c
}

/// The runs of equal flags, as `[start, end)` pairs in order.
fn flag_pieces(fl: &Vec<bool>) -> (r: Vec<(usize, usize)>)
    ensures r@.map_values(|p: (usize, usize)| (p.0 as int, p.1 as int)) == pieces_of(fl@, fl@.len() as int),
{
    let n = fl.len();
    let mut r: Vec<(usize, usize)> = Vec::new();
    let mut j: usize = 0;
    proof { assert(r@.map_values(|p: (usize, usize)| (p.0 as int, p.1 as int)) =~= pieces_of(fl@, 0)); }
    while j < n
        invariant
            j <= n, n == fl@.len(),
            r@.map_values(|p: (usize, usize)| (p.0 as int, p.1 as int)) == pieces_of(fl@, j as int),
            forall|k: int| 0 <= k < r@.len() ==> (#[trigger] r@[k]).1 <= j,
        decreases n - j,
    {
        j = j + 1;
        let ghost old_r = r@;
        let ghost p = pieces_of(fl@, j - 1);
        if j >= 2 && fl[j - 1] == fl[j - 2] && r.len() > 0 {
            let last = r.len() - 1;
            let st = r[last].0;
            r.set(last, (st, j));
            proof {
                assert(p.len() == old_r.len());
                assert(p.last() == (old_r[last as int].0 as int, old_r[last as int].1 as int));
                assert(r@.map_values(|p: (usize, usize)| (p.0 as int, p.1 as int))
                    =~= p.update(p.len() - 1, (p.last().0, j as int)));
            }
        } else {
            r.push((j - 1, j));
            proof {
                assert(p.len() == old_r.len());
                assert(r@.map_values(|p: (usize, usize)| (p.0 as int, p.1 as int)) =~= p.push((j - 1, j as int)));
            }
        }
    }
    r
}

/// The matches of `sel` within `[s, e)`, shifted to start at `s`.
fn local_vec(sel: &Vec<(usize, usize, usize)>, s: usize, e: usize) -> (r: Vec<(usize, usize, usize)>)
    requires forall|x: int| 0 <= x < sel@.len() ==> (#[trigger] sel@[x]).0 <= sel@[x].1,
    ensures
        r@.map_values(|m: (usize, usize, usize)| (m.0 as int, m.1 as int, m.2 as int))
            == local_matches(sel@.map_values(|m: (usize, usize, usize)| (m.0 as int, m.1 as int, m.2 as int)), s as int, e as int),
{
    let ghost sv = sel@.map_values(|m: (usize, usize, usize)| (m.0 as int, m.1 as int, m.2 as int));
    let mut r: Vec<(usize, usize, usize)> = Vec::new();
    let mut k: usize = 0;
    proof {
        assert(sv.subrange(0, 0) =~= Seq::<(int, int, int)>::empty());
        assert(r@.map_values(|m: (usize, usize, usize)| (m.0 as int, m.1 as int, m.2 as int)) =~= Seq::<(int, int, int)>::empty());
    }
    while k < sel.len()
        invariant
            k <= sel@.len(),
            forall|x: int| 0 <= x < sel@.len() ==> (#[trigger] sel@[x]).0 <= sel@[x].1,
            sv == sel@.map_values(|m: (usize, usize, usize)| (m.0 as int, m.1 as int, m.2 as int)),
            r@.map_values(|m: (usize, usize, usize)| (m.0 as int, m.1 as int, m.2 as int))
                == local_matches(sv.subrange(0, k as int), s as int, e as int),
        decreases sel.len() - k,
    {
        let (m0, m1, m2) = sel[k];
        let ghost old_r = r@;
        proof {
            assert(sv.subrange(0, k + 1).drop_last() =~= sv.subrange(0, k as int));
            assert(sv.subrange(0, k + 1).last() == (m0 as int, m1 as int, m2 as int));
        }
        if s <= m0 && m1 <= e {
            r.push((m0 - s, m1 - s, m2));
            proof {
                assert(r@.map_values(|m: (usize, usize, usize)| (m.0 as int, m.1 as int, m.2 as int))
                    =~= old_r.map_values(|m: (usize, usize, usize)| (m.0 as int, m.1 as int, m.2 as int))
                        .push((m0 - s, m1 - s, m2 as int)));
            }
        }
        k = k + 1;
    }
    proof { assert(sv.subrange(0, sel@.len() as int) =~= sv); }
    r
}

/// A stretch between two character boundaries of valid UTF-8 is valid.
proof fn lemma_valid_stretch(b: Seq<u8>, ps: int, pe: int)
    requires valid_utf8(b), 0 <= ps <= pe <= b.len(), is_char_boundary(b, ps), is_char_boundary(b, pe),
    ensures valid_utf8(b.subrange(ps, pe)),
{
    valid_utf8_split(b, pe);
    let pre = b.subrange(0, pe);
    lemma_boundary_byte(b, ps);
    lemma_boundary_byte(pre, ps);
    if ps < pe { assert(pre[ps] == b[ps]); }
    valid_utf8_split(pre, ps);
    assert(pre.subrange(ps, pe) =~= b.subrange(ps, pe));
}

/// The flag changes just before position `s`.
pub open spec fn flips(fl: Seq<bool>, s: int) -> bool {
    fl[s] != fl[s - 1]
}

/// Wherever the protection flag changes, a character starts.
proof fn lemma_coverage_changes(b: Seq<u8>, prot: Seq<ProtectedRegion>)
    ensures forall|s: int| 0 < s < b.len() && #[trigger] flips(coverage(b, prot), s)
        ==> !is_continuation_byte(b[s]),
{
    assert forall|s: int| 0 < s < b.len() && #[trigger] flips(coverage(b, prot), s)
        implies !is_continuation_byte(b[s]) by {
        lemma_cover_change_boundary(b, prot, s);
    }
}

/// The bounds of each piece are character boundaries of the text.
proof fn lemma_piece_bounds(b: Seq<u8>, fl: Seq<bool>, pv: Seq<(int, int)>, q: int)
    requires
        valid_utf8(b), fl.len() == b.len(), pieces_ok(fl, pv, b.len() as int), 0 <= q < pv.len(),
        forall|s: int| 0 < s < b.len() && #[trigger] flips(fl, s) ==> !is_continuation_byte(b[s]),
    ensures
        0 <= pv[q].0 <= pv[q].1 <= b.len(),
        is_char_boundary(b, pv[q].0), is_char_boundary(b, pv[q].1),
        valid_utf8(b.subrange(pv[q].0, pv[q].1)),
{
    let ps = pv[q].0;
    let pe = pv[q].1;
    let n = b.len() as int;
    assert(0 <= ps < pe <= n);
    lemma_boundary_byte(b, ps);
    lemma_boundary_byte(b, pe);
    if q > 0 {
        assert(fl[pv[q].0] != fl[pv[q].0 - 1]);
        assert(flips(fl, ps));
    }
    if q + 1 < pv.len() {
        assert(pv[q].1 == pv[q + 1].0);
        assert(fl[pv[q + 1].0] != fl[pv[q + 1].0 - 1]);
        assert(flips(fl, pe));
    } else {
        assert(pv.last().1 == n);
    }
    lemma_valid_stretch(b, ps, pe);
}

/// The output of one piece `[ps, pe)` of the text (see `piece_text`).
fn piece_bytes(bytes: &[u8], fl: &Vec<bool>, ps: usize, pe: usize, sel: &Vec<(usize, usize, usize)>,
    replacements: &[String], lead: bool, tail: bool) -> (r: Vec<u8>)
    requires
        valid_utf8(bytes@), fl@.len() == bytes@.len(), 0 <= ps < pe <= bytes@.len(),
        is_char_boundary(bytes@, ps as int), is_char_boundary(bytes@, pe as int),
        valid_utf8(bytes@.subrange(ps as int, pe as int)),
        applicable(bytes@, sel@.map_values(|m: (usize, usize, usize)| (m.0 as int, m.1 as int, m.2 as int)), replacements@.len() as int),
    ensures
        r@ == (if fl@[ps as int] { bytes@.subrange(ps as int, pe as int) } else {
            gap_text(bytes@, ps as int, pe as int, sel@.map_values(|m: (usize, usize, usize)| (m.0 as int, m.1 as int, m.2 as int)),
                replacements@.map_values(|s: String| encode_utf8(s@)), lead, tail)
        }),
        valid_utf8(r@),
{
    let ghost b = bytes@;
    let ghost sv = sel@.map_values(|m: (usize, usize, usize)| (m.0 as int, m.1 as int, m.2 as int));
    if fl[ps] {
        vstd::slice::slice_to_vec(vstd::slice::slice_subrange(bytes, ps, pe))
    } else {
        let g = vstd::slice::slice_subrange(bytes, ps, pe);
        proof {
            assert forall|x: int| 0 <= x < sel@.len() implies (#[trigger] sel@[x]).0 <= sel@[x].1 by {
                assert(sv[x] == (sel@[x].0 as int, sel@[x].1 as int, sel@[x].2 as int));
            }
        }
        let local = local_vec(sel, ps, pe);
        proof { lemma_local_applicable(b, ps as int, pe as int, sv, replacements@.len() as int); }
        let applied = apply_selected(g, &local, replacements);
        proof { lemma_collapse_valid(applied@); }
        let col = collapse_double_spaces(applied.as_slice());
        let before = ps > 0 && bytes[ps - 1] == SPACE;
        let after = pe < bytes.len() && bytes[pe] == SPACE;
        proof { lemma_join_spaces_valid(col@, before, after); }
        let joined = join_spaces_vec(col, before, after);
        proof { lemma_trim_sides(joined@, lead, tail); }
        let t = trim_sides_vec(joined.as_slice(), lead, tail);
        proof { reveal(gap_text); }
        t
    }
}

/// Applies the matches found in a text and tidies the result. The text is
/// cut into runs of protected characters (those touching a protected
/// region) and unprotected ones; protected runs are copied as they are; in
/// each unprotected run the selected matches are replaced (see
/// `apply_match`) and runs of spaces collapse to one space; whitespace at
/// the two ends of the text is trimmed where it is unprotected. Also gives
/// the rule index of each selected match, in text order.
pub fn apply_matches(text: &str, matches: &[(usize, usize, usize)], protected: &[ProtectedRegion], replacements: &[String]) -> (r: (String, Vec<usize>))
    requires
        matches_shaped(matches@.map_values(|m: (usize, usize, usize)| (m.0 as int, m.1 as int, m.2 as int)), replacements@.len() as int),
    ensures ({
        let b = text.spec_bytes();
        let ms = matches@.map_values(|m: (usize, usize, usize)| (m.0 as int, m.1 as int, m.2 as int));
        let reps = replacements@.map_values(|s: String| encode_utf8(s@));
        let sel = selected_matches(b, ms, protected@);
        &&& encode_utf8(r.0@) == rewritten(b, ms, protected@, reps)
        &&& r.1@.len() == sel.len()
        &&& forall|x: int| 0 <= x < sel.len() ==> #[trigger] r.1@[x] == sel[x].2
        &&& forall|x: int| 0 <= x < sel.len() ==> #[trigger] r.1@[x] < replacements@.len()
    }),
{
    let ghost b = text.spec_bytes();
    let ghost ms = matches@.map_values(|m: (usize, usize, usize)| (m.0 as int, m.1 as int, m.2 as int));
    let ghost reps = replacements@.map_values(|s: String| encode_utf8(s@));
    proof {
        encode_utf8_valid_utf8(text@);
        assert(ranges_shaped(ms));
    }
    let bytes = text.as_bytes();
    let n = bytes.len();
    let sel = select_matches(bytes, matches, protected);
    let ghost sv = sel@.map_values(|m: (usize, usize, usize)| (m.0 as int, m.1 as int, m.2 as int));
    proof {
        lemma_select_props(b, ms, protected@, 0, 0, replacements@.len() as int);
        is_char_boundary_start_end_of_seq(b);
        assert(applicable(b, sv, replacements@.len() as int));
    }
    let fl = coverage_flags(bytes, protected);
    let pcs = flag_pieces(&fl);
    let ghost pv = pcs@.map_values(|p: (usize, usize)| (p.0 as int, p.1 as int));
    proof { lemma_pieces_ok(fl@, n as int); lemma_coverage_changes(b, protected@); }
    let mut out: Vec<u8> = Vec::new();
    let mut q: usize = 0;
    proof { assert(out@ =~= assembled(b, fl@, pv, 0, sv, reps)); }
    while q < pcs.len()
        invariant
            q <= pcs@.len(), n == b.len(), bytes@ == b, valid_utf8(b),
            fl@ == coverage(b, protected@), fl@.len() == n,
            pv == pcs@.map_values(|p: (usize, usize)| (p.0 as int, p.1 as int)),
            pv == pieces_of(fl@, n as int), pieces_ok(fl@, pv, n as int),
            forall|s: int| 0 < s < n && #[trigger] flips(fl@, s) ==> !is_continuation_byte(b[s]),
            sv == sel@.map_values(|m: (usize, usize, usize)| (m.0 as int, m.1 as int, m.2 as int)),
            sv == selected_matches(b, ms, protected@),
            applicable(b, sv, replacements@.len() as int),
            reps == replacements@.map_values(|s: String| encode_utf8(s@)),
            out@ == assembled(b, fl@, pv, q as int, sv, reps),
            valid_utf8(out@),
        decreases pcs.len() - q,
    {
        let (ps, pe) = pcs[q];
        proof {
            assert(pv[q as int] == (ps as int, pe as int));
            lemma_piece_bounds(b, fl@, pv, q as int);
        }
        let mut piece = piece_bytes(bytes, &fl, ps, pe, &sel, replacements, q == 0, q + 1 == pcs.len());
        proof {
            assert(piece@ == piece_text(b, fl@, pv, q as int, sv, reps));
            valid_utf8_concat(out@, piece@);
        }
        let ghost old_out = out@;
        out.append(&mut piece);
        proof { assert(out@ == old_out + piece_text(b, fl@, pv, q as int, sv, reps)); }
        q = q + 1;
    }
    let ghost ob = out@;
    proof { decode_utf8_encode_utf8(ob); }
    let text_out = match string_from_utf8(out) {
        Some(s) => s,
        None => {
            assert(false);
            String::new()
        },
    };
    let mut idx: Vec<usize> = Vec::new();
    let mut x: usize = 0;
    while x < sel.len()
        invariant
            x <= sel@.len(), idx@.len() == x,
            sv == sel@.map_values(|m: (usize, usize, usize)| (m.0 as int, m.1 as int, m.2 as int)),
            forall|y: int| 0 <= y < sv.len() ==> 0 <= (#[trigger] sv[y]).2 < replacements@.len(),
            forall|y: int| 0 <= y < x ==> #[trigger] idx@[y] == sv[y].2,
        decreases sel.len() - x,
    {
        idx.push(sel[x].2);
        proof { assert(sv[x as int].2 == sel@[x as int].2); }
        x = x + 1;
    }
    proof {
        assert(pv.len() == pcs@.len());
        assert(ob == rewritten(b, ms, protected@, reps));
        assert(text_out@ == decode_utf8(ob));
    }
    (text_out, idx)
}

/// Where the prefix that still agrees with the original text ends before
/// match `k` is applied: the start of match `k`, or the text's end.
pub open spec fn start_seq(sv: Seq<(int, int, int)>, b: Seq<u8>, k: int) -> int {
    if 0 <= k < sv.len() { sv[k].0 } else { b.len() as int }
}

} // verus!
