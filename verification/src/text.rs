//! Text primitives: byte-level views of strings, UTF-8 conversions and the
//! Unicode operations of the standard library that the engine relies on.
use vstd::prelude::*;
use vstd::utf8::*;
use vstd::string::StringExecFns;

verus! {

broadcast use vstd::string::group_string_axioms;

/// The Unicode lowercase mapping of a text, as `str::to_lowercase` computes it.
pub uninterp spec fn lowercase_chars(s: Seq<char>) -> Seq<char>;

/// Whether a character is alphabetic or numeric in Unicode, as
/// `char::is_alphanumeric` decides it.
pub uninterp spec fn is_alphanumeric_char(c: char) -> bool;

/// The text holds ASCII characters only.
pub open spec fn is_ascii_text(s: Seq<char>) -> bool {
    forall|i: int| 0 <= i < s.len() ==> (#[trigger] s[i] as u32) < 128
}

/// A character with `A` to `Z` mapped to `a` to `z`.
pub open spec fn ascii_lower_char(c: char) -> char {
    if 'A' <= c && c <= 'Z' { ((c as u32) + 32) as char } else { c }
}

/// A text with `A` to `Z` mapped to `a` to `z`.
pub open spec fn ascii_lower(s: Seq<char>) -> Seq<char> {
    s.map_values(|c: char| ascii_lower_char(c))
}

/// Calls `str::to_lowercase`; the result is the text's Unicode lowercase
/// mapping, a function of the text alone. Each character maps to one or more
/// characters, so the result is empty exactly when the text is. On ASCII
/// text the mapping is the ASCII one: `A` to `Z` become `a` to `z`, every
/// other character stays.
#[verifier::external_body]
pub(crate) fn lowercase(s: &str) -> (r: String)
    ensures
        r@ == lowercase_chars(s@),
        r@.len() >= s@.len(),
        is_ascii_text(s@) ==> r@ == ascii_lower(s@),
{
    s.to_lowercase()
}

/// Calls `char::is_alphanumeric`.
#[verifier::external_body]
pub(crate) fn char_is_alphanumeric(c: char) -> (r: bool)
    ensures r == is_alphanumeric_char(c),
{
    c.is_alphanumeric()
}

/// Calls `std::str::from_utf8`: it succeeds exactly on valid UTF-8, and the
/// string it gives back holds the characters those bytes encode.
#[verifier::external_body]
pub(crate) fn str_from_utf8(b: &[u8]) -> (r: Option<&str>)
    ensures
        r is Some <==> valid_utf8(b@),
        r matches Some(s) ==> s@ == decode_utf8(b@),
{
    std::str::from_utf8(b).ok()
}

/// Calls `String::from_utf8`: it succeeds exactly on valid UTF-8, and the
/// string it gives back holds the characters those bytes encode.
#[verifier::external_body]
pub(crate) fn string_from_utf8(b: Vec<u8>) -> (r: Option<String>)
    ensures
        r is Some <==> valid_utf8(b@),
        r matches Some(s) ==> s@ == decode_utf8(b@),
{
    String::from_utf8(b).ok()
}

/// Two strings, one after the other.
pub(crate) fn concat_str(a: &str, b: &str) -> (r: String)
    ensures r@ == a@ + b@,
{
    let mut r = a.to_string();
    r.append(b);
    r
}

/// Whether two byte sequences are equal.
pub fn bytes_eq(a: &[u8], b: &[u8]) -> (r: bool)
    ensures r == (a@ == b@),
{
    if a.len() != b.len() {
        return false;
    }
    let mut i: usize = 0;
    while i < a.len()
        invariant
            a@.len() == b@.len(),
            i <= a@.len(),
            forall|k: int| 0 <= k < i ==> a@[k] == b@[k],
        decreases a.len() - i,
    {
        if a[i] != b[i] {
            return false;
        }
        i = i + 1;
    }
    assert(a@ =~= b@);
    true
}

/// Whether two strings hold the same characters.
pub fn str_eq(a: &str, b: &str) -> (r: bool)
    ensures r == (a@ == b@),
{
    let r = bytes_eq(a.as_bytes(), b.as_bytes());
    proof {
        encode_utf8_decode_utf8(a@);
        encode_utf8_decode_utf8(b@);
    }
    r
}

/// A copy of a string.
pub fn copy_string(s: &String) -> (r: String)
    ensures r@ == s@,
{
    s.clone()
}

/// A copy of a list of strings.
pub fn copy_strings(v: &Vec<String>) -> (r: Vec<String>)
    ensures r@.len() == v@.len(), forall|k: int| 0 <= k < v@.len() ==> #[trigger] r@[k]@ == v@[k]@,
{
    let mut r: Vec<String> = Vec::new();
    let mut i: usize = 0;
    while i < v.len()
        invariant
            i <= v@.len(), r@.len() == i,
            forall|k: int| 0 <= k < i ==> #[trigger] r@[k]@ == v@[k]@,
        decreases v.len() - i,
    {
        r.push(v[i].clone());
        i = i + 1;
    }
    r
}

/// A copy of an optional string.
pub fn copy_opt_string(s: &Option<String>) -> (r: Option<String>)
    ensures
        r is Some <==> s is Some,
        r matches Some(x) ==> x@ == s->0@,
{
    match s {
        Some(x) => Some(x.clone()),
        None => None,
    }
}

/// `b[0..s] ++ rep ++ b[e..]`.
pub open spec fn splice(b: Seq<u8>, s: int, e: int, rep: Seq<u8>) -> Seq<u8> {
    b.subrange(0, s) + rep + b.subrange(e, b.len() as int)
}

/// In valid UTF-8, a position is a character boundary exactly when it is an
/// end of the text or holds no continuation byte.
pub proof fn lemma_boundary_byte(b: Seq<u8>, i: int)
    requires valid_utf8(b), 0 <= i <= b.len(),
    ensures is_char_boundary(b, i) <==> (i == b.len() || !is_continuation_byte(b[i])),
{
    is_char_boundary_start_end_of_seq(b);
    if i < b.len() {
        is_char_boundary_iff_not_is_continuation_byte(b, i);
    }
}

/// Whether position `i` of `b` is the end of the text or holds no UTF-8
/// continuation byte.
pub fn at_char_start(b: &[u8], i: usize) -> (r: bool)
    requires i <= b@.len(),
    ensures r == (i == b@.len() || !is_continuation_byte(b@[i as int])),
{
    i == b.len() || !(0x80u8 <= b[i] && b[i] <= 0xbfu8)
}

/// `b[0..s] ++ rep ++ b[e..]` as a new vector.
pub fn splice_bytes(b: &[u8], s: usize, e: usize, rep: &[u8]) -> (r: Vec<u8>)
    requires s <= e <= b@.len(),
    ensures r@ == splice(b@, s as int, e as int, rep@),
{
    let mut r: Vec<u8> = Vec::new();
    let mut i: usize = 0;
    while i < s
        invariant i <= s, s <= e <= b@.len(), r@ == b@.subrange(0, i as int),
        decreases s - i,
    {
        r.push(b[i]);
        i = i + 1;
        proof { assert(r@ =~= b@.subrange(0, i as int)); }
    }
    let mut j: usize = 0;
    while j < rep.len()
        invariant j <= rep@.len(), r@ == b@.subrange(0, s as int) + rep@.subrange(0, j as int),
        decreases rep.len() - j,
    {
        r.push(rep[j]);
        j = j + 1;
        proof { assert(r@ =~= b@.subrange(0, s as int) + rep@.subrange(0, j as int)); }
    }
    let mut k: usize = e;
    while k < b.len()
        invariant
            e <= k <= b@.len(),
            r@ == b@.subrange(0, s as int) + rep@ + b@.subrange(e as int, k as int),
        decreases b.len() - k,
    {
        proof { assert(rep@.subrange(0, rep@.len() as int) =~= rep@); }
        r.push(b[k]);
        k = k + 1;
        proof { assert(r@ =~= b@.subrange(0, s as int) + rep@ + b@.subrange(e as int, k as int)); }
    }
    proof {
        assert(rep@.subrange(0, rep@.len() as int) =~= rep@);
        assert(r@ =~= splice(b@, s as int, e as int, rep@));
    }
    r
}

/// Consecutive equal entries collapsed to one.
pub open spec fn dedup_adjacent(s: Seq<Seq<char>>) -> Seq<Seq<char>>
    decreases s.len(),
{
    if s.len() <= 1 {
        s
    } else {
        let rest = dedup_adjacent(s.drop_last());
        if s.last() == s[s.len() - 2] {
            rest
        } else {
            rest.push(s.last())
        }
    }
}

proof fn lemma_dedup_last(s: Seq<Seq<char>>)
    requires s.len() > 0,
    ensures dedup_adjacent(s).len() > 0, dedup_adjacent(s).last() == s.last(),
    decreases s.len(),
{
    if s.len() > 1 {
        lemma_dedup_last(s.drop_last());
    }
}


/// Collapsing repeats leaves no two equal entries side by side and keeps the
/// first and last entries.
pub proof fn lemma_dedup_adjacent_distinct(s: Seq<Seq<char>>)
    ensures
        forall|i: int| 0 <= i < dedup_adjacent(s).len() - 1 ==> #[trigger] dedup_adjacent(s)[i] != dedup_adjacent(s)[i + 1],
        dedup_adjacent(s).len() <= s.len(),
        s.len() > 0 ==> dedup_adjacent(s).len() > 0 && dedup_adjacent(s).last() == s.last() && dedup_adjacent(s)[0] == s[0],
    decreases s.len(),
{
    if s.len() > 1 {
        lemma_dedup_adjacent_distinct(s.drop_last());
        let rest = dedup_adjacent(s.drop_last());
        lemma_dedup_last(s.drop_last());
        let d = dedup_adjacent(s);
        if s.last() != s[s.len() - 2] {
            assert(d == rest.push(s.last()));
            assert forall|i: int| 0 <= i < d.len() - 1 implies #[trigger] d[i] != d[i + 1] by {
                if i < rest.len() - 1 {
                    assert(d[i] == rest[i] && d[i + 1] == rest[i + 1]);
                } else {
                    assert(d[i] == rest.last());
                    assert(rest.last() == s.drop_last().last());
                }
            }
            assert(d[0] == rest[0]);
        }
    }
}

/// The strings with consecutive equal entries collapsed to one.
pub fn dedup_strings(v: Vec<String>) -> (r: Vec<String>)
    ensures r@.map_values(|x: String| x@) == dedup_adjacent(v@.map_values(|x: String| x@)),
{
    let ghost vs = v@.map_values(|x: String| x@);
    let mut r: Vec<String> = Vec::new();
    let mut i: usize = 0;
    while i < v.len()
        invariant
            i <= v@.len(),
            vs == v@.map_values(|x: String| x@),
            r@.map_values(|x: String| x@) == dedup_adjacent(vs.subrange(0, i as int)),
        decreases v.len() - i,
    {
        let ghost pre = vs.subrange(0, i as int);
        let ghost next = vs.subrange(0, i + 1);
        proof {
            assert(next.drop_last() =~= pre);
            if i > 0 {
                lemma_dedup_last(pre);
            }
        }
        let keep = if r.len() == 0 { true } else { !str_eq(r[r.len() - 1].as_str(), v[i].as_str()) };
        proof {
            if r@.len() > 0 {
                assert(r@.map_values(|x: String| x@).last() == r@[r@.len() - 1]@);
                assert(pre.len() > 0);
                assert(next[next.len() - 2] == pre.last());
            } else {
                assert(pre.len() == 0) by {
                    if pre.len() > 0 {
                        lemma_dedup_last(pre);
                    }
                }
            }
        }
        if keep {
            r.push(copy_string(&v[i]));
            proof { assert(r@.map_values(|x: String| x@) =~= dedup_adjacent(pre).push(vs[i as int])); }
        }
        i = i + 1;
    }
    proof { assert(vs.subrange(0, v@.len() as int) =~= vs); }
    r
}

/// The decimal digits of a number.
pub open spec fn decimal(n: nat) -> Seq<char>
    decreases n,
{
    if n < 10 {
        seq![((48 + n) as u8) as char]
    } else {
        decimal(n / 10).push(((48 + n % 10) as u8) as char)
    }
}

/// The digit `d` as a one-character string.
fn digit_str(d: usize) -> (r: &'static str)
    requires d < 10,
    ensures r@ == seq![((48 + d) as u8) as char],
{
    match d {
        0 => { proof { reveal_strlit("0"); } "0" },
        1 => { proof { reveal_strlit("1"); } "1" },
        2 => { proof { reveal_strlit("2"); } "2" },
        3 => { proof { reveal_strlit("3"); } "3" },
        4 => { proof { reveal_strlit("4"); } "4" },
        5 => { proof { reveal_strlit("5"); } "5" },
        6 => { proof { reveal_strlit("6"); } "6" },
        7 => { proof { reveal_strlit("7"); } "7" },
        8 => { proof { reveal_strlit("8"); } "8" },
        _ => { proof { reveal_strlit("9"); } "9" },
    }
}

/// A number written in decimal.
pub(crate) fn usize_to_decimal(n: usize) -> (r: String)
    ensures r@ == decimal(n as nat),
    decreases n,
{
    if n < 10 {
        digit_str(n).to_string()
    } else {
        let mut r = usize_to_decimal(n / 10);
        r.append(digit_str(n % 10));
        r
    }
}

/// The byte length of a scalar with the Unicode `White_Space` property that
/// starts at `i`, or 0 when none does. These are the characters for which
/// `char::is_whitespace` holds: tab to carriage return, space, U+0085, U+00A0,
/// U+1680, U+2000 to U+200A, U+2028, U+2029, U+202F, U+205F and U+3000.
pub open spec fn ws_len_at(b: Seq<u8>, i: int) -> int {
    if i < 0 || i >= b.len() {
        0
    } else if (0x09 <= b[i] <= 0x0d) || b[i] == 0x20 {
        1
    } else if i + 1 < b.len() && b[i] == 0xc2 && (b[i + 1] == 0x85 || b[i + 1] == 0xa0) {
        2
    } else if i + 2 < b.len() && ((b[i] == 0xe1 && b[i + 1] == 0x9a && b[i + 2] == 0x80)
        || (b[i] == 0xe2 && b[i + 1] == 0x80 && ((0x80 <= b[i + 2] <= 0x8a) || b[i + 2] == 0xa8
            || b[i + 2] == 0xa9 || b[i + 2] == 0xaf))
        || (b[i] == 0xe2 && b[i + 1] == 0x81 && b[i + 2] == 0x9f)
        || (b[i] == 0xe3 && b[i + 1] == 0x80 && b[i + 2] == 0x80)) {
        3
    } else {
        0
    }
}

/// The byte length of a whitespace scalar that ends just before `j`, or 0.
pub open spec fn ws_len_before(b: Seq<u8>, j: int) -> int {
    if j >= 1 && j <= b.len() && ws_len_at(b, j - 1) == 1 {
        1
    } else if j >= 2 && j <= b.len() && ws_len_at(b, j - 2) == 2 {
        2
    } else if j >= 3 && j <= b.len() && ws_len_at(b, j - 3) == 3 {
        3
    } else {
        0
    }
}

/// The first position at or after `i` that does not start whitespace.
pub open spec fn skip_ws_forward(b: Seq<u8>, i: int) -> int
    decreases b.len() - i,
{
    if 0 <= i < b.len() && ws_len_at(b, i) > 0 {
        skip_ws_forward(b, i + ws_len_at(b, i))
    } else {
        i
    }
}

/// The last position at or before `j`, and after `lo`, that does not end
/// whitespace.
pub open spec fn skip_ws_backward(b: Seq<u8>, lo: int, j: int) -> int
    decreases j - lo,
{
    if lo < j && ws_len_before(b, j) > 0 && j - ws_len_before(b, j) >= lo {
        skip_ws_backward(b, lo, j - ws_len_before(b, j))
    } else {
        j
    }
}

/// A text without its leading and trailing whitespace, as bytes.
pub open spec fn trim_bytes(b: Seq<u8>) -> Seq<u8> {
    let a = skip_ws_forward(b, 0);
    b.subrange(a, skip_ws_backward(b, a, b.len() as int))
}

/// Trimming keeps a contiguous part of the text.
pub proof fn lemma_trim_bounds(b: Seq<u8>)
    ensures ({
        let a = skip_ws_forward(b, 0);
        let e = skip_ws_backward(b, a, b.len() as int);
        0 <= a <= e <= b.len() && trim_bytes(b) == b.subrange(a, e)
    }),
{
    lemma_skip_forward_bounds(b, 0);
    lemma_skip_backward_bounds(b, skip_ws_forward(b, 0), b.len() as int);
}

proof fn lemma_skip_forward_bounds(b: Seq<u8>, i: int)
    requires 0 <= i <= b.len(),
    ensures i <= skip_ws_forward(b, i) <= b.len(),
    decreases b.len() - i,
{
    if 0 <= i < b.len() && ws_len_at(b, i) > 0 {
        lemma_skip_forward_bounds(b, i + ws_len_at(b, i));
    }
}

proof fn lemma_skip_backward_bounds(b: Seq<u8>, lo: int, j: int)
    requires 0 <= lo <= j <= b.len(),
    ensures lo <= skip_ws_backward(b, lo, j) <= j,
    decreases j - lo,
{
    if lo < j && ws_len_before(b, j) > 0 && j - ws_len_before(b, j) >= lo {
        lemma_skip_backward_bounds(b, lo, j - ws_len_before(b, j));
    }
}


proof fn lemma_skip_forward_stop(b: Seq<u8>, i: int)
    requires 0 <= i <= b.len(),
    ensures skip_ws_forward(b, i) >= b.len() || ws_len_at(b, skip_ws_forward(b, i)) == 0,
    decreases b.len() - i,
{
    if 0 <= i < b.len() && ws_len_at(b, i) > 0 {
        lemma_skip_forward_stop(b, i + ws_len_at(b, i));
    }
}

proof fn lemma_skip_backward_stop(b: Seq<u8>, lo: int, j: int)
    requires 0 <= lo <= j <= b.len(),
    ensures ({
        let e = skip_ws_backward(b, lo, j);
        e <= lo || ws_len_before(b, e) == 0 || e - ws_len_before(b, e) < lo
    }),
    decreases j - lo,
{
    if lo < j && ws_len_before(b, j) > 0 && j - ws_len_before(b, j) >= lo {
        lemma_skip_backward_stop(b, lo, j - ws_len_before(b, j));
    }
}

/// Whitespace found in a part of a text is whitespace of the same length in
/// the whole text.
proof fn lemma_ws_len_in_part(b: Seq<u8>, a: int, e: int, i: int)
    requires 0 <= a <= e <= b.len(), 0 <= i, ws_len_at(b.subrange(a, e), i) > 0,
    ensures ws_len_at(b, a + i) == ws_len_at(b.subrange(a, e), i),
{
    let t = b.subrange(a, e);
    assert(i < t.len());
    assert(t[i] == b[a + i]);
    if i + 1 < t.len() { assert(t[i + 1] == b[a + i + 1]); }
    if i + 2 < t.len() { assert(t[i + 2] == b[a + i + 2]); }
}

/// A trimmed text neither starts nor ends with whitespace.
pub proof fn lemma_trim_no_outer_whitespace(b: Seq<u8>)
    ensures
        trim_bytes(b).len() > 0 ==> ws_len_at(trim_bytes(b), 0) == 0
            && ws_len_before(trim_bytes(b), trim_bytes(b).len() as int) == 0,
{
    lemma_skip_forward_bounds(b, 0);
    let a = skip_ws_forward(b, 0);
    lemma_skip_backward_bounds(b, a, b.len() as int);
    let e = skip_ws_backward(b, a, b.len() as int);
    let t = trim_bytes(b);
    assert(t == b.subrange(a, e));
    if t.len() > 0 {
        lemma_skip_forward_stop(b, 0);
        lemma_skip_backward_stop(b, a, b.len() as int);
        if ws_len_at(t, 0) > 0 {
            lemma_ws_len_in_part(b, a, e, 0);
        }
        let n = t.len() as int;
        let l2 = ws_len_before(t, n);
        if l2 > 0 {
            lemma_ws_len_in_part(b, a, e, n - l2);
            assert(ws_len_at(b, e - l2) == l2);
            if ws_len_at(t, n - 1) != 1 {
                if n >= 1 {
                    assert(t[n - 1] == b[e - 1]);
                }
            }
            if l2 == 3 && n >= 2 && ws_len_at(t, n - 2) != 2 && ws_len_at(b, e - 2) == 2 {
                assert(t[n - 2] == b[e - 2]);
                assert(t[n - 1] == b[e - 1]);
            }
            assert(ws_len_before(b, e) > 0 && ws_len_before(b, e) <= l2);
        }
    }
}

/// After a complete scalar that starts on a boundary of valid UTF-8 comes
/// another boundary.
pub proof fn lemma_scalar_end_boundary(b: Seq<u8>, p: int, n: int)
    requires
        valid_utf8(b), 0 <= p, p + n <= b.len(), is_char_boundary(b, p),
        (n == 1 && is_leading_byte_width_1(b[p])) || (n == 2 && is_leading_byte_width_2(b[p]))
            || (n == 3 && is_leading_byte_width_3(b[p])),
    ensures is_char_boundary(b, p + n),
{
    valid_utf8_split(b, p);
    let s = b.subrange(p, b.len() as int);
    assert(s.len() > 0);
    assert(s[0] == b[p]);
    assert(valid_utf8(s));
    assert(valid_utf8(pop_first_scalar(s)));
    assert(length_of_first_scalar(s) == n);
    let rest = pop_first_scalar(s);
    assert(rest =~= b.subrange(p + n, b.len() as int));
    lemma_boundary_byte(b, p + n);
    if p + n < b.len() {
        assert(rest.len() > 0);
        assert(rest[0] == b[p + n]);
        assert(valid_utf8(rest));
        assert(valid_first_scalar(rest));
        assert(!is_continuation_byte(b[p + n]));
    }
}

proof fn lemma_skip_forward_boundary(b: Seq<u8>, i: int)
    requires valid_utf8(b), 0 <= i <= b.len(), is_char_boundary(b, i),
    ensures is_char_boundary(b, skip_ws_forward(b, i)),
    decreases b.len() - i,
{
    if 0 <= i < b.len() && ws_len_at(b, i) > 0 {
        lemma_scalar_end_boundary(b, i, ws_len_at(b, i));
        lemma_skip_forward_boundary(b, i + ws_len_at(b, i));
    }
}

proof fn lemma_skip_backward_boundary(b: Seq<u8>, lo: int, j: int)
    requires valid_utf8(b), 0 <= lo <= j <= b.len(), is_char_boundary(b, j),
    ensures is_char_boundary(b, skip_ws_backward(b, lo, j)),
    decreases j - lo,
{
    if lo < j && ws_len_before(b, j) > 0 && j - ws_len_before(b, j) >= lo {
        let k = j - ws_len_before(b, j);
        lemma_boundary_byte(b, k);
        lemma_skip_backward_boundary(b, lo, k);
    }
}

/// Trimming valid UTF-8 leaves valid UTF-8.
pub proof fn lemma_trim_valid(b: Seq<u8>)
    requires valid_utf8(b),
    ensures valid_utf8(trim_bytes(b)),
{
    is_char_boundary_start_end_of_seq(b);
    lemma_skip_forward_bounds(b, 0);
    lemma_skip_forward_boundary(b, 0);
    let a = skip_ws_forward(b, 0);
    lemma_skip_backward_bounds(b, a, b.len() as int);
    lemma_skip_backward_boundary(b, a, b.len() as int);
    let z = skip_ws_backward(b, a, b.len() as int);
    valid_utf8_split(b, z);
    let pre = b.subrange(0, z);
    lemma_boundary_byte(b, a);
    lemma_boundary_byte(pre, a);
    if a < z {
        assert(pre[a] == b[a]);
    }
    valid_utf8_split(pre, a);
    assert(pre.subrange(a, z) =~= trim_bytes(b));
}

/// The byte length of a whitespace scalar starting at `i`, or 0.
pub fn ws_len_at_exec(b: &[u8], i: usize) -> (r: usize)
    ensures r == ws_len_at(b@, i as int),
{
    let n = b.len();
    if i >= n {
        return 0;
    }
    let c = b[i];
    if (0x09u8 <= c && c <= 0x0du8) || c == 0x20u8 {
        return 1;
    }
    if n - i > 1 && c == 0xc2u8 && (b[i + 1] == 0x85u8 || b[i + 1] == 0xa0u8) {
        return 2;
    }
    if n - i > 2 {
        let c1 = b[i + 1];
        let c2 = b[i + 2];
        if (c == 0xe1u8 && c1 == 0x9au8 && c2 == 0x80u8)
            || (c == 0xe2u8 && c1 == 0x80u8 && ((0x80u8 <= c2 && c2 <= 0x8au8) || c2 == 0xa8u8
                || c2 == 0xa9u8 || c2 == 0xafu8))
            || (c == 0xe2u8 && c1 == 0x81u8 && c2 == 0x9fu8)
            || (c == 0xe3u8 && c1 == 0x80u8 && c2 == 0x80u8) {
            return 3;
        }
    }
    0
}

/// The bytes of a text without its leading and trailing whitespace.
pub fn trim_vec(b: &[u8]) -> (r: Vec<u8>)
    ensures r@ == trim_bytes(b@),
{
    let n = b.len();
    let mut a: usize = 0;
    while a < n && ws_len_at_exec(b, a) > 0
        invariant
            a <= n, n == b@.len(),
            skip_ws_forward(b@, a as int) == skip_ws_forward(b@, 0),
        decreases n - a,
    {
        a = a + ws_len_at_exec(b, a);
    }
    assert(a == skip_ws_forward(b@, 0));
    let mut z: usize = n;
    loop
        invariant_except_break
            a <= z <= n, n == b@.len(),
            a == skip_ws_forward(b@, 0),
            skip_ws_backward(b@, a as int, z as int) == skip_ws_backward(b@, a as int, n as int),
        ensures
            a <= z <= n,
            a == skip_ws_forward(b@, 0),
            z == skip_ws_backward(b@, a as int, n as int),
        decreases z - a,
    {
        let w = if z >= 1 && ws_len_at_exec(b, z - 1) == 1 {
            1
        } else if z >= 2 && ws_len_at_exec(b, z - 2) == 2 {
            2
        } else if z >= 3 && ws_len_at_exec(b, z - 3) == 3 {
            3
        } else {
            0
        };
        assert(w == ws_len_before(b@, z as int));
        if a < z && w > 0 && z - w >= a {
            z = z - w;
        } else {
            break;
        }
    }
    vstd::slice::slice_to_vec(vstd::slice::slice_subrange(b, a, z))
}

/// A text without its leading whitespace (when `lead`) and without its
/// trailing whitespace (when `tail`), as bytes.
pub open spec fn trim_sides(b: Seq<u8>, lead: bool, tail: bool) -> Seq<u8> {
    let a = if lead { skip_ws_forward(b, 0) } else { 0 };
    let z = if tail { skip_ws_backward(b, a, b.len() as int) } else { b.len() as int };
    b.subrange(a, z)
}

/// Trimming both sides is `trim_bytes`; trimming either side of valid UTF-8
/// leaves valid UTF-8.
pub proof fn lemma_trim_sides(b: Seq<u8>, lead: bool, tail: bool)
    ensures
        trim_sides(b, true, true) == trim_bytes(b),
        valid_utf8(b) ==> valid_utf8(trim_sides(b, lead, tail)),
{
    if valid_utf8(b) {
        is_char_boundary_start_end_of_seq(b);
        lemma_skip_forward_bounds(b, 0);
        lemma_skip_forward_boundary(b, 0);
        let a = if lead { skip_ws_forward(b, 0) } else { 0 };
        lemma_skip_backward_bounds(b, a, b.len() as int);
        lemma_skip_backward_boundary(b, a, b.len() as int);
        let z = if tail { skip_ws_backward(b, a, b.len() as int) } else { b.len() as int };
        valid_utf8_split(b, z);
        let pre = b.subrange(0, z);
        lemma_boundary_byte(b, a);
        lemma_boundary_byte(pre, a);
        if a < z {
            assert(pre[a] == b[a]);
        }
        valid_utf8_split(pre, a);
        assert(pre.subrange(a, z) =~= trim_sides(b, lead, tail));
    }
}

/// The bytes of a text without its leading whitespace (when `lead`) and its
/// trailing whitespace (when `tail`).
pub fn trim_sides_vec(b: &[u8], lead: bool, tail: bool) -> (r: Vec<u8>)
    ensures r@ == trim_sides(b@, lead, tail),
{
    let n = b.len();
    let mut a: usize = 0;
    if lead {
        while a < n && ws_len_at_exec(b, a) > 0
            invariant
                a <= n, n == b@.len(),
                skip_ws_forward(b@, a as int) == skip_ws_forward(b@, 0),
            decreases n - a,
        {
            a = a + ws_len_at_exec(b, a);
        }
    }
    proof { lemma_skip_forward_bounds(b@, 0); }
    let mut z: usize = n;
    if tail {
        loop
            invariant_except_break
                a <= z <= n, n == b@.len(),
                skip_ws_backward(b@, a as int, z as int) == skip_ws_backward(b@, a as int, n as int),
            ensures
                a <= z <= n,
                z == skip_ws_backward(b@, a as int, n as int),
            decreases z - a,
        {
            let w = if z >= 1 && ws_len_at_exec(b, z - 1) == 1 {
                1
            } else if z >= 2 && ws_len_at_exec(b, z - 2) == 2 {
                2
            } else if z >= 3 && ws_len_at_exec(b, z - 3) == 3 {
                3
            } else {
                0
            };
            assert(w == ws_len_before(b@, z as int));
            if a < z && w > 0 && z - w >= a {
                z = z - w;
            } else {
                break;
            }
        }
    }
    vstd::slice::slice_to_vec(vstd::slice::slice_subrange(b, a, z))
}

} // verus!
