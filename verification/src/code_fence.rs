//! Detection of regions of a text that compression must never touch:
//! fenced code blocks, inline code spans and brace-balanced JSON-like blocks.
use vstd::prelude::*;
use vstd::string::StringSliceAdditionalSpecFns;

verus! {

/// A half-open byte range `[start, end)` of a text.
#[derive(Debug, Clone, Copy, PartialEq, Eq)]
pub struct ProtectedRegion {
    pub start: usize,
    pub end: usize,
}

pub const BACKTICK: u8 = 0x60;
pub const NEWLINE: u8 = 0x0a;
pub const OPEN_BRACE: u8 = 0x7b;
pub const CLOSE_BRACE: u8 = 0x7d;
pub const QUOTE: u8 = 0x22;
pub const BACKSLASH: u8 = 0x5c;

/// Three backticks start at `i`.
pub open spec fn is_fence_at(b: Seq<u8>, i: int) -> bool {
    &&& 0 <= i
    &&& i + 2 < b.len()
    &&& b[i] == BACKTICK
    &&& b[i + 1] == BACKTICK
    &&& b[i + 2] == BACKTICK
}

/// The first position at or after `i` that holds a newline, or the text's length.
pub open spec fn line_end(b: Seq<u8>, i: int) -> int
    decreases b.len() - i,
{
    if i >= b.len() || i < 0 {
        b.len() as int
    } else if b[i] == NEWLINE {
        i
    } else {
        line_end(b, i + 1)
    }
}

/// The end of a fenced block whose body is searched from `i`: just past the
/// next three backticks, or the text's length when the block is never closed.
pub open spec fn fence_close(b: Seq<u8>, i: int) -> int
    decreases b.len() - i,
{
    if i >= b.len() || i < 0 {
        b.len() as int
    } else if is_fence_at(b, i) {
        i + 3
    } else {
        fence_close(b, i + 1)
    }
}

/// The end of a fenced code block opening at `i`.
pub open spec fn fence_end(b: Seq<u8>, i: int) -> int {
    fence_close(b, line_end(b, i + 3))
}

/// The end of an inline code span whose body is searched from `i`: just past
/// the next backtick, or the text's length when it is never closed.
pub open spec fn inline_close(b: Seq<u8>, i: int) -> int
    decreases b.len() - i,
{
    if i >= b.len() || i < 0 {
        b.len() as int
    } else if b[i] == BACKTICK {
        i + 1
    } else {
        inline_close(b, i + 1)
    }
}

/// Inside a JSON string whose body is searched from `j`: the position of the
/// closing quote, where a backslash skips the byte after it. A position at or
/// past the end means the string is not closed.
pub open spec fn string_end(b: Seq<u8>, j: int) -> int
    decreases b.len() + 2 - j,
{
    if j >= b.len() || j < 0 {
        j
    } else if b[j] == BACKSLASH {
        string_end(b, j + 2)
    } else if b[j] == QUOTE {
        j
    } else {
        string_end(b, j + 1)
    }
}

/// Scanning a brace block from `j` with `depth` open braces: the position just
/// past the brace that closes the block, skipping quoted strings, or `None`
/// when the text ends first.
pub open spec fn json_scan(b: Seq<u8>, j: int, depth: int) -> Option<int>
    decreases b.len() + 2 - j,
{
    if j >= b.len() || j < 0 {
        None
    } else if b[j] == OPEN_BRACE {
        json_scan(b, j + 1, depth + 1)
    } else if b[j] == CLOSE_BRACE {
        if depth - 1 == 0 {
            Some(j + 1)
        } else {
            json_scan(b, j + 1, depth - 1)
        }
    } else if b[j] == QUOTE {
        let e = string_end(b, j + 1);
        if j < e < b.len() {
            json_scan(b, e + 1, depth)
        } else {
            None
        }
    } else {
        json_scan(b, j + 1, depth)
    }
}

/// The protected regions found by scanning the text from position `i`.
pub open spec fn scan_regions(b: Seq<u8>, i: int) -> Seq<ProtectedRegion>
    decreases b.len() - i,
{
    if i >= b.len() || i < 0 {
        Seq::empty()
    } else if is_fence_at(b, i) {
        let e = fence_end(b, i);
        if i < e <= b.len() {
            seq![ProtectedRegion { start: i as usize, end: e as usize }] + scan_regions(b, e)
        } else {
            Seq::empty()
        }
    } else if b[i] == BACKTICK {
        let e = inline_close(b, i + 1);
        if i < e <= b.len() {
            seq![ProtectedRegion { start: i as usize, end: e as usize }] + scan_regions(b, e)
        } else {
            Seq::empty()
        }
    } else if b[i] == OPEN_BRACE {
        match json_scan(b, i, 0) {
            Some(e) => if i < e <= b.len() {
                seq![ProtectedRegion { start: i as usize, end: e as usize }] + scan_regions(b, e)
            } else {
                Seq::empty()
            },
            None => scan_regions(b, i + 1),
        }
    } else {
        scan_regions(b, i + 1)
    }
}

/// The protected regions of a text given by its bytes.
pub open spec fn protected_regions_of(b: Seq<u8>) -> Seq<ProtectedRegion> {
    scan_regions(b, 0)
}

/// `pos` lies inside one of `regions`.
pub open spec fn in_some_region(pos: int, regions: Seq<ProtectedRegion>) -> bool {
    exists|k: int| 0 <= k < regions.len() && #[trigger] regions[k].start <= pos < regions[k].end
}

/// The byte range `[start, end)` overlaps one of `regions`.
pub open spec fn overlaps_some_region(start: int, end: int, regions: Seq<ProtectedRegion>) -> bool {
    exists|k: int| 0 <= k < regions.len() && start < #[trigger] regions[k].end && end > regions[k].start
}

/// Regions are non-empty, ordered, disjoint and within a text of length `len`.
pub open spec fn regions_well_formed(regions: Seq<ProtectedRegion>, len: int) -> bool {
    &&& forall|k: int| 0 <= k < regions.len() ==> #[trigger] regions[k].start < regions[k].end <= len
    &&& forall|k: int, l: int| 0 <= k < l < regions.len() ==> #[trigger] regions[k].end <= #[trigger] regions[l].start
}

proof fn lemma_line_end_bounds(b: Seq<u8>, i: int)
    requires 0 <= i <= b.len(),
    ensures i <= line_end(b, i) <= b.len(),
    decreases b.len() - i,
{
    if i < b.len() && b[i] != NEWLINE {
        lemma_line_end_bounds(b, i + 1);
    }
}

proof fn lemma_fence_close_bounds(b: Seq<u8>, i: int)
    requires 0 <= i <= b.len(),
    ensures i <= fence_close(b, i) <= b.len(),
    decreases b.len() - i,
{
    if i < b.len() && !is_fence_at(b, i) {
        lemma_fence_close_bounds(b, i + 1);
    }
}

proof fn lemma_inline_close_bounds(b: Seq<u8>, i: int)
    requires 0 <= i <= b.len(),
    ensures i <= inline_close(b, i) <= b.len(),
    decreases b.len() - i,
{
    if i < b.len() && b[i] != BACKTICK {
        lemma_inline_close_bounds(b, i + 1);
    }
}

proof fn lemma_string_end_bounds(b: Seq<u8>, j: int)
    requires 0 <= j,
    ensures j <= string_end(b, j) <= b.len() + 1 || string_end(b, j) == j,
        string_end(b, j) >= j,
        string_end(b, j) < b.len() ==> b[string_end(b, j)] == QUOTE,
    decreases b.len() + 2 - j,
{
    if j < b.len() {
        if b[j] == BACKSLASH {
            lemma_string_end_bounds(b, j + 2);
        } else if b[j] != QUOTE {
            lemma_string_end_bounds(b, j + 1);
        }
    }
}

proof fn lemma_json_scan_bounds(b: Seq<u8>, j: int, depth: int)
    requires 0 <= j,
    ensures json_scan(b, j, depth) matches Some(e) ==> j < e <= b.len(),
    decreases b.len() + 2 - j,
{
    if j < b.len() {
        if b[j] == OPEN_BRACE {
            lemma_json_scan_bounds(b, j + 1, depth + 1);
        } else if b[j] == CLOSE_BRACE {
            if depth - 1 != 0 {
                lemma_json_scan_bounds(b, j + 1, depth - 1);
            }
        } else if b[j] == QUOTE {
            lemma_string_end_bounds(b, j + 1);
            let e = string_end(b, j + 1);
            if j < e < b.len() {
                lemma_json_scan_bounds(b, e + 1, depth);
            }
        } else {
            lemma_json_scan_bounds(b, j + 1, depth);
        }
    }
}

proof fn lemma_fence_end_bounds(b: Seq<u8>, i: int)
    requires is_fence_at(b, i),
    ensures i + 3 <= fence_end(b, i) <= b.len(),
{
    lemma_line_end_bounds(b, i + 3);
    lemma_fence_close_bounds(b, line_end(b, i + 3));
}

/// Every region of `scan_regions(b, i)` starts at or after `i`, and the
/// regions are well formed.
proof fn lemma_scan_regions_well_formed(b: Seq<u8>, i: int)
    requires 0 <= i, b.len() <= usize::MAX,
    ensures
        regions_well_formed(scan_regions(b, i), b.len() as int),
        forall|k: int| 0 <= k < scan_regions(b, i).len() ==> i <= #[trigger] scan_regions(b, i)[k].start,
    decreases b.len() - i,
{
    let s = scan_regions(b, i);
    if i < b.len() {
        let mut e: int = i + 1;
        let mut found = false;
        if is_fence_at(b, i) {
            lemma_fence_end_bounds(b, i);
            e = fence_end(b, i);
            found = true;
        } else if b[i] == BACKTICK {
            lemma_inline_close_bounds(b, i + 1);
            e = inline_close(b, i + 1);
            found = true;
        } else if b[i] == OPEN_BRACE {
            lemma_json_scan_bounds(b, i, 0);
            if let Some(e1) = json_scan(b, i, 0) {
                e = e1;
                found = true;
            }
        }
        lemma_scan_regions_well_formed(b, e);
        let rest = scan_regions(b, e);
        if found {
            let r = ProtectedRegion { start: i as usize, end: e as usize };
            assert(s == seq![r] + rest);
            assert forall|k: int, l: int| 0 <= k < l < s.len() implies #[trigger] s[k].end <= #[trigger] s[l].start by {
                if k > 0 {
                    assert(s[k] == rest[k - 1]);
                }
                assert(s[l] == rest[l - 1]);
            }
            assert forall|k: int| 0 <= k < s.len() implies #[trigger] s[k].start < s[k].end <= b.len() && i <= s[k].start by {
                assert(i < e <= b.len());
                assert(r.start as int == i && r.end as int == e);
                if k == 0 {
                    assert(s[0] == r);
                } else {
                    assert(s[k] == rest[k - 1]);
                }
            }
        } else {
            assert(s == rest);
        }
    }
}

/// The regions found in any text are non-empty, ordered, disjoint and lie
/// within the text.
pub proof fn lemma_protected_regions_well_formed(b: Seq<u8>)
    requires b.len() <= usize::MAX,
    ensures regions_well_formed(protected_regions_of(b), b.len() as int),
{
    lemma_scan_regions_well_formed(b, 0);
}

/// Finds the protected regions of a text given by its bytes.
pub fn find_protected_regions_in_bytes(bytes: &[u8]) -> (regions: Vec<ProtectedRegion>)
    ensures regions@ == protected_regions_of(bytes@),
{
    let len = bytes.len();
    let ghost b = bytes@;
    let mut regions: Vec<ProtectedRegion> = Vec::new();
    let mut i: usize = 0;
    while i < len
        invariant
            len == b.len(), b == bytes@,
            i <= len,
            regions@ + scan_regions(b, i as int) == protected_regions_of(b),
        decreases len - i,
    {
        if len - i > 2 && bytes[i] == BACKTICK && bytes[i + 1] == BACKTICK && bytes[i + 2] == BACKTICK {
            let start = i;
            proof { lemma_fence_end_bounds(b, start as int); }
            i = i + 3;
            while i < len && bytes[i] != NEWLINE
                invariant
                    len == b.len(), b == bytes@,
                    start + 3 <= i <= len,
                    line_end(b, i as int) == line_end(b, start + 3),
                decreases len - i,
            {
                i = i + 1;
            }
            proof { lemma_line_end_bounds(b, start + 3); }
            let mut found_close = false;
            while i < len
                invariant_except_break
                    len == b.len(), b == bytes@,
                    start + 3 <= i <= len,
                    fence_close(b, i as int) == fence_end(b, start as int),
                    !found_close,
                ensures
                    len == b.len(), b == bytes@,
                    found_close ==> i == fence_end(b, start as int),
                    !found_close ==> i >= len && fence_end(b, start as int) == len,
                decreases len - i,
            {
                if len - i > 2 && bytes[i] == BACKTICK && bytes[i + 1] == BACKTICK && bytes[i + 2] == BACKTICK {
                    i = i + 3;
                    found_close = true;
                    break;
                }
                i = i + 1;
            }
            if !found_close {
                i = len;
            }
            regions.push(ProtectedRegion { start, end: i });
            proof {
                assert(regions@ + scan_regions(b, i as int) =~= protected_regions_of(b));
            }
            continue;
        }
        if bytes[i] == BACKTICK {
            let start = i;
            proof { lemma_inline_close_bounds(b, start + 1); }
            i = i + 1;
            let mut found_close = false;
            while i < len
                invariant_except_break
                    len == b.len(), b == bytes@,
                    start + 1 <= i <= len,
                    inline_close(b, i as int) == inline_close(b, start + 1),
                    !found_close,
                ensures
                    found_close ==> i == inline_close(b, start + 1),
                    !found_close ==> i >= len && inline_close(b, start + 1) == len,
                decreases len - i,
            {
                if bytes[i] == BACKTICK {
                    i = i + 1;
                    found_close = true;
                    break;
                }
                i = i + 1;
            }
            if !found_close {
                i = len;
            }
            regions.push(ProtectedRegion { start, end: i });
            proof {
                assert(regions@ + scan_regions(b, i as int) =~= protected_regions_of(b));
            }
            continue;
        }
        if bytes[i] == OPEN_BRACE {
            let start = i;
            let mut depth: usize = 0;
            let mut j = i;
            let mut found_close = false;
            while j < len
                invariant_except_break
                    len == b.len(), b == bytes@,
                    start <= j <= len,
                    b[start as int] == OPEN_BRACE,
                    depth <= j - start,
                    j == start ==> depth == 0,
                    j > start ==> depth >= 1,
                    json_scan(b, j as int, depth as int) == json_scan(b, start as int, 0),
                    !found_close,
                ensures
                    found_close ==> json_scan(b, start as int, 0) == Some(j as int),
                    !found_close ==> json_scan(b, start as int, 0) is None,
                decreases len - j,
            {
                let c = bytes[j];
                if c == OPEN_BRACE {
                    depth = depth + 1;
                } else if c == CLOSE_BRACE {
                    depth = depth - 1;
                    if depth == 0 {
                        j = j + 1;
                        found_close = true;
                        break;
                    }
                } else if c == QUOTE {
                    let ghost j0 = j;
                    j = j + 1;
                    while j < len
                        invariant
                            len == b.len(), b == bytes@,
                            j0 + 1 <= j,
                            j < len ==> string_end(b, j as int) == string_end(b, j0 + 1),
                            j >= len ==> string_end(b, j0 + 1) >= len,
                            j <= len,
                        ensures
                            j < len ==> string_end(b, j0 + 1) == j,
                            j >= len ==> string_end(b, j0 + 1) >= len,
                            j <= len,
                        decreases len - j,
                    {
                        if bytes[j] == BACKSLASH {
                            if len - j <= 2 {
                                proof { lemma_string_end_bounds(b, j + 2); }
                                j = len;
                                break;
                            }
                            j = j + 2;
                            continue;
                        }
                        if bytes[j] == QUOTE {
                            break;
                        }
                        assert(string_end(b, j as int) == string_end(b, j + 1));
                        j = j + 1;
                        assert(j >= len ==> string_end(b, j as int) == len);
                    }
                    if j >= len {
                        break;
                    }
                    proof { lemma_string_end_bounds(b, j0 + 1); }
                }
                j = j + 1;
            }
            if found_close {
                proof { lemma_json_scan_bounds(b, start as int, 0); }
                regions.push(ProtectedRegion { start, end: j });
                i = j;
                proof {
                    assert(regions@ + scan_regions(b, i as int) =~= protected_regions_of(b));
                }
            } else {
                i = i + 1;
            }
            continue;
        }
        i = i + 1;
    }
    proof { assert(regions@ =~= regions@ + scan_regions(b, i as int)); }
    regions
}

/// Finds the protected regions of a text: triple-backtick fenced code blocks
/// (an unclosed one runs to the end), inline code spans and brace-balanced
/// JSON-like blocks, as byte ranges.
pub fn find_protected_regions(text: &str) -> (regions: Vec<ProtectedRegion>)
    ensures regions@ == protected_regions_of(text.spec_bytes()),
{
    find_protected_regions_in_bytes(text.as_bytes())
}

/// Whether the byte range `[start, end)` overlaps any of `regions`.
pub fn is_in_any_protected_region(start: usize, end: usize, regions: &[ProtectedRegion]) -> (r: bool)
    ensures r == overlaps_some_region(start as int, end as int, regions@),
{
    let mut k: usize = 0;
    while k < regions.len()
        invariant
            k <= regions@.len(),
            forall|m: int| 0 <= m < k ==> !(start < #[trigger] regions@[m].end && end > regions@[m].start),
        decreases regions.len() - k,
    {
        if start < regions[k].end && end > regions[k].start {
            return true;
        }
        k = k + 1;
    }
    false
}

/// Whether byte position `pos` falls within any of `regions`.
pub fn is_in_protected_region(pos: usize, regions: &[ProtectedRegion]) -> (r: bool)
    ensures r == in_some_region(pos as int, regions@),
{
    let mut k: usize = 0;
    while k < regions.len()
        invariant
            k <= regions@.len(),
            forall|m: int| 0 <= m < k ==> !(#[trigger] regions@[m].start <= pos < regions@[m].end),
        decreases regions.len() - k,
    {
        if pos >= regions[k].start && pos < regions[k].end {
            return true;
        }
        k = k + 1;
    }
    false
}

} // verus!
