//! Detection of a text's domain from the frequency of domain keywords.
use vstd::prelude::*;
use vstd::utf8::*;
use crate::types::DomainConfig;
use crate::text::{lowercase, lowercase_chars, copy_string};
use crate::search::{count_non_overlapping, count_occurrences};

verus! {

broadcast use vstd::string::group_string_axioms;

/// The minimum number of keyword occurrences that activates a domain.
pub const MIN_KEYWORD_HITS: u128 = 2;

/// The UTF-8 bytes of a text's lowercase mapping.
pub open spec fn lower_bytes(s: Seq<char>) -> Seq<u8> {
    encode_utf8(lowercase_chars(s))
}

/// Occurrences in `text_lower` of the first `k` keywords, each lowercased and
/// counted without overlap.
pub open spec fn keyword_hits(text_lower: Seq<u8>, keywords: Seq<String>, k: int) -> int
    decreases k,
{
    if k <= 0 {
        0
    } else {
        keyword_hits(text_lower, keywords, k - 1)
            + count_occurrences(text_lower, lower_bytes(keywords[k - 1]@), 0)
    }
}

/// The keyword occurrences of a domain in a lowercased text.
pub open spec fn domain_hits(text_lower: Seq<u8>, d: DomainConfig) -> int {
    keyword_hits(text_lower, d.keywords@, d.keywords@.len() as int)
}

/// Among the first `k` domains: the index of the first one with the most
/// keyword occurrences (none while every count is zero) and that count.
pub open spec fn best_domain_among(text_lower: Seq<u8>, ds: Seq<DomainConfig>, k: int) -> (Option<int>, int)
    decreases k,
{
    if k <= 0 {
        (None, 0)
    } else {
        let (bi, bc) = best_domain_among(text_lower, ds, k - 1);
        let c = domain_hits(text_lower, ds[k - 1]);
        if c > bc {
            (Some(k - 1), c)
        } else {
            (bi, bc)
        }
    }
}

/// The domain detected in a text: the first of the domains with the most
/// keyword occurrences, provided it has at least two.
pub open spec fn detected_domain(text: Seq<char>, ds: Seq<DomainConfig>) -> Option<Seq<char>> {
    let (bi, bc) = best_domain_among(lower_bytes(text), ds, ds.len() as int);
    if bc >= 2 {
        match bi {
            Some(i) => Some(ds[i].name@),
            None => None,
        }
    } else {
        None
    }
}

/// Every keyword of every domain is non-empty.
pub open spec fn keywords_nonempty(ds: Seq<DomainConfig>) -> bool {
    forall|i: int, j: int| 0 <= i < ds.len() && 0 <= j < ds[i].keywords@.len()
        ==> (#[trigger] ds[i].keywords@[j])@.len() > 0
}

proof fn lemma_best_domain_props(text_lower: Seq<u8>, ds: Seq<DomainConfig>, k: int)
    requires 0 <= k <= ds.len(),
    ensures ({
        let (bi, bc) = best_domain_among(text_lower, ds, k);
        &&& bc >= 0
        &&& (bi matches Some(i) ==> 0 <= i < k && bc == domain_hits(text_lower, ds[i]))
        &&& (bi is None ==> bc == 0)
        &&& forall|m: int| 0 <= m < k ==> domain_hits(text_lower, #[trigger] ds[m]) <= bc
    }),
    decreases k,
{
    if k > 0 {
        lemma_best_domain_props(text_lower, ds, k - 1);
    }
}

/// The domain with the most keyword occurrences, if it reaches the minimum.
pub open spec fn detection_is_best(text: Seq<char>, ds: Seq<DomainConfig>, r: Option<Seq<char>>) -> bool {
    let tl = lower_bytes(text);
    &&& (r is None <==> forall|m: int| 0 <= m < ds.len() ==> domain_hits(tl, #[trigger] ds[m]) < 2)
    &&& (r matches Some(name) ==> exists|i: int| 0 <= i < ds.len() && ds[i].name@ == name
        && domain_hits(tl, #[trigger] ds[i]) >= 2
        && forall|m: int| 0 <= m < ds.len() ==> domain_hits(tl, #[trigger] ds[m]) <= domain_hits(tl, ds[i]))
}

/// The detected domain has at least two keyword occurrences and no domain
/// has more; none is detected exactly when every domain has fewer than two.
pub proof fn lemma_detected_domain_is_best(text: Seq<char>, ds: Seq<DomainConfig>)
    ensures detection_is_best(text, ds, detected_domain(text, ds)),
{
    let tl = lower_bytes(text);
    lemma_best_domain_props(tl, ds, ds.len() as int);
    let (bi, bc) = best_domain_among(tl, ds, ds.len() as int);
    if let Some(i) = bi {
        assert(domain_hits(tl, ds[i]) == bc);
    }
}

/// What detection reads of a domain: its name and its keywords.
pub open spec fn detection_view(d: DomainConfig) -> (Seq<char>, Seq<Seq<char>>) {
    (d.name@, d.keywords@.map_values(|k: String| k@))
}

proof fn lemma_keyword_hits_by_views(tl: Seq<u8>, k1: Seq<String>, k2: Seq<String>, k: int)
    requires
        k1.map_values(|x: String| x@) == k2.map_values(|x: String| x@),
        0 <= k <= k1.len(),
    ensures keyword_hits(tl, k1, k) == keyword_hits(tl, k2, k),
    decreases k,
{
    assert(k1.len() == k1.map_values(|x: String| x@).len());
    assert(k2.len() == k2.map_values(|x: String| x@).len());
    if k > 0 {
        lemma_keyword_hits_by_views(tl, k1, k2, k - 1);
        assert(k1.map_values(|x: String| x@)[k - 1] == k1[k - 1]@);
        assert(k2.map_values(|x: String| x@)[k - 1] == k2[k - 1]@);
    }
}

proof fn lemma_best_by_views(tl: Seq<u8>, ds1: Seq<DomainConfig>, ds2: Seq<DomainConfig>, k: int)
    requires
        ds1.map_values(|d: DomainConfig| detection_view(d)) == ds2.map_values(|d: DomainConfig| detection_view(d)),
        0 <= k <= ds1.len(),
    ensures best_domain_among(tl, ds1, k) == best_domain_among(tl, ds2, k),
    decreases k,
{
    assert(ds1.len() == ds1.map_values(|d: DomainConfig| detection_view(d)).len());
    assert(ds2.len() == ds2.map_values(|d: DomainConfig| detection_view(d)).len());
    if k > 0 {
        lemma_best_by_views(tl, ds1, ds2, k - 1);
        let a = ds1[k - 1];
        let b = ds2[k - 1];
        assert(ds1.map_values(|d: DomainConfig| detection_view(d))[k - 1] == detection_view(a));
        assert(ds2.map_values(|d: DomainConfig| detection_view(d))[k - 1] == detection_view(b));
        assert(a.keywords@.len() == a.keywords@.map_values(|x: String| x@).len());
        lemma_keyword_hits_by_views(tl, a.keywords@, b.keywords@, a.keywords@.len() as int);
    }
}

/// What detection reads of a domain, up to letter case in the keywords: its
/// name and the lowercase mapping of each keyword.
pub open spec fn detection_case_view(d: DomainConfig) -> (Seq<char>, Seq<Seq<char>>) {
    (d.name@, d.keywords@.map_values(|k: String| lowercase_chars(k@)))
}

proof fn lemma_keyword_hits_by_case(tl: Seq<u8>, k1: Seq<String>, k2: Seq<String>, k: int)
    requires
        k1.map_values(|x: String| lowercase_chars(x@)) == k2.map_values(|x: String| lowercase_chars(x@)),
        0 <= k <= k1.len(),
    ensures keyword_hits(tl, k1, k) == keyword_hits(tl, k2, k),
    decreases k,
{
    assert(k1.len() == k1.map_values(|x: String| lowercase_chars(x@)).len());
    assert(k2.len() == k2.map_values(|x: String| lowercase_chars(x@)).len());
    if k > 0 {
        lemma_keyword_hits_by_case(tl, k1, k2, k - 1);
        assert(k1.map_values(|x: String| lowercase_chars(x@))[k - 1] == lowercase_chars(k1[k - 1]@));
        assert(k2.map_values(|x: String| lowercase_chars(x@))[k - 1] == lowercase_chars(k2[k - 1]@));
    }
}

proof fn lemma_best_by_case(tl: Seq<u8>, ds1: Seq<DomainConfig>, ds2: Seq<DomainConfig>, k: int)
    requires
        ds1.map_values(|d: DomainConfig| detection_case_view(d)) == ds2.map_values(|d: DomainConfig| detection_case_view(d)),
        0 <= k <= ds1.len(),
    ensures best_domain_among(tl, ds1, k) == best_domain_among(tl, ds2, k),
    decreases k,
{
    assert(ds1.len() == ds1.map_values(|d: DomainConfig| detection_case_view(d)).len());
    assert(ds2.len() == ds2.map_values(|d: DomainConfig| detection_case_view(d)).len());
    if k > 0 {
        lemma_best_by_case(tl, ds1, ds2, k - 1);
        let a = ds1[k - 1];
        let b = ds2[k - 1];
        assert(ds1.map_values(|d: DomainConfig| detection_case_view(d))[k - 1] == detection_case_view(a));
        assert(ds2.map_values(|d: DomainConfig| detection_case_view(d))[k - 1] == detection_case_view(b));
        assert(a.keywords@.len() == a.keywords@.map_values(|x: String| lowercase_chars(x@)).len());
        lemma_keyword_hits_by_case(tl, a.keywords@, b.keywords@, a.keywords@.len() as int);
    }
}

/// Keywords match regardless of letter case: domains that agree on their
/// names and on the lowercase mapping of each keyword (such as keywords
/// `SQL` and `sql`) detect the same domain in every text.
pub proof fn lemma_detection_ignores_keyword_case(text: Seq<char>, ds1: Seq<DomainConfig>, ds2: Seq<DomainConfig>)
    requires
        ds1.map_values(|d: DomainConfig| detection_case_view(d)) == ds2.map_values(|d: DomainConfig| detection_case_view(d)),
    ensures detected_domain(text, ds1) == detected_domain(text, ds2),
{
    assert(ds1.len() == ds2.len()) by {
        assert(ds1.map_values(|d: DomainConfig| detection_case_view(d)).len() == ds1.len());
    }
    lemma_best_by_case(lower_bytes(text), ds1, ds2, ds1.len() as int);
    let (bi, bc) = best_domain_among(lower_bytes(text), ds1, ds1.len() as int);
    if let Some(i) = bi {
        lemma_best_domain_props(lower_bytes(text), ds1, ds1.len() as int);
        assert(ds1.map_values(|d: DomainConfig| detection_case_view(d))[i] == detection_case_view(ds1[i]));
        assert(ds2.map_values(|d: DomainConfig| detection_case_view(d))[i] == detection_case_view(ds2[i]));
    }
}

/// Detection reads only the names and keywords of the domains: domains
/// that agree on them detect the same domain, and have empty keywords alike.
pub proof fn lemma_detection_by_views(text: Seq<char>, ds1: Seq<DomainConfig>, ds2: Seq<DomainConfig>)
    requires ds1.map_values(|d: DomainConfig| detection_view(d)) == ds2.map_values(|d: DomainConfig| detection_view(d)),
    ensures
        detected_domain(text, ds1) == detected_domain(text, ds2),
        keywords_nonempty(ds1) == keywords_nonempty(ds2),
{
    assert(ds1.len() == ds2.len()) by {
        assert(ds1.map_values(|d: DomainConfig| detection_view(d)).len() == ds1.len());
    }
    lemma_best_by_views(lower_bytes(text), ds1, ds2, ds1.len() as int);
    let (bi, bc) = best_domain_among(lower_bytes(text), ds1, ds1.len() as int);
    if let Some(i) = bi {
        lemma_best_domain_props(lower_bytes(text), ds1, ds1.len() as int);
        assert(ds1.map_values(|d: DomainConfig| detection_view(d))[i] == detection_view(ds1[i]));
        assert(ds2.map_values(|d: DomainConfig| detection_view(d))[i] == detection_view(ds2[i]));
    }
    assert forall|i: int| 0 <= i < ds1.len() implies
        (#[trigger] ds1[i]).keywords@.map_values(|k: String| k@) == ds2[i].keywords@.map_values(|k: String| k@) by {
        assert(ds1.map_values(|d: DomainConfig| detection_view(d))[i] == detection_view(ds1[i]));
        assert(ds2.map_values(|d: DomainConfig| detection_view(d))[i] == detection_view(ds2[i]));
    }
    assert forall|i: int, j: int| 0 <= i < ds1.len() && 0 <= j < ds1[i].keywords@.len() implies
        (ds1[i].keywords@[j]@ == ds2[i].keywords@[j]@ && ds1[i].keywords@.len() == ds2[i].keywords@.len()) by {
        assert(ds1[i].keywords@.map_values(|k: String| k@) == ds2[i].keywords@.map_values(|k: String| k@));
        assert(ds1[i].keywords@.map_values(|k: String| k@).len() == ds1[i].keywords@.len());
        assert(ds2[i].keywords@.map_values(|k: String| k@).len() == ds2[i].keywords@.len());
        assert(ds1[i].keywords@.map_values(|k: String| k@)[j] == ds1[i].keywords@[j]@);
        assert(ds2[i].keywords@.map_values(|k: String| k@)[j] == ds2[i].keywords@[j]@);
    }
    if keywords_nonempty(ds1) != keywords_nonempty(ds2) {
        assert forall|i: int| 0 <= i < ds1.len() implies ds1[i].keywords@.len() == ds2[i].keywords@.len() by {
            assert(ds1[i].keywords@.map_values(|k: String| k@) == ds2[i].keywords@.map_values(|k: String| k@));
            assert(ds1[i].keywords@.map_values(|k: String| k@).len() == ds1[i].keywords@.len());
            assert(ds2[i].keywords@.map_values(|k: String| k@).len() == ds2[i].keywords@.len());
        }
        if keywords_nonempty(ds1) {
            let (i, j) = choose|i: int, j: int| 0 <= i < ds2.len() && 0 <= j < ds2[i].keywords@.len()
                && !((#[trigger] ds2[i].keywords@[j])@.len() > 0);
            assert(ds1[i].keywords@[j]@ == ds2[i].keywords@[j]@);
        } else {
            let (i, j) = choose|i: int, j: int| 0 <= i < ds1.len() && 0 <= j < ds1[i].keywords@.len()
                && !((#[trigger] ds1[i].keywords@[j])@.len() > 0);
            assert(ds1[i].keywords@[j]@ == ds2[i].keywords@[j]@);
        }
    }
}

fn keyword_total(text_lower: &[u8], keywords: &Vec<String>) -> (r: u128)
    requires forall|j: int| 0 <= j < keywords@.len() ==> (#[trigger] keywords@[j])@.len() > 0,
    ensures r == keyword_hits(text_lower@, keywords@, keywords@.len() as int),
{
    let mut total: u128 = 0;
    let mut i: usize = 0;
    while i < keywords.len()
        invariant
            i <= keywords@.len(),
            forall|j: int| 0 <= j < keywords@.len() ==> (#[trigger] keywords@[j])@.len() > 0,
            total == keyword_hits(text_lower@, keywords@, i as int),
            total <= i * 0x1_0000_0000_0000_0000,
        decreases keywords.len() - i,
    {
        let kw = lowercase(keywords[i].as_str());
        let c = count_non_overlapping(text_lower, kw.as_str().as_bytes());
        proof {
            assert(encode_utf8(kw@) == lower_bytes(keywords@[i as int]@));
            assert((i + 1) * 0x1_0000_0000_0000_0000 == i * 0x1_0000_0000_0000_0000 + 0x1_0000_0000_0000_0000) by (nonlinear_arith);
            assert(i * 0x1_0000_0000_0000_0000 <= 0xffff_ffff_ffff_ffff * 0x1_0000_0000_0000_0000) by (nonlinear_arith)
                requires i <= 0xffff_ffff_ffff_ffff;
        }
        total = total + c as u128;
        i = i + 1;
    }
    total
}

/// Detects the most likely domain of a text from keyword frequency: the
/// first domain with the most (case-insensitive, non-overlapping) keyword
/// occurrences, if it has at least two.
pub fn detect_domain(text: &str, domains: &Vec<DomainConfig>) -> (r: Option<String>)
    requires keywords_nonempty(domains@),
    ensures
        r is None <==> detected_domain(text@, domains@) is None,
        r matches Some(name) ==> detected_domain(text@, domains@) == Some(name@),
{
    let text_lower = lowercase(text);
    let tl = text_lower.as_str().as_bytes();
    let mut best_domain: Option<String> = None;
    let mut best_count: u128 = 0;
    let ghost mut best_idx: Option<int> = None;
    let mut i: usize = 0;
    while i < domains.len()
        invariant
            i <= domains@.len(),
            tl@ == lower_bytes(text@),
            keywords_nonempty(domains@),
            best_domain_among(tl@, domains@, i as int) == (best_idx, best_count as int),
            best_idx is None <==> best_domain is None,
            best_idx matches Some(bi) ==> (0 <= bi < domains@.len()
                && (best_domain matches Some(n) && n@ == domains@[bi].name@)),
        decreases domains.len() - i,
    {
        proof { lemma_best_domain_props(tl@, domains@, i as int); }
        let count = keyword_total(tl, &domains[i].keywords);
        if count > best_count {
            best_count = count;
            best_domain = Some(copy_string(&domains[i].name));
            proof { best_idx = Some(i as int); }
        }
        i = i + 1;
    }
    if best_count >= MIN_KEYWORD_HITS {
        best_domain
    } else {
        None
    }
}

} // verus!
