//! Requests of the admin endpoints and what the store makes of them.
use vstd::prelude::*;
use crate::text::{copy_string, copy_opt_string};

verus! {

broadcast use vstd::string::group_string_axioms;

/// A request to create a learned rule.
#[derive(Debug, Clone)]
pub struct CreateRuleRequest {
    pub pattern: String,
    pub replacement: String,
    pub layer: String,
    pub domain: Option<String>,
    pub priority: Option<i32>,
}

/// A request to change a rule; each field that is given replaces the rule's.
#[derive(Debug, Clone)]
pub struct UpdateRuleRequest {
    pub pattern: Option<String>,
    pub replacement: Option<String>,
    pub enabled: Option<bool>,
    pub priority: Option<i32>,
    pub domain: Option<String>,
}

/// Paging and filters of a listing.
#[derive(Debug, Clone)]
pub struct PaginationParams {
    pub limit: i64,
    pub offset: i64,
    pub layer: Option<String>,
    pub domain: Option<String>,
}

/// The number of entries a listing returns unless told otherwise.
pub fn default_limit() -> (r: i64)
    ensures r == 50,
{
    50
}

/// The fields of a stored rule that a request may change.
#[derive(Debug, Clone)]
pub struct RuleFields {
    pub pattern: String,
    pub replacement: String,
    pub enabled: bool,
    pub priority: i32,
    pub domain: Option<String>,
}

/// The view of an optional string.
pub open spec fn opt_view(o: Option<String>) -> Option<Seq<char>> {
    match o {
        Some(s) => Some(s@),
        None => None,
    }
}

impl RuleFields {
    /// The fields of a new rule made from a creation request: enabled, with
    /// priority 0 unless the request gives one.
    pub fn from_create(req: &CreateRuleRequest) -> (r: RuleFields)
        ensures
            r.pattern@ == req.pattern@,
            r.replacement@ == req.replacement@,
            r.enabled,
            r.priority == (match req.priority { Some(p) => p, None => 0 }),
            opt_view(r.domain) == opt_view(req.domain),
    {
        RuleFields {
            pattern: copy_string(&req.pattern),
            replacement: copy_string(&req.replacement),
            enabled: true,
            priority: match req.priority { Some(p) => p, None => 0 },
            domain: copy_opt_string(&req.domain),
        }
    }

    /// Applies an update: each field the request gives replaces the rule's,
    /// the others stay.
    pub fn apply_update(&mut self, req: &UpdateRuleRequest)
        ensures
            final(self).pattern@ == (match req.pattern { Some(p) => p@, None => old(self).pattern@ }),
            final(self).replacement@ == (match req.replacement { Some(p) => p@, None => old(self).replacement@ }),
            final(self).enabled == (match req.enabled { Some(e) => e, None => old(self).enabled }),
            final(self).priority == (match req.priority { Some(p) => p, None => old(self).priority }),
            opt_view(final(self).domain) == (match req.domain { Some(d) => Some(d@), None => opt_view(old(self).domain) }),
    {
        if let Some(pattern) = &req.pattern {
            self.pattern = copy_string(pattern);
        }
        if let Some(replacement) = &req.replacement {
            self.replacement = copy_string(replacement);
        }
        if let Some(enabled) = req.enabled {
            self.enabled = enabled;
        }
        if let Some(priority) = req.priority {
            self.priority = priority;
        }
        if let Some(domain) = &req.domain {
            self.domain = Some(copy_string(domain));
        }
    }
}

/// The query that lists rules: the columns of a rule, a condition for each
/// filter that is given, highest priority and newest first, then the limit
/// and offset. The parameters follow in the same order: layer, domain,
/// limit, offset.
pub open spec fn rule_list_query(has_layer: bool, has_domain: bool) -> Seq<char> {
    "SELECT id, pattern, replacement, layer, domain, confidence, samples, enabled, priority, created_at, updated_at FROM rules WHERE 1=1"@
        + (if has_layer { " AND layer = ?"@ } else { Seq::empty() })
        + (if has_domain { " AND domain = ?"@ } else { Seq::empty() })
        + " ORDER BY priority DESC, created_at DESC LIMIT ? OFFSET ?"@
}

/// Each filter adds one equality condition on its column: the query with a
/// domain filter is the one without it with ` AND domain = ?` put before the
/// ordering, and likewise for a layer filter with ` AND layer = ?`.
pub proof fn lemma_filters_add_equalities(has_layer: bool, has_domain: bool)
    ensures ({
        let order = " ORDER BY priority DESC, created_at DESC LIMIT ? OFFSET ?"@;
        let without = rule_list_query(has_layer, false);
        let with = rule_list_query(has_layer, true);
        let p = without.len() - order.len();
        let without_l = rule_list_query(false, has_domain);
        let with_l = rule_list_query(true, has_domain);
        let base = "SELECT id, pattern, replacement, layer, domain, confidence, samples, enabled, priority, created_at, updated_at FROM rules WHERE 1=1"@;
        &&& 0 <= p
        &&& with == without.subrange(0, p) + " AND domain = ?"@ + without.subrange(p, without.len() as int)
        &&& with_l == without_l.subrange(0, base.len() as int) + " AND layer = ?"@
            + without_l.subrange(base.len() as int, without_l.len() as int)
    }),
{
    let order = " ORDER BY priority DESC, created_at DESC LIMIT ? OFFSET ?"@;
    let base = "SELECT id, pattern, replacement, layer, domain, confidence, samples, enabled, priority, created_at, updated_at FROM rules WHERE 1=1"@;
    let lay = if has_layer { " AND layer = ?"@ } else { Seq::<char>::empty() };
    let dom = if has_domain { " AND domain = ?"@ } else { Seq::<char>::empty() };
    let without = rule_list_query(has_layer, false);
    assert(without =~= base + lay + order);
    let p = without.len() - order.len();
    assert(without.subrange(0, p) =~= base + lay);
    assert(without.subrange(p, without.len() as int) =~= order);
    assert(rule_list_query(has_layer, true) =~= base + lay + " AND domain = ?"@ + order);
    let without_l = rule_list_query(false, has_domain);
    assert(without_l =~= base + dom + order);
    assert(without_l.subrange(0, base.len() as int) =~= base);
    assert(without_l.subrange(base.len() as int, without_l.len() as int) =~= dom + order);
    assert(rule_list_query(true, has_domain) =~= base + " AND layer = ?"@ + dom + order);
}

/// The query that lists rules with the given filters.
pub fn list_rules_sql(filter_layer: &Option<String>, filter_domain: &Option<String>) -> (r: String)
    ensures r@ == rule_list_query(filter_layer is Some, filter_domain is Some),
{
    let mut sql = "SELECT id, pattern, replacement, layer, domain, confidence, samples, enabled, priority, created_at, updated_at FROM rules WHERE 1=1".to_string();
    let ghost base = sql@;
    if filter_layer.is_some() {
        sql.append(" AND layer = ?");
    }
    let ghost after_layer = sql@;
    proof {
        assert(after_layer == base + (if filter_layer is Some { " AND layer = ?"@ } else { Seq::<char>::empty() }));
    }
    if filter_domain.is_some() {
        sql.append(" AND domain = ?");
    }
    let ghost after_domain = sql@;
    proof {
        assert(after_domain == after_layer + (if filter_domain is Some { " AND domain = ?"@ } else { Seq::<char>::empty() }));
    }
    sql.append(" ORDER BY priority DESC, created_at DESC LIMIT ? OFFSET ?");
    sql
}

} // verus!
