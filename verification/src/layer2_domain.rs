//! Layer 2: domain-specific rules, keywords and protected terms.
use vstd::prelude::*;
use crate::types::{DomainConfig, DomainRule, Rule, RuleLayer, RuleView, rule_view};
use crate::domain_detector::detection_view;
use crate::text::{lowercase, lowercase_chars, str_eq, copy_string, copy_strings, concat_str,
    usize_to_decimal, decimal};

verus! {

broadcast use vstd::string::group_string_axioms;

/// The first index of a configuration named `name`.
pub open spec fn name_index_from(ds: Seq<DomainConfig>, name: Seq<char>, j: int) -> Option<int>
    decreases ds.len() - j,
{
    if j >= ds.len() || j < 0 {
        None
    } else if ds[j].name@ == name {
        Some(j)
    } else {
        name_index_from(ds, name, j + 1)
    }
}

/// The index of the configuration named `name`, if any.
pub open spec fn name_index(ds: Seq<DomainConfig>, name: Seq<char>) -> Option<int> {
    name_index_from(ds, name, 0)
}

/// The first `k` configurations merged by name: a later configuration with
/// the same name takes the place of the earlier one.
pub open spec fn merged_configs(cs: Seq<DomainConfig>, k: int) -> Seq<DomainConfig>
    decreases k,
{
    if k <= 0 {
        Seq::empty()
    } else {
        let m = merged_configs(cs, k - 1);
        match name_index(m, cs[k - 1].name@) {
            Some(i) => m.update(i, cs[k - 1]),
            None => m.push(cs[k - 1]),
        }
    }
}


/// The index of the last of the first `k` configurations named `n`.
pub open spec fn last_named(cs: Seq<DomainConfig>, n: Seq<char>, k: int) -> Option<int>
    decreases k,
{
    if k <= 0 {
        None
    } else if cs[k - 1].name@ == n {
        Some(k - 1)
    } else {
        last_named(cs, n, k - 1)
    }
}

/// No two configurations share a name.
pub open spec fn names_unique(ds: Seq<DomainConfig>) -> bool {
    forall|i: int, j: int| 0 <= i < j < ds.len() ==> (#[trigger] ds[i]).name@ != (#[trigger] ds[j]).name@
}

proof fn lemma_name_index_from(ds: Seq<DomainConfig>, n: Seq<char>, j: int)
    requires 0 <= j <= ds.len(),
    ensures
        name_index_from(ds, n, j) matches Some(i) ==> j <= i < ds.len() && ds[i].name@ == n
            && forall|q: int| j <= q < i ==> (#[trigger] ds[q]).name@ != n,
        name_index_from(ds, n, j) is None ==> forall|q: int| j <= q < ds.len() ==> (#[trigger] ds[q]).name@ != n,
    decreases ds.len() - j,
{
    if j < ds.len() && ds[j].name@ != n {
        lemma_name_index_from(ds, n, j + 1);
    }
}

/// The name lookup finds the first configuration with the name, and nothing
/// when none has it.
proof fn lemma_name_index(ds: Seq<DomainConfig>, n: Seq<char>)
    ensures
        name_index(ds, n) matches Some(i) ==> 0 <= i < ds.len() && ds[i].name@ == n
            && forall|q: int| 0 <= q < i ==> (#[trigger] ds[q]).name@ != n,
        name_index(ds, n) is None <==> forall|q: int| 0 <= q < ds.len() ==> (#[trigger] ds[q]).name@ != n,
{
    lemma_name_index_from(ds, n, 0);
}

proof fn lemma_merged_unique(cs: Seq<DomainConfig>, k: int)
    requires 0 <= k <= cs.len(),
    ensures names_unique(merged_configs(cs, k)),
    decreases k,
{
    if k > 0 {
        lemma_merged_unique(cs, k - 1);
        let m = merged_configs(cs, k - 1);
        let x = cs[k - 1];
        lemma_name_index(m, x.name@);
        let mk = merged_configs(cs, k);
        match name_index(m, x.name@) {
            Some(i) => {
                assert forall|a: int, b: int| 0 <= a < b < mk.len() implies (#[trigger] mk[a]).name@ != (#[trigger] mk[b]).name@ by {
                    assert(mk[a].name@ == m[a].name@);
                    assert(mk[b].name@ == m[b].name@);
                }
            },
            None => {
                assert forall|a: int, b: int| 0 <= a < b < mk.len() implies (#[trigger] mk[a]).name@ != (#[trigger] mk[b]).name@ by {
                    if b < m.len() {
                        assert(mk[a] == m[a] && mk[b] == m[b]);
                    } else {
                        assert(mk[a] == m[a] && mk[b] == x);
                    }
                }
            },
        }
    }
}

/// Loading configurations keeps one per name, and looking a name up gives
/// the last configuration loaded under it; a name never loaded is not found.
pub proof fn lemma_merged_lookup(cs: Seq<DomainConfig>, k: int, n: Seq<char>)
    requires 0 <= k <= cs.len(),
    ensures
        names_unique(merged_configs(cs, k)),
        last_named(cs, n, k) matches Some(j) ==> (name_index(merged_configs(cs, k), n) matches Some(i)
            && merged_configs(cs, k)[i] == cs[j]),
        last_named(cs, n, k) is None ==> name_index(merged_configs(cs, k), n) is None,
    decreases k,
{
    lemma_merged_unique(cs, k);
    if k > 0 {
        lemma_merged_lookup(cs, k - 1, n);
        let m = merged_configs(cs, k - 1);
        let x = cs[k - 1];
        let mk = merged_configs(cs, k);
        lemma_name_index(m, x.name@);
        lemma_name_index(m, n);
        lemma_name_index(mk, n);
        match name_index(m, x.name@) {
            Some(i) => {
                assert(mk == m.update(i, x));
                if x.name@ == n {
                    assert(mk[i] == x);
                    if let Some(i2) = name_index(mk, n) {
                        if i2 < i {
                            assert(mk[i2] == m[i2]);
                        } else if i2 > i {
                            assert(mk[i].name@ == n);
                        }
                    }
                } else {
                    if let Some(i1) = name_index(m, n) {
                        assert(mk[i1] == m[i1]);
                        if let Some(i2) = name_index(mk, n) {
                            if i2 < i1 {
                                assert(mk[i2].name@ == m[i2].name@);
                            } else if i2 > i1 {
                                assert(mk[i1].name@ == n);
                            }
                        }
                    } else {
                        assert forall|q: int| 0 <= q < mk.len() implies (#[trigger] mk[q]).name@ != n by {
                            assert(mk[q].name@ == m[q].name@);
                        }
                    }
                }
            },
            None => {
                assert(mk == m.push(x));
                if x.name@ == n {
                    assert(mk[m.len() as int] == x);
                    if let Some(i2) = name_index(mk, n) {
                        if i2 < m.len() {
                            assert(mk[i2] == m[i2]);
                        }
                    }
                } else {
                    if let Some(i1) = name_index(m, n) {
                        assert(mk[i1] == m[i1]);
                        if let Some(i2) = name_index(mk, n) {
                            if i2 < i1 {
                                assert(mk[i2] == m[i2]);
                            } else if i2 > i1 {
                                assert(mk[i1].name@ == n);
                            }
                        }
                    } else {
                        assert forall|q: int| 0 <= q < mk.len() implies (#[trigger] mk[q]).name@ != n by {
                            if q < m.len() { assert(mk[q] == m[q]); } else { assert(mk[q] == x); }
                        }
                    }
                }
            },
        }
    }
}

/// Rule `i` of domain `c` as the layer produces it.
pub open spec fn domain_rule_ok(r: Rule, c: DomainConfig, i: int) -> bool {
    &&& r.id@ == "domain-"@ + c.name@ + "-"@ + decimal(i as nat)
    &&& r.pattern@ == lowercase_chars(c.rules@[i].pattern@)
    &&& r.replacement@ == c.rules@[i].replacement@
    &&& r.layer == RuleLayer::Domain
    &&& r.domain matches Some(d) && d@ == c.name@
    &&& r.samples == i64::MAX
    &&& r.enabled
    &&& r.priority == 200
}

/// The view of rule `i` of domain `c`.
pub open spec fn domain_rule_view(c: DomainConfig, i: int) -> RuleView {
    ("domain-"@ + c.name@ + "-"@ + decimal(i as nat), lowercase_chars(c.rules@[i].pattern@),
        c.rules@[i].replacement@, 200, true, Some(c.name@))
}

/// The rules of the first `k` domains, domain by domain.
pub open spec fn domain_rule_views(ds: Seq<DomainConfig>, k: int) -> Seq<RuleView>
    decreases k,
{
    if k <= 0 {
        Seq::empty()
    } else {
        domain_rule_views(ds, k - 1) + Seq::new(ds[k - 1].rules@.len(), |i: int| domain_rule_view(ds[k - 1], i))
    }
}


/// Everything a domain configuration holds, as views.
pub open spec fn config_view(c: DomainConfig) -> (Seq<char>, Seq<char>, Seq<Seq<char>>, Seq<Seq<char>>, Seq<(Seq<char>, Seq<char>)>) {
    (c.name@, c.description@, c.keywords@.map_values(|k: String| k@), c.protected_terms@.map_values(|k: String| k@),
        c.rules@.map_values(|r: DomainRule| (r.pattern@, r.replacement@)))
}

/// A copy of a domain configuration.
pub(crate) fn copy_config(c: &DomainConfig) -> (r: DomainConfig)
    ensures
        config_view(r) == config_view(*c),
        detection_view(r) == detection_view(*c),
        r.protected_terms@.map_values(|k: String| k@) == c.protected_terms@.map_values(|k: String| k@),
{
    let keywords = copy_strings(&c.keywords);
    let protected_terms = copy_strings(&c.protected_terms);
    let mut rules: Vec<DomainRule> = Vec::new();
    let mut i: usize = 0;
    while i < c.rules.len()
        invariant
            i <= c.rules@.len(),
            rules@.len() == i,
            forall|k: int| 0 <= k < i ==> (#[trigger] rules@[k]).pattern@ == c.rules@[k].pattern@
                && rules@[k].replacement@ == c.rules@[k].replacement@,
        decreases c.rules.len() - i,
    {
        rules.push(DomainRule {
            pattern: copy_string(&c.rules[i].pattern),
            replacement: copy_string(&c.rules[i].replacement),
        });
        i = i + 1;
    }
    let r = DomainConfig {
        name: copy_string(&c.name),
        description: copy_string(&c.description),
        keywords,
        protected_terms,
        rules,
    };
    proof {
        assert(r.rules@.map_values(|r: DomainRule| (r.pattern@, r.replacement@))
            =~= c.rules@.map_values(|r: DomainRule| (r.pattern@, r.replacement@)));
        assert(r.keywords@.map_values(|k: String| k@) =~= c.keywords@.map_values(|k: String| k@));
        assert(r.protected_terms@.map_values(|k: String| k@) =~= c.protected_terms@.map_values(|k: String| k@));
    }
    r
}

/// The domain a rule is tagged with, as a view.
pub open spec fn rule_domain(r: Rule) -> Option<Seq<char>> {
    match r.domain {
        Some(d) => Some(d@),
        None => None,
    }
}

/// The domain name of each rule of the first `k` domains, domain by domain.
pub open spec fn domain_rule_names(ds: Seq<DomainConfig>, k: int) -> Seq<Option<Seq<char>>>
    decreases k,
{
    if k <= 0 {
        Seq::empty()
    } else {
        domain_rule_names(ds, k - 1) + Seq::new(ds[k - 1].rules@.len(), |i: int| Some(ds[k - 1].name@))
    }
}

/// Layer 2: domain configurations, one per name.
#[derive(Debug)]
pub struct DomainLayer {
    domains: Vec<DomainConfig>,
}

impl DomainLayer {
    /// The layer's configurations in order.
    pub closed spec fn configs(self) -> Seq<DomainConfig> {
        self.domains@
    }

    /// No two configurations share a name.
    #[verifier::type_invariant]
    closed spec fn wf(self) -> bool {
        names_unique(self.domains@)
    }

    /// The rules of all domains, domain by domain.
    pub open spec fn all_rule_views(self) -> Seq<RuleView> {
        domain_rule_views(self.configs(), self.configs().len() as int)
    }

    fn find_index(domains: &Vec<DomainConfig>, name: &str) -> (r: Option<usize>)
        ensures
            r is None <==> name_index(domains@, name@) is None,
            r matches Some(i) ==> name_index(domains@, name@) == Some(i as int)
                && i < domains@.len() && domains@[i as int].name@ == name@,
    {
        let mut j: usize = 0;
        while j < domains.len()
            invariant
                j <= domains@.len(),
                name_index_from(domains@, name@, j as int) == name_index(domains@, name@),
            decreases domains.len() - j,
        {
            if str_eq(domains[j].name.as_str(), name) {
                return Some(j);
            }
            j = j + 1;
        }
        None
    }

    /// Builds the layer from configurations; a later configuration with the
    /// same name as an earlier one takes its place.
    pub fn load_from_configs(configs: Vec<DomainConfig>) -> (r: DomainLayer)
        ensures
            r.configs() == merged_configs(configs@, configs@.len() as int),
            names_unique(r.configs()),
    {
        let mut domains: Vec<DomainConfig> = Vec::new();
        let mut configs = configs;
        let ghost cs = configs@;
        let mut i: usize = 0;
        proof { assert(configs@ =~= cs.subrange(0, cs.len() as int)); }
        assert(cs.len() == configs.len());
        while configs.len() > 0
            invariant
                cs.len() <= usize::MAX,
                i + configs@.len() == cs.len(),
                configs@ == cs.subrange(i as int, cs.len() as int),
                domains@ == merged_configs(cs, i as int),
            decreases configs.len(),
        {
            let c = configs.remove(0);
            proof {
                assert(c == cs[i as int]);
                assert(configs@ =~= cs.subrange(i + 1, cs.len() as int));
            }
            match Self::find_index(&domains, c.name.as_str()) {
                Some(k) => {
                    domains.set(k, c);
                },
                None => {
                    domains.push(c);
                },
            }
            i = i + 1;
        }
        proof { lemma_merged_unique(cs, cs.len() as int); }
        DomainLayer { domains }
    }

    /// The configuration named `name`, if any.
    pub fn get_domain(&self, name: &str) -> (r: Option<&DomainConfig>)
        ensures
            r is None <==> name_index(self.configs(), name@) is None,
            r matches Some(d) ==> *d == self.configs()[name_index(self.configs(), name@)->0],
    {
        match Self::find_index(&self.domains, name) {
            Some(i) => Some(&self.domains[i]),
            None => None,
        }
    }

    fn config_rules(c: &DomainConfig) -> (r: Vec<Rule>)
        ensures
            r@.len() == c.rules@.len(),
            forall|i: int| 0 <= i < r@.len() ==> domain_rule_ok(#[trigger] r@[i], *c, i),
            r@.map_values(|x: Rule| rule_view(x)) == Seq::new(c.rules@.len(), |i: int| domain_rule_view(*c, i)),
    {
        let mut r: Vec<Rule> = Vec::new();
        let mut i: usize = 0;
        let prefix = concat_str("domain-", c.name.as_str());
        let prefix = concat_str(prefix.as_str(), "-");
        while i < c.rules.len()
            invariant
                i <= c.rules@.len(),
                r@.len() == i,
                prefix@ == "domain-"@ + c.name@ + "-"@,
                forall|k: int| 0 <= k < i ==> domain_rule_ok(#[trigger] r@[k], *c, k),
            decreases c.rules.len() - i,
        {
            let num = usize_to_decimal(i);
            let id = concat_str(prefix.as_str(), num.as_str());
            r.push(Rule {
                id,
                pattern: lowercase(c.rules[i].pattern.as_str()),
                replacement: copy_string(&c.rules[i].replacement),
                layer: RuleLayer::Domain,
                domain: Some(copy_string(&c.name)),
                samples: i64::MAX,
                enabled: true,
                priority: 200,
            });
            i = i + 1;
        }
        proof {
            assert(r@.map_values(|x: Rule| rule_view(x)) =~= Seq::new(c.rules@.len(), |i: int| domain_rule_view(*c, i)));
        }
        r
    }

    /// The rules of domain `domain`, converted: ids `domain-<name>-<i>`,
    /// lowercased patterns, priority 200; none for an unknown domain.
    pub fn rules_for_domain(&self, domain: &str) -> (r: Vec<Rule>)
        ensures
            name_index(self.configs(), domain@) is None ==> r@.len() == 0,
            name_index(self.configs(), domain@) matches Some(k) ==> {
                &&& r@.len() == self.configs()[k].rules@.len()
                &&& forall|i: int| 0 <= i < r@.len() ==> domain_rule_ok(#[trigger] r@[i], self.configs()[k], i)
            },
    {
        match Self::find_index(&self.domains, domain) {
            Some(k) => Self::config_rules(&self.domains[k]),
            None => Vec::new(),
        }
    }

    /// The rules of all domains, domain by domain.
    pub fn all_rules(&self) -> (r: Vec<Rule>)
        ensures
            r@.map_values(|x: Rule| rule_view(x)) == self.all_rule_views(),
            r@.map_values(|x: Rule| rule_domain(x)) == domain_rule_names(self.configs(), self.configs().len() as int),
            forall|j: int| 0 <= j < r@.len() ==> (#[trigger] r@[j]).layer == RuleLayer::Domain && r@[j].samples == i64::MAX,
    {
        let mut r: Vec<Rule> = Vec::new();
        let mut i: usize = 0;
        proof {
            assert(r@.map_values(|x: Rule| rule_view(x)) =~= Seq::<RuleView>::empty());
            assert(r@.map_values(|x: Rule| rule_domain(x)) =~= Seq::<Option<Seq<char>>>::empty());
        }
        while i < self.domains.len()
            invariant
                i <= self.domains@.len(),
                r@.map_values(|x: Rule| rule_view(x)) == domain_rule_views(self.domains@, i as int),
                r@.map_values(|x: Rule| rule_domain(x)) == domain_rule_names(self.domains@, i as int),
                forall|j: int| 0 <= j < r@.len() ==> (#[trigger] r@[j]).layer == RuleLayer::Domain && r@[j].samples == i64::MAX,
            decreases self.domains.len() - i,
        {
            let mut more = Self::config_rules(&self.domains[i]);
            let ghost old_r = r@;
            let ghost m = more@;
            proof {
                assert(m.map_values(|x: Rule| rule_domain(x))
                    =~= Seq::new(self.domains@[i as int].rules@.len(), |q: int| Some(self.domains@[i as int].name@)));
            }
            r.append(&mut more);
            proof {
                assert(r@ == old_r + m);
                assert(r@.map_values(|x: Rule| rule_view(x)) =~= old_r.map_values(|x: Rule| rule_view(x))
                    + m.map_values(|x: Rule| rule_view(x)));
                assert(r@.map_values(|x: Rule| rule_domain(x)) =~= old_r.map_values(|x: Rule| rule_domain(x))
                    + m.map_values(|x: Rule| rule_domain(x)));
                assert forall|j: int| 0 <= j < r@.len() implies (#[trigger] r@[j]).layer == RuleLayer::Domain
                    && r@[j].samples == i64::MAX by {
                    if j >= old_r.len() {
                        assert(r@[j] == m[j - old_r.len()]);
                        assert(domain_rule_ok(m[j - old_r.len()], self.domains@[i as int], j - old_r.len()));
                    } else {
                        assert(r@[j] == old_r[j]);
                    }
                }
            }
            i = i + 1;
        }
        r
    }

    /// The protected terms of domain `domain`; none for an unknown domain.
    pub fn protected_terms(&self, domain: &str) -> (r: Vec<String>)
        ensures
            name_index(self.configs(), domain@) is None ==> r@.len() == 0,
            name_index(self.configs(), domain@) matches Some(k) ==>
                r@.map_values(|s: String| s@) == self.configs()[k].protected_terms@.map_values(|s: String| s@),
    {
        match Self::find_index(&self.domains, domain) {
            Some(k) => {
                let r = copy_strings(&self.domains[k].protected_terms);
                proof {
                    assert(r@.map_values(|s: String| s@) =~= self.domains@[k as int].protected_terms@.map_values(|s: String| s@));
                }
                r
            },
            None => Vec::new(),
        }
    }

    /// The names of the loaded domains, in order.
    pub fn domains(&self) -> (r: Vec<String>)
        ensures r@.map_values(|s: String| s@) == self.configs().map_values(|c: DomainConfig| c.name@),
    {
        let mut r: Vec<String> = Vec::new();
        let mut i: usize = 0;
        while i < self.domains.len()
            invariant
                i <= self.domains@.len(),
                r@.map_values(|s: String| s@) == self.domains@.subrange(0, i as int).map_values(|c: DomainConfig| c.name@),
            decreases self.domains.len() - i,
        {
            let ghost old_r = r@;
            r.push(copy_string(&self.domains[i].name));
            proof {
                assert(r@.map_values(|s: String| s@) =~= old_r.map_values(|s: String| s@).push(self.domains@[i as int].name@));
                assert(r@.map_values(|s: String| s@) =~= self.domains@.subrange(0, i + 1).map_values(|c: DomainConfig| c.name@));
            }
            i = i + 1;
        }
        proof { assert(self.domains@.subrange(0, i as int) =~= self.domains@); }
        r
    }

    /// The configurations of all domains.
    pub fn domain_configs(&self) -> (r: &Vec<DomainConfig>)
        ensures r@ == self.configs(),
    {
        &self.domains
    }
}

impl Clone for DomainLayer {
    /// A copy holding the same configurations.
    fn clone(&self) -> (r: Self)
        ensures
            r.configs().map_values(|c: DomainConfig| config_view(c))
                == self.configs().map_values(|c: DomainConfig| config_view(c)),
    {
        proof { use_type_invariant(self); }
        let mut domains: Vec<DomainConfig> = Vec::new();
        let mut i: usize = 0;
        while i < self.domains.len()
            invariant
                i <= self.domains@.len(),
                names_unique(self.domains@),
                domains@.len() == i,
                forall|j: int| 0 <= j < i ==> config_view(#[trigger] domains@[j]) == config_view(self.domains@[j]),
            decreases self.domains.len() - i,
        {
            domains.push(copy_config(&self.domains[i]));
            i = i + 1;
        }
        proof {
            assert forall|a: int, b: int| 0 <= a < b < domains@.len() implies
                (#[trigger] domains@[a]).name@ != (#[trigger] domains@[b]).name@ by {
                assert(config_view(domains@[a]) == config_view(self.domains@[a]));
                assert(config_view(domains@[b]) == config_view(self.domains@[b]));
                assert(self.domains@[a].name@ != self.domains@[b].name@);
            }
            assert(domains@.map_values(|c: DomainConfig| config_view(c))
                =~= self.domains@.map_values(|c: DomainConfig| config_view(c)));
        }
        DomainLayer { domains }
    }
}

} // verus!
