//! The tenant rules of a cluster: what each tenant may hold, on which
//! instances, and how settings change it.
use vstd::prelude::*;
use vstd::string::StringExecFns;

use crate::allocation::InstanceId;
use crate::grant::{law_a_weight_is_its_value, TenantPolicy, Weight};
use crate::order::{same_key, Dup};
use crate::ordmap::{lists, OrdMap};
use crate::sums::{lemma_sum_empty, lemma_sum_insert, map_sum};
use crate::tenant::{tenant_text, TenantId, TenantName};
use crate::text::{decimal, decimal_text, IntoText};

verus! {

/// The parts of a tenant's share a setting writes. What it leaves out keeps
/// the value the cluster configuration already holds.
#[derive(Debug, Clone, Copy, PartialEq, Eq, Structural)]
pub struct PolicyChange {
    pub min: Option<u32>,
    pub max: Option<u32>,
    pub weight: Option<u32>,
}

impl Default for PolicyChange {
    fn default() -> (change: Self)
        ensures
            change == (PolicyChange { min: None, max: None, weight: None }),
    {
        PolicyChange { min: None, max: None, weight: None }
    }
}

/// Why a setting is refused.
#[derive(Debug, PartialEq, Eq)]
pub enum SettingError {
    NoSuchTenant { tenant: String },
    NoSuchInstance { instance: InstanceId },
    MinAboveMax { min: u32, max: u32 },
    ZeroWeight,
    AboveBudget { instance: InstanceId, minimums: u32, budget: u32 },
}

/// Why a setting is refused, with names as texts.
pub enum Refusal {
    NoSuchTenant { tenant: Seq<char> },
    NoSuchInstance { instance: Seq<char> },
    MinAboveMax { min: u32, max: u32 },
    ZeroWeight,
    AboveBudget { instance: Seq<char>, minimums: u32, budget: u32 },
}

impl View for SettingError {
    type V = Refusal;

    open spec fn view(&self) -> Refusal {
        match *self {
            SettingError::NoSuchTenant { tenant } => Refusal::NoSuchTenant { tenant: tenant@ },
            SettingError::NoSuchInstance { instance } => Refusal::NoSuchInstance {
                instance: instance@,
            },
            SettingError::MinAboveMax { min, max } => Refusal::MinAboveMax { min, max },
            SettingError::ZeroWeight => Refusal::ZeroWeight,
            SettingError::AboveBudget { instance, minimums, budget } => Refusal::AboveBudget {
                instance: instance@,
                minimums,
                budget,
            },
        }
    }
}

/// A refusal in words.
pub open spec fn refusal_text(refusal: Refusal) -> Seq<char> {
    match refusal {
        Refusal::NoSuchTenant { tenant } => {
            "the cluster configuration writes no tenant rule named `"@ + tenant + "`"@
        },
        Refusal::NoSuchInstance { instance } => {
            "the cluster configuration holds no instance named `"@ + instance + "`"@
        },
        Refusal::MinAboveMax { min, max } => {
            "a minimum of "@ + decimal(min as nat) + " is above the maximum of "@ + decimal(
                max as nat,
            )
        },
        Refusal::ZeroWeight => "a weight of 0 would leave the tenant out of every allocation"@,
        Refusal::AboveBudget { instance, minimums, budget } => {
            "the minimums on instance `"@ + instance + "` would total "@ + decimal(minimums as nat)
                + ", above its total budget of "@ + decimal(budget as nat)
        },
    }
}

impl SettingError {
    /// The refusal in words.
    pub fn to_string(&self) -> (text: String)
        ensures
            text@ == refusal_text(self@),
    {
        match self {
            SettingError::NoSuchTenant { tenant } => {
                let mut text = "the cluster configuration writes no tenant rule named `".to_owned();
                text.append(tenant.as_str());
                text.append("`");
                text
            },
            SettingError::NoSuchInstance { instance } => {
                let mut text = "the cluster configuration holds no instance named `".to_owned();
                text.append(instance.as_str());
                text.append("`");
                text
            },
            SettingError::MinAboveMax { min, max } => {
                let mut text = "a minimum of ".to_owned();
                text.append(decimal_text(*min as u64).as_str());
                text.append(" is above the maximum of ");
                text.append(decimal_text(*max as u64).as_str());
                text
            },
            SettingError::ZeroWeight => {
                "a weight of 0 would leave the tenant out of every allocation".to_owned()
            },
            SettingError::AboveBudget { instance, minimums, budget } => {
                let mut text = "the minimums on instance `".to_owned();
                text.append(instance.as_str());
                text.append("` would total ");
                text.append(decimal_text(*minimums as u64).as_str());
                text.append(", above its total budget of ");
                text.append(decimal_text(*budget as u64).as_str());
                text
            },
        }
    }
}

/// What one rule says: the instances it lists and the share it gives on them.
#[verifier::ext_equal]
pub struct RuleView {
    pub instances: Seq<Seq<char>>,
    pub policy: TenantPolicy,
}

/// The names of a list of instances.
pub open spec fn instance_names(instances: Seq<InstanceId>) -> Seq<Seq<char>> {
    Seq::new(instances.len(), |i: int| instances[i]@)
}

#[derive(Debug, PartialEq, Eq)]
pub struct TenantRule {
    pub instances: Vec<InstanceId>,
    pub policy: TenantPolicy,
}

impl View for TenantRule {
    type V = RuleView;

    open spec fn view(&self) -> RuleView {
        RuleView { instances: instance_names(self.instances@), policy: self.policy }
    }
}

/// Copies a list of instances.
pub fn dup_instances(instances: &Vec<InstanceId>) -> (copy: Vec<InstanceId>)
    ensures
        instance_names(copy@) == instance_names(instances@),
{
    let mut copy: Vec<InstanceId> = Vec::new();
    let mut i: usize = 0;
    while i < instances.len()
        invariant
            i <= instances@.len(),
            copy@.len() == i,
            forall|j: int| 0 <= j < i ==> (#[trigger] copy@[j])@ == instances@[j]@,
        decreases instances@.len() - i,
    {
        copy.push(instances[i].clone());
        i += 1;
    }
    assert(instance_names(copy@) =~= instance_names(instances@));
    copy
}

impl Dup for TenantRule {
    fn dup(&self) -> (copy: Self) {
        TenantRule { instances: dup_instances(&self.instances), policy: self.policy }
    }
}

impl Clone for TenantRule {
    fn clone(&self) -> (copy: Self)
        ensures
            copy@ == self@,
    {
        self.dup()
    }
}

impl TenantRule {
    /// Whether the rule lists an instance.
    pub fn lists_instance(&self, instance: &InstanceId) -> (b: bool)
        ensures
            b == self@.instances.contains(instance@),
    {
        let mut i: usize = 0;
        while i < self.instances.len()
            invariant
                i <= self.instances@.len(),
                forall|j: int| 0 <= j < i ==> (#[trigger] self@.instances[j]) != instance@,
            decreases self.instances@.len() - i,
        {
            if same_key(&self.instances[i], instance) {
                assert(self@.instances[i as int] == instance@);
                return true;
            }
            assert(self@.instances[i as int] != instance@);
            i += 1;
        }
        false
    }
}

/// The cluster's rules: the weight of each instance, and each rule by the name
/// under which the cluster configuration writes it.
#[verifier::ext_equal]
pub struct PoliciesView {
    pub weights: Map<Seq<char>, u32>,
    pub rules: Map<Seq<char>, RuleView>,
}

/// What each rule that lists `instance` reserves there.
pub open spec fn reserving(rules: Map<Seq<char>, RuleView>, instance: Seq<char>) -> Map<
    Seq<char>,
    nat,
> {
    Map::new(
        |k: Seq<char>| rules.contains_key(k) && rules[k].instances.contains(instance),
        |k: Seq<char>| rules[k].policy.min as nat,
    )
}

/// A number, or the largest that fits 32 bits.
pub open spec fn capped(n: nat) -> u32 {
    if n > u32::MAX {
        u32::MAX
    } else {
        n as u32
    }
}

/// What all rules reserve on an instance together.
pub open spec fn minimums(rules: Map<Seq<char>, RuleView>, instance: Seq<char>) -> u32 {
    capped(map_sum(reserving(rules, instance)))
}

/// The share that a rule gives once `change` is written into it, where its
/// weight is one.
pub open spec fn changed_policy(policy: TenantPolicy, change: PolicyChange) -> TenantPolicy {
    TenantPolicy {
        min: match change.min {
            Some(min) => min,
            None => policy.min,
        },
        max: match change.max {
            Some(max) => max,
            None => policy.max,
        },
        weight: match change.weight {
            Some(weight) => Weight::of(weight),
            None => policy.weight,
        },
    }
}

/// The answer for the `k`-th instance, where there is one.
pub open spec fn answer(answers: Seq<Option<u32>>, k: int) -> Option<u32> {
    if 0 <= k < answers.len() {
        answers[k]
    } else {
        None
    }
}

/// Whether the minimums on the `k`-th instance are above the budget answered
/// for it.
pub open spec fn short_at(
    rules: Map<Seq<char>, RuleView>,
    instances: Seq<Seq<char>>,
    answers: Seq<Option<u32>>,
    k: int,
) -> bool {
    match answer(answers, k) {
        Some(budget) => minimums(rules, instances[k]) > budget,
        None => false,
    }
}

/// Whether `k` is the first instance whose minimums are above its budget.
pub open spec fn first_short(
    rules: Map<Seq<char>, RuleView>,
    instances: Seq<Seq<char>>,
    answers: Seq<Option<u32>>,
    k: int,
) -> bool {
    &&& 0 <= k < instances.len()
    &&& short_at(rules, instances, answers, k)
    &&& forall|j: int| 0 <= j < k ==> !#[trigger] short_at(rules, instances, answers, j)
}

impl PoliciesView {
    /// The rule that a tenant is under: that of `user@database`, else that of
    /// the user, else that of `*`.
    pub open spec fn resolve(self, tenant: TenantName) -> Option<RuleView> {
        if self.rules.contains_key(tenant_text(tenant)) {
            Some(self.rules[tenant_text(tenant)])
        } else if self.rules.contains_key(tenant.0) {
            Some(self.rules[tenant.0])
        } else if self.rules.contains_key("*"@) {
            Some(self.rules["*"@])
        } else {
            None
        }
    }

    /// The share of a tenant on an instance, where its rule lists the instance.
    pub open spec fn policy(self, instance: Seq<char>, tenant: TenantName) -> Option<TenantPolicy> {
        match self.resolve(tenant) {
            Some(rule) => if rule.instances.contains(instance) {
                Some(rule.policy)
            } else {
                None
            },
            None => None,
        }
    }

    /// The weight of an instance: 1, where none is given.
    pub open spec fn weight(self, instance: Seq<char>) -> nat {
        if self.weights.contains_key(instance) {
            self.weights[instance] as nat
        } else {
            1
        }
    }

    /// The weights of the first `n` of some instances together.
    pub open spec fn weight_before(self, instances: Seq<Seq<char>>, n: int) -> nat
        decreases n,
    {
        if n <= 0 {
            0
        } else {
            self.weight_before(instances, n - 1) + self.weight(instances[n - 1])
        }
    }

    /// The instance that a roll picks: the roll, taken modulo the weights
    /// together, falls into the stretch that the instance's weight takes up.
    pub open spec fn picks(self, instances: Seq<Seq<char>>, roll: nat, k: int) -> bool {
        let total = self.weight_before(instances, instances.len() as int);
        &&& 0 <= k < instances.len()
        &&& self.weight_before(instances, k) <= roll % total < self.weight_before(
            instances,
            k + 1,
        )
    }

    /// The rules with `change` written into the one named `tenant`.
    pub open spec fn with_change(self, tenant: Seq<char>, change: PolicyChange) -> PoliciesView {
        PoliciesView {
            rules: self.rules.insert(
                tenant,
                RuleView {
                    policy: changed_policy(self.rules[tenant].policy, change),
                    ..self.rules[tenant]
                },
            ),
            ..self
        }
    }

    /// What writing `change` into the rule named `tenant` comes to, where
    /// `answers` gives the total budget of each instance that the rule lists.
    pub open spec fn change(
        self,
        tenant: Seq<char>,
        change: PolicyChange,
        answers: Seq<Option<u32>>,
    ) -> Result<PoliciesView, Refusal> {
        if !self.rules.contains_key(tenant) {
            Err(Refusal::NoSuchTenant { tenant })
        } else if change.weight == Some(0u32) {
            Err(Refusal::ZeroWeight)
        } else {
            let policy = changed_policy(self.rules[tenant].policy, change);
            let instances = self.rules[tenant].instances;
            let changed = self.with_change(tenant, change);
            if policy.min > policy.max {
                Err(Refusal::MinAboveMax { min: policy.min, max: policy.max })
            } else if exists|k: int| first_short(changed.rules, instances, answers, k) {
                let k = choose|k: int| first_short(changed.rules, instances, answers, k);
                Err(
                    Refusal::AboveBudget {
                        instance: instances[k],
                        minimums: minimums(changed.rules, instances[k]),
                        budget: answers[k]->0,
                    },
                )
            } else {
                Ok(changed)
            }
        }
    }
}

/// There is at most one first instance that is short.
proof fn lemma_first_short_unique(
    rules: Map<Seq<char>, RuleView>,
    instances: Seq<Seq<char>>,
    answers: Seq<Option<u32>>,
    a: int,
    b: int,
)
    requires
        first_short(rules, instances, answers, a),
        first_short(rules, instances, answers, b),
    ensures
        a == b,
{
    if a < b {
        assert(!short_at(rules, instances, answers, a));
    } else if b < a {
        assert(!short_at(rules, instances, answers, b));
    }
}

/// The cluster's tenant rules, keyed as the cluster config writes them.
///
/// A tenant is resolved by the most specific key that names it: `user@database`
/// first, then `user`, then `*`.
#[derive(Debug, PartialEq, Eq)]
pub struct Policies {
    weights: OrdMap<InstanceId, Weight>,
    rules: OrdMap<String, TenantRule>,
}

impl View for Policies {
    type V = PoliciesView;

    closed spec fn view(&self) -> PoliciesView {
        PoliciesView { weights: self.weights@, rules: self.rules@ }
    }
}

/// Whether `budget` may answer that for an instance of that name.
pub open spec fn answered<F: Fn(&InstanceId) -> Option<u32>>(
    budget: F,
    name: Seq<char>,
    answer: Option<u32>,
) -> bool {
    exists|i: InstanceId| i@ == name && #[trigger] budget.ensures((&i,), answer)
}

/// The rules or the refusal that a change came to.
pub open spec fn outcome(result: Result<Policies, SettingError>) -> Result<PoliciesView, Refusal> {
    match result {
        Ok(policies) => Ok(policies@),
        Err(error) => Err(error@),
    }
}

impl Policies {
    pub fn new() -> (policies: Self)
        ensures
            policies@ == (PoliciesView { weights: Map::empty(), rules: Map::empty() }),
    {
        Policies { weights: OrdMap::new(), rules: OrdMap::new() }
    }

    /// Gives an instance its weight.
    pub fn instance(self, instance: InstanceId, weight: Weight) -> (policies: Self)
        ensures
            policies@ == (PoliciesView {
                weights: self@.weights.insert(instance@, weight@),
                ..self@
            }),
    {
        let mut policies = self;
        policies.weights.insert(instance, weight);
        policies
    }

    /// Writes a rule under the name `key`.
    pub fn tenant<T: IntoText>(self, key: T, rule: TenantRule) -> (policies: Self)
        ensures
            policies@ == (PoliciesView { rules: self@.rules.insert(key.text(), rule@), ..self@ }),
    {
        let mut policies = self;
        policies.rules.insert(key.into_text(), rule);
        policies
    }

    /// The rule written under the name `tenant`.
    pub fn rule(&self, tenant: &str) -> (rule: Option<&TenantRule>)
        ensures
            rule is Some <==> self@.rules.contains_key(tenant@),
            rule matches Some(r) ==> r@ == self@.rules[tenant@],
    {
        self.rules.get(&tenant.to_owned())
    }

    /// The rules with `change` written into the one named `tenant`.
    ///
    /// The name is a rule as the cluster configuration writes it, not a tenant
    /// the rule covers: a setting moves a rule, and the fallback from
    /// `user@database` to `user` to `*` would otherwise write the value into a
    /// rule the operator did not name. `budget` answers an instance's total
    /// budget, or nothing while it has not been derived yet.
    pub fn change_tenant<F: Fn(&InstanceId) -> Option<u32>>(
        &self,
        tenant: &str,
        change: PolicyChange,
        budget: F,
    ) -> (result: Result<Self, SettingError>)
        requires
            forall|i: &InstanceId| budget.requires((i,)),
        ensures
            exists|answers: Seq<Option<u32>>|
                {
                    &&& #[trigger] self@.change(tenant@, change, answers) == outcome(result)
                    &&& self@.rules.contains_key(tenant@) ==> {
                        &&& answers.len() == self@.rules[tenant@].instances.len()
                        &&& forall|k: int|
                            0 <= k < answers.len() ==> answered(
                                budget,
                                self@.rules[tenant@].instances[k],
                                #[trigger] answers[k],
                            )
                    }
                },
    {
        let mut answers: Vec<Option<u32>> = Vec::new();
        if let Some(rule) = self.rule(tenant) {
            let mut i: usize = 0;
            while i < rule.instances.len()
                invariant
                    i <= rule.instances@.len(),
                    answers@.len() == i,
                    rule@ == self@.rules[tenant@],
                    forall|i: &InstanceId| budget.requires((i,)),
                    forall|k: int|
                        0 <= k < i ==> answered(budget, rule@.instances[k], #[trigger] answers@[k]),
                decreases rule.instances@.len() - i,
            {
                let asked = &rule.instances[i];
                let reply = budget(asked);
                answers.push(reply);
                assert(asked@ == rule@.instances[i as int]);
                assert(budget.ensures((asked,), answers@[i as int]));
                assert(answered(budget, rule@.instances[i as int], answers@[i as int]));
                i += 1;
            }
        }
        let result = self.change_tenant_within(tenant, change, &answers);
        assert(self@.change(tenant@, change, answers@) == outcome(result));
        result
    }

    /// The rules with `change` written into the one named `tenant`, where
    /// `answers` gives, in the order in which the rule lists its instances, the
    /// total budget of each, or nothing while it has not been derived yet.
    pub fn change_tenant_within(
        &self,
        tenant: &str,
        change: PolicyChange,
        answers: &Vec<Option<u32>>,
    ) -> (result: Result<Self, SettingError>)
        ensures
            outcome(result) == self@.change(tenant@, change, answers@),
    {
        let rule = match self.rule(tenant) {
            Some(rule) => rule,
            None => return Err(SettingError::NoSuchTenant { tenant: tenant.to_owned() }),
        };
        let weight = match change.weight {
            Some(weight) => match Weight::new(weight) {
                Some(weight) => weight,
                None => return Err(SettingError::ZeroWeight),
            },
            None => rule.policy.weight,
        };
        let policy = TenantPolicy {
            min: match change.min {
                Some(min) => min,
                None => rule.policy.min,
            },
            max: match change.max {
                Some(max) => max,
                None => rule.policy.max,
            },
            weight,
        };
        assert(policy == changed_policy(self@.rules[tenant@].policy, change));
        if policy.min > policy.max {
            return Err(SettingError::MinAboveMax { min: policy.min, max: policy.max });
        }
        let instances = dup_instances(&rule.instances);
        let mut changed = self.clone();
        let replaced = TenantRule { instances: dup_instances(&rule.instances), policy };
        changed.rules.insert(tenant.to_owned(), replaced);
        let ghost names = self@.rules[tenant@].instances;
        assert(changed@ == self@.with_change(tenant@, change));
        assert(instance_names(instances@) == names);
        let mut i: usize = 0;
        while i < instances.len()
            invariant
                i <= instances@.len(),
                instance_names(instances@) == names,
                names.len() == instances@.len(),
                names == self@.rules[tenant@].instances,
                self@.rules.contains_key(tenant@),
                change.weight != Some(0u32),
                policy == changed_policy(self@.rules[tenant@].policy, change),
                policy.min <= policy.max,
                changed@ == self@.with_change(tenant@, change),
                forall|j: int|
                    0 <= j < i ==> !#[trigger] short_at(changed@.rules, names, answers@, j),
            decreases instances@.len() - i,
        {
            assert(names[i as int] == instances@[i as int]@);
            let minimums: u32 = changed.minimums_on(&instances[i]);
            let answered: Option<u32> = if i < answers.len() { answers[i] } else { None };
            if let Some(budget) = answered {
                if minimums > budget {
                    proof {
                        assert(first_short(changed@.rules, names, answers@, i as int));
                        let k = choose|k: int| first_short(changed@.rules, names, answers@, k);
                        lemma_first_short_unique(changed@.rules, names, answers@, k, i as int);
                    }
                    return Err(
                        SettingError::AboveBudget {
                            instance: instances[i].clone(),
                            minimums,
                            budget,
                        },
                    );
                }
            }
            i += 1;
        }
        proof {
            assert(!(exists|k: int| first_short(changed@.rules, names, answers@, k)));
        }
        Ok(changed)
    }

    /// What every rule on `instance` reserves together.
    pub fn minimums_on(&self, instance: &InstanceId) -> (total: u32)
        ensures
            total == minimums(self@.rules, instance@),
    {
        let n: usize = self.rules.len();
        let ghost keys = self.rules.keys();
        let ghost all = reserving(self@.rules, instance@);
        let ghost mut seen = Map::<Seq<char>, nat>::empty();
        let mut total: u32 = 0;
        let mut i: usize = 0;
        proof {
            lemma_sum_empty(seen);
        }
        while i < n
            invariant
                n == keys.len(),
                i <= n,
                keys == self.rules.keys(),
                self@.rules == self.rules@,
                lists::<String, RuleView>(keys, self.rules@),
                all == reserving(self@.rules, instance@),
                seen.dom().finite(),
                forall|k: Seq<char>| #[trigger]
                    seen.contains_key(k) <==> all.contains_key(k) && (exists|j: int|
                        0 <= j < i && keys[j] == k),
                forall|k: Seq<char>| #[trigger] seen.contains_key(k) ==> seen[k] == all[k],
                total == capped(map_sum(seen)),
            decreases n - i,
        {
            let rule = self.rules.value_at(i);
            let ghost key = keys[i as int];
            if rule.lists_instance(instance) {
                proof {
                    assert(!seen.contains_key(key));
                    lemma_sum_insert(seen, key, rule.policy.min as nat);
                    seen = seen.insert(key, rule.policy.min as nat);
                }
                total = total.saturating_add(rule.policy.min);
            }
            i += 1;
        }
        proof {
            assert(seen =~= all) by {
                assert forall|k: Seq<char>| #[trigger] all.contains_key(k) implies seen.contains_key(
                    k,
                ) by {
                    assert(self.rules@.contains_key(k));
                    let j = choose|j: int| 0 <= j < keys.len() && keys[j] == k;
                    assert(0 <= j < i && keys[j] == k);
                }
            }
        }
        total
    }

    /// The rule that a tenant is under.
    pub fn resolve(&self, tenant: &TenantId) -> (rule: Option<&TenantRule>)
        ensures
            rule is Some <==> self@.resolve(tenant@) is Some,
            rule matches Some(r) ==> self@.resolve(tenant@) == Some(r@),
    {
        match self.rules.get(&tenant.to_string()) {
            Some(rule) => Some(rule),
            None => match self.rule(tenant.user()) {
                Some(rule) => Some(rule),
                None => self.rule("*"),
            },
        }
    }

    /// The share of a tenant on an instance, where its rule lists the instance.
    pub fn policy(&self, instance: &InstanceId, tenant: &TenantId) -> (policy: Option<TenantPolicy>)
        ensures
            policy == self@.policy(instance@, tenant@),
    {
        match self.resolve(tenant) {
            Some(rule) => if rule.lists_instance(instance) {
                Some(rule.policy)
            } else {
                None
            },
            None => None,
        }
    }

    fn weight(&self, instance: &InstanceId) -> (weight: u32)
        ensures
            weight == self@.weight(instance@),
            weight > 0,
    {
        match self.weights.get(instance) {
            Some(weight) => weight.get(),
            None => 1,
        }
    }

    /// The weights of the instances that a tenant's rule lists, together.
    fn total_weight(&self, instances: &Vec<InstanceId>) -> (total: u32)
        requires
            self@.weight_before(instance_names(instances@), instances@.len() as int) <= u32::MAX,
        ensures
            total == self@.weight_before(instance_names(instances@), instances@.len() as int),
            total == 0 <==> instances@.len() == 0,
    {
        let ghost names = instance_names(instances@);
        let mut total: u32 = 0;
        let mut i: usize = 0;
        while i < instances.len()
            invariant
                i <= instances@.len(),
                names == instance_names(instances@),
                total == self@.weight_before(names, i as int),
                self@.weight_before(names, instances@.len() as int) <= u32::MAX,
                total == 0 <==> i == 0,
            decreases instances@.len() - i,
        {
            proof {
                self@.lemma_weight_monotone(names, i + 1, instances@.len() as int);
            }
            total = total + self.weight(&instances[i]);
            i += 1;
        }
        total
    }

    /// Whether the weights of the instances that a tenant's rule lists add up
    /// to a number below 2^32, so that its clients can be routed.
    pub fn can_route(&self, tenant: &TenantId) -> (b: bool)
        ensures
            b == (self@.resolve(tenant@) matches Some(rule) ==> self@.weight_before(
                rule.instances,
                rule.instances.len() as int,
            ) <= u32::MAX),
    {
        let rule = match self.resolve(tenant) {
            Some(rule) => rule,
            None => return true,
        };
        let ghost names = rule@.instances;
        let mut total: u64 = 0;
        let mut i: usize = 0;
        while i < rule.instances.len()
            invariant
                i <= rule.instances@.len(),
                names == rule@.instances,
                self@.resolve(tenant@) == Some(rule@),
                total == self@.weight_before(names, i as int),
                total <= u32::MAX,
            decreases rule.instances@.len() - i,
        {
            total = total + self.weight(&rule.instances[i]) as u64;
            assert(names[i as int] == rule.instances@[i as int]@);
            if total > u32::MAX as u64 {
                proof {
                    self@.lemma_weight_monotone(names, i + 1, names.len() as int);
                }
                return false;
            }
            i += 1;
        }
        true
    }

    /// Picks the instance a new client connection of `tenant` goes to, by the
    /// weights of the instances its rule lists. `roll` is given the sum of those
    /// weights and returns a number below it.
    pub fn route<F: FnOnce(u32) -> u32>(&self, tenant: &TenantId, roll: F) -> (instance: Option<
        &InstanceId,
    >)
        requires
            forall|total: u32| total > 0 ==> #[trigger] roll.requires((total,)),
            self@.resolve(tenant@) matches Some(rule) ==> self@.weight_before(
                rule.instances,
                rule.instances.len() as int,
            ) <= u32::MAX,
        ensures
            match self@.resolve(tenant@) {
                None => instance is None,
                Some(rule) => {
                    &&& instance is None <==> rule.instances.len() == 0
                    &&& instance matches Some(i) ==> exists|rolled: u32, k: int|
                        #![trigger self@.picks(rule.instances, rolled as nat, k)]
                        {
                            &&& roll.ensures(
                                (self@.weight_before(
                                    rule.instances,
                                    rule.instances.len() as int,
                                ) as u32,),
                                rolled,
                            )
                            &&& self@.picks(rule.instances, rolled as nat, k)
                            &&& i@ == rule.instances[k]
                        }
                },
            },
    {
        let rule = match self.resolve(tenant) {
            Some(rule) => rule,
            None => return None,
        };
        let total: u32 = self.total_weight(&rule.instances);
        if total == 0 {
            return None;
        }
        let rolled: u32 = roll(total);
        let instance = self.route_by(tenant, rolled);
        proof {
            let names = rule@.instances;
            let k = choose|k: int|
                #[trigger] self@.picks(names, rolled as nat, k) && instance->0@ == names[k];
            assert(self@.picks(names, rolled as nat, k));
        }
        instance
    }

    /// The instance that `rolled` picks for a new client connection of
    /// `tenant`.
    pub fn route_by(&self, tenant: &TenantId, rolled: u32) -> (instance: Option<&InstanceId>)
        requires
            self@.resolve(tenant@) matches Some(rule) ==> self@.weight_before(
                rule.instances,
                rule.instances.len() as int,
            ) <= u32::MAX,
        ensures
            match self@.resolve(tenant@) {
                None => instance is None,
                Some(rule) => {
                    &&& instance is None <==> rule.instances.len() == 0
                    &&& instance matches Some(i) ==> exists|k: int|
                        #[trigger] self@.picks(rule.instances, rolled as nat, k) && i@
                            == rule.instances[k]
                },
            },
    {
        let rule = match self.resolve(tenant) {
            Some(rule) => rule,
            None => return None,
        };
        let total: u32 = self.total_weight(&rule.instances);
        if total == 0 {
            return None;
        }
        let ghost names = rule@.instances;
        let mut left: u32 = rolled % total;
        let mut i: usize = 0;
        while i < rule.instances.len()
            invariant
                i <= rule.instances@.len(),
                names == rule@.instances,
                self@.resolve(tenant@) == Some(rule@),
                total == self@.weight_before(names, names.len() as int),
                total > 0,
                left == rolled as int % total as int - self@.weight_before(names, i as int),
            decreases rule.instances@.len() - i,
        {
            let weight: u32 = self.weight(&rule.instances[i]);
            assert(names[i as int] == rule.instances@[i as int]@);
            assert(self@.weight_before(names, i + 1) == self@.weight_before(names, i as int)
                + weight);
            if left < weight {
                let picked = &rule.instances[i];
                assert(self@.picks(names, rolled as nat, i as int) && picked@ == names[i as int]);
                assert(self@.resolve(tenant@)->0.instances.len() != 0);
                return Some(picked);
            }
            left = left - weight;
            i += 1;
        }
        assert(false);
        None
    }
}

impl PoliciesView {
    pub proof fn lemma_weight_monotone(self, instances: Seq<Seq<char>>, a: int, b: int)
        requires
            0 <= a <= b,
        ensures
            self.weight_before(instances, a) <= self.weight_before(instances, b),
        decreases b - a,
    {
        if a < b {
            self.lemma_weight_monotone(instances, a, b - 1);
        }
    }
}

impl Dup for Policies {
    fn dup(&self) -> (copy: Self) {
        Policies { weights: self.weights.dup(), rules: self.rules.dup() }
    }
}

impl Clone for Policies {
    fn clone(&self) -> (copy: Self)
        ensures
            copy@ == self@,
    {
        self.dup()
    }
}

impl Default for Policies {
    fn default() -> (policies: Self)
        ensures
            policies@ == (PoliciesView { weights: Map::empty(), rules: Map::empty() }),
    {
        Policies::new()
    }
}

/// A refused setting leaves no trace, and one that is taken moves only the rule
/// it names and only the parts it names.
pub proof fn law_a_setting_moves_only_what_it_names(
    policies: PoliciesView,
    tenant: Seq<char>,
    change: PolicyChange,
    answers: Seq<Option<u32>>,
    other: Seq<char>,
)
    requires
        policies.change(tenant, change, answers) is Ok,
    ensures
        ({
            let changed = policies.change(tenant, change, answers)->Ok_0;
            &&& changed.weights == policies.weights
            &&& changed.rules.dom() == policies.rules.dom()
            &&& other != tenant && policies.rules.contains_key(other) ==> changed.rules[other]
                == policies.rules[other]
            &&& changed.rules[tenant].instances == policies.rules[tenant].instances
            &&& change.min is None ==> changed.rules[tenant].policy.min
                == policies.rules[tenant].policy.min
            &&& change.max is None ==> changed.rules[tenant].policy.max
                == policies.rules[tenant].policy.max
            &&& change.weight is None ==> changed.rules[tenant].policy.weight
                == policies.rules[tenant].policy.weight
        }),
{
    let changed = policies.change(tenant, change, answers)->Ok_0;
    assert(changed.rules.dom() =~= policies.rules.dom());
}

/// Once a setting is taken, a minimum is not above the maximum of its rule, and
/// the minimums on every instance that the rule lists stay within the budget
/// answered for it.
pub proof fn law_a_setting_keeps_minimums_within_budgets(
    policies: PoliciesView,
    tenant: Seq<char>,
    change: PolicyChange,
    answers: Seq<Option<u32>>,
    k: int,
)
    requires
        policies.change(tenant, change, answers) is Ok,
        0 <= k < policies.rules[tenant].instances.len(),
    ensures
        ({
            let changed = policies.change(tenant, change, answers)->Ok_0;
            &&& changed.rules[tenant].policy.min <= changed.rules[tenant].policy.max
            &&& answer(answers, k) matches Some(budget) ==> minimums(
                changed.rules,
                policies.rules[tenant].instances[k],
            ) <= budget
        }),
{
    let changed = policies.change(tenant, change, answers)->Ok_0;
    let instances = policies.rules[tenant].instances;
    if short_at(changed.rules, instances, answers, k) {
        lemma_some_first_short(changed.rules, instances, answers, k);
    }
}

proof fn lemma_some_first_short(
    rules: Map<Seq<char>, RuleView>,
    instances: Seq<Seq<char>>,
    answers: Seq<Option<u32>>,
    k: int,
)
    requires
        0 <= k < instances.len(),
        short_at(rules, instances, answers, k),
    ensures
        exists|j: int| first_short(rules, instances, answers, j),
    decreases k,
{
    if exists|j: int| 0 <= j < k && #[trigger] short_at(rules, instances, answers, j) {
        let j = choose|j: int| 0 <= j < k && #[trigger] short_at(rules, instances, answers, j);
        lemma_some_first_short(rules, instances, answers, j);
    } else {
        assert(first_short(rules, instances, answers, k));
    }
}

/// A tenant on several instances is routed by their weights: of the rolls below
/// the weights together, exactly those in a stretch as long as its weight pick
/// an instance, and every roll picks exactly one.
pub proof fn law_rolls_are_shared_by_weight(
    policies: PoliciesView,
    instances: Seq<Seq<char>>,
    roll: nat,
    a: int,
    b: int,
)
    requires
        roll < policies.weight_before(instances, instances.len() as int),
        0 <= a < instances.len(),
        0 <= b < instances.len(),
    ensures
        policies.picks(instances, roll, a) <==> policies.weight_before(instances, a) <= roll
            < policies.weight_before(instances, a) + policies.weight(instances[a]),
        policies.picks(instances, roll, a) && policies.picks(instances, roll, b) ==> a == b,
{
    let total = policies.weight_before(instances, instances.len() as int);
    assert(roll % total == roll) by {
        vstd::arithmetic::div_mod::lemma_small_mod(roll, total);
    }
    if a < b {
        policies.lemma_weight_monotone(instances, a + 1, b);
    } else if b < a {
        policies.lemma_weight_monotone(instances, b + 1, a);
    }
}

/// The most specific rule that names a tenant is the one it is under.
pub proof fn law_the_most_specific_rule_comes_first(policies: PoliciesView, tenant: TenantName)
    ensures
        policies.rules.contains_key(tenant_text(tenant)) ==> policies.resolve(tenant) == Some(
            policies.rules[tenant_text(tenant)],
        ),
        !policies.rules.contains_key(tenant_text(tenant)) && policies.rules.contains_key(tenant.0)
            ==> policies.resolve(tenant) == Some(policies.rules[tenant.0]),
        !policies.rules.contains_key(tenant_text(tenant)) && !policies.rules.contains_key(tenant.0)
            && policies.rules.contains_key("*"@) ==> policies.resolve(tenant) == Some(
            policies.rules["*"@],
        ),
        !policies.rules.contains_key(tenant_text(tenant)) && !policies.rules.contains_key(tenant.0)
            && !policies.rules.contains_key("*"@) ==> policies.resolve(tenant) is None,
{
}

/// A setting that is taken is what the rule says from then on.
pub proof fn law_a_setting_is_written_as_it_is_given(
    policies: PoliciesView,
    tenant: Seq<char>,
    change: PolicyChange,
    answers: Seq<Option<u32>>,
)
    requires
        policies.change(tenant, change, answers) is Ok,
    ensures
        ({
            let policy = policies.change(tenant, change, answers)->Ok_0.rules[tenant].policy;
            &&& change.min matches Some(min) ==> policy.min == min
            &&& change.max matches Some(max) ==> policy.max == max
            &&& change.weight matches Some(weight) ==> policy.weight@ == weight && weight > 0
        }),
{
    if let Some(weight) = change.weight {
        law_a_weight_is_its_value(weight);
    }
}

/// A setting is refused only for one of four reasons: no rule has the name, the
/// weight is 0, the minimum would be above the maximum, or the minimums on some
/// instance that the rule lists would be above the budget answered for it. The
/// refusal says which, and of the last, where and by how much.
pub proof fn law_a_setting_is_refused_only_for_a_reason(
    policies: PoliciesView,
    tenant: Seq<char>,
    change: PolicyChange,
    answers: Seq<Option<u32>>,
)
    ensures
        ({
            let known = policies.rules.contains_key(tenant);
            let policy = policies.rules[tenant].policy;
            let min = if change.min is Some {
                change.min->0
            } else {
                policy.min
            };
            let max = if change.max is Some {
                change.max->0
            } else {
                policy.max
            };
            let result = policies.change(tenant, change, answers);
            &&& result == Err::<PoliciesView, Refusal>(Refusal::NoSuchTenant { tenant }) <==> !known
            &&& known ==> (result == Err::<PoliciesView, Refusal>(Refusal::ZeroWeight)
                <==> change.weight == Some(0u32))
            &&& known && change.weight != Some(0u32) ==> (result == Err::<PoliciesView, Refusal>(
                Refusal::MinAboveMax { min, max },
            ) <==> min > max)
            &&& result matches Err(Refusal::AboveBudget { instance, minimums: reserved, budget })
                ==> {
                &&& policies.rules[tenant].instances.contains(instance)
                &&& answers.contains(Some(budget))
                &&& reserved > budget
                &&& reserved == minimums(policies.with_change(tenant, change).rules, instance)
            }
            &&& result matches Err(refusal) ==> refusal is NoSuchTenant || refusal is ZeroWeight
                || refusal is MinAboveMax || refusal is AboveBudget
        }),
{
    let result = policies.change(tenant, change, answers);
    if result is Err && result->Err_0 is AboveBudget {
        let instances = policies.rules[tenant].instances;
        let rules = policies.with_change(tenant, change).rules;
        let k = choose|k: int| first_short(rules, instances, answers, k);
        assert(instances[k] == result->Err_0->AboveBudget_instance);
        assert(answers[k] == Some(result->Err_0->AboveBudget_budget));
    }
}

/// What is reserved on an instance is the sum of the minimums of the rules that
/// list it, up to the largest number of their type: a rule that is added adds
/// its minimum where it lists the instance, and nothing where it does not.
pub proof fn law_each_rule_reserves_its_minimum_where_it_lists_the_instance(
    rules: Map<Seq<char>, RuleView>,
    name: Seq<char>,
    rule: RuleView,
    instance: Seq<char>,
)
    requires
        rules.dom().finite(),
        !rules.contains_key(name),
    ensures
        minimums(Map::empty(), instance) == 0,
        !rule.instances.contains(instance) ==> minimums(rules.insert(name, rule), instance)
            == minimums(rules, instance),
        rule.instances.contains(instance) && minimums(rules, instance) + rule.policy.min
            <= u32::MAX ==> minimums(rules.insert(name, rule), instance) == minimums(
            rules,
            instance,
        ) + rule.policy.min,
        rule.instances.contains(instance) && minimums(rules, instance) + rule.policy.min
            > u32::MAX ==> minimums(rules.insert(name, rule), instance) == u32::MAX,
{
    let none = reserving(Map::empty(), instance);
    assert(none.dom() =~= Set::empty());
    lemma_sum_empty(none);
    let before = reserving(rules, instance);
    assert(before.dom().subset_of(rules.dom()));
    vstd::set_lib::lemma_len_subset(before.dom(), rules.dom());
    let after = reserving(rules.insert(name, rule), instance);
    if rule.instances.contains(instance) {
        assert(after =~= before.insert(name, rule.policy.min as nat));
        lemma_sum_insert(before, name, rule.policy.min as nat);
    } else {
        assert(after =~= before);
    }
}

/// A tenant has a share of an instance exactly where the rule it is under lists
/// the instance, and it is the share that the rule gives.
pub proof fn law_a_share_comes_from_the_rule_that_lists_the_instance(
    policies: PoliciesView,
    instance: Seq<char>,
    tenant: TenantName,
)
    ensures
        policies.policy(instance, tenant) matches Some(policy) ==> {
            &&& policies.resolve(tenant) is Some
            &&& policies.resolve(tenant)->0.instances.contains(instance)
            &&& policies.resolve(tenant)->0.policy == policy
        },
        policies.policy(instance, tenant) is None && policies.resolve(tenant) is Some
            ==> !policies.resolve(tenant)->0.instances.contains(instance),
        policies.rules.contains_key(tenant.0 + "@"@ + tenant.1) ==> policies.resolve(tenant)
            == Some(policies.rules[tenant.0 + "@"@ + tenant.1]),
{
}

/// Every roll picks an instance, an instance takes up as many rolls as its
/// weight says, and one without a weight takes up one.
pub proof fn law_every_roll_picks_an_instance(
    policies: PoliciesView,
    instances: Seq<Seq<char>>,
    roll: nat,
)
    requires
        policies.weight_before(instances, instances.len() as int) > 0,
    ensures
        exists|k: int| #[trigger] policies.picks(instances, roll, k),
        forall|k: int|
            0 <= k < instances.len() ==> #[trigger] policies.weight_before(instances, k + 1)
                - policies.weight_before(instances, k) == if policies.weights.contains_key(
                instances[k],
            ) {
                policies.weights[instances[k]] as int
            } else {
                1
            },
        policies.weight_before(instances, 0) == 0,
{
    let total = policies.weight_before(instances, instances.len() as int);
    let at = roll % total;
    assert(at < total) by (nonlinear_arith)
        requires
            at == roll % total,
            total > 0,
    ;
    let k = lemma_stretch_of(policies, instances, at, instances.len() as int);
    assert(policies.picks(instances, roll, k));
}

proof fn lemma_stretch_of(
    policies: PoliciesView,
    instances: Seq<Seq<char>>,
    at: nat,
    n: int,
) -> (k: int)
    requires
        0 <= n <= instances.len(),
        at < policies.weight_before(instances, n),
    ensures
        0 <= k < n,
        policies.weight_before(instances, k) <= at < policies.weight_before(instances, k + 1),
    decreases n,
{
    if n > 0 && at < policies.weight_before(instances, n - 1) {
        lemma_stretch_of(policies, instances, at, n - 1)
    } else {
        n - 1
    }
}

/// A number is kept as it is where it fits, and as the largest that fits where it
/// does not.
pub proof fn law_a_number_is_capped_only_where_it_does_not_fit(n: nat)
    ensures
        n <= u32::MAX ==> capped(n) == n,
        n > u32::MAX ==> capped(n) == u32::MAX,
{
}

} // verus!
