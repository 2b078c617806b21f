//! What a round of the coordinator takes down, asks for and reads out of
//! reports, in terms of what it was told.
use vstd::prelude::*;

use crate::allocation::{answered_with, entry_fits, HolderName, Rejection, SlotName};
use crate::budget::{budget_total, BudgetInputs};
use crate::grant::{
    allocated, claim_keys, claim_list, claims_on, is_claim, reconciled, target_at, targets_from,
    value_or_zero, Allocator, Claim, CoordinatorView, PlaceName, ReportView,
};
use crate::policy::{capped, minimums, PolicyChange, Refusal};
use crate::safety::lemma_group_shares;
use crate::sums::{lemma_sum_zipped, map_sum, zipped};
use crate::tenant::TenantName;

verus! {

/// What a holder is granted, out of the table.
pub open spec fn granted_to(v: CoordinatorView, p: PlaceName) -> u32 {
    if v.table.contains_key(p.0) && v.table[p.0].granted.contains_key(p.1) {
        v.table[p.0].granted[p.1]
    } else {
        0
    }
}

/// What the clients of a holder asked for when its proxy last reported.
pub open spec fn asked_by(v: CoordinatorView, p: PlaceName) -> u32 {
    if v.demand.contains_key(p) {
        v.demand[p]
    } else {
        0
    }
}

/// A grant that is idle, above what its clients ask for, keeps the moment since
/// which it was known to be idle; one that was not known to be idle is idle since
/// the present round; and one that is not idle is forgotten.
pub proof fn law_an_idle_grant_keeps_the_moment_it_became_idle(v: CoordinatorView, p: PlaceName)
    ensures
        v.now is None ==> v.idling() == v,
        v.now matches Some(now) ==> {
            let after = v.idling();
            &&& asked_by(v, p) < granted_to(v, p) ==> after.idle_since.contains_key(p)
            &&& asked_by(v, p) < granted_to(v, p) && v.idle_since.contains_key(p)
                ==> after.idle_since[p] == v.idle_since[p]
            &&& asked_by(v, p) < granted_to(v, p) && !v.idle_since.contains_key(p)
                ==> after.idle_since[p] == now
            &&& asked_by(v, p) >= granted_to(v, p) ==> !after.idle_since.contains_key(p)
            &&& after.table == v.table && after.demand == v.demand && after.held == v.held
            &&& after.budgets == v.budgets && after.policies == v.policies
            &&& after.generation == v.generation && after.generations == v.generations
            &&& after.departed == v.departed && after.release_delay == v.release_delay
            &&& after.now == v.now
        },
{
}

/// Whether a grant is known to have been idle for less than the release delay.
pub open spec fn idle_too_briefly(v: CoordinatorView, p: PlaceName) -> bool {
    &&& v.now is Some
    &&& v.idle_since.contains_key(p)
    &&& v.release_delay > 0
    &&& v.now->0 < v.idle_since[p] + v.release_delay
}

/// A grant may be taken back unless it is known to have been idle for less than
/// the release delay.
pub proof fn law_a_grant_is_kept_only_while_it_is_idle_for_less_than_the_delay(
    v: CoordinatorView,
    p: PlaceName,
)
    ensures
        !v.may_release(p) <==> idle_too_briefly(v, p),
{
}

/// Only a round moves the moments since which grants are idle, and it moves them
/// as taking down who is idle does: a report, a departure and a setting leave
/// them.
pub proof fn law_only_a_round_moves_the_moments<A: Allocator>(
    allocator: A,
    before: CoordinatorView,
    after: CoordinatorView,
    rejection: Option<Rejection>,
    proxy: Seq<char>,
    report: ReportView,
)
    ensures
        reconciled(allocator, before, after, rejection) ==> after.idle_since
            == before.idling().idle_since && after.release_delay == before.release_delay,
        before.reported(proxy, report).idle_since == before.idle_since,
        before.reported(proxy, report).release_delay == before.release_delay,
        before.without(proxy).idle_since == before.idle_since,
        before.without(proxy).release_delay == before.release_delay,
{
    if reconciled(allocator, before, after, rejection) {
        let targets = choose|targets: Map<SlotName, u32>|
            {
                &&& #[trigger] allocated(allocator, before.idling(), targets)
                &&& after == before.idling().settled(targets)
                &&& answered_with(before.idling().entry(targets), rejection)
            };
        assert(after == before.idling().settled(targets));
    }
}

/// Rounds one after another: what each begins with and ends with, and between
/// them nothing that moves the moments since which grants are idle.
pub open spec fn rounds_of<A: Allocator>(
    allocator: A,
    begins: Seq<CoordinatorView>,
    ends: Seq<CoordinatorView>,
    rejections: Seq<Option<Rejection>>,
) -> bool {
    &&& begins.len() == ends.len()
    &&& begins.len() == rejections.len()
    &&& forall|k: int|
        0 <= k < begins.len() ==> reconciled(
            allocator,
            #[trigger] begins[k],
            ends[k],
            rejections[k],
        ) && begins[k].now is Some
    &&& forall|k: int|
        0 <= k < begins.len() - 1 ==> #[trigger] begins[k + 1].idle_since == ends[k].idle_since
            && begins[k + 1].release_delay == ends[k].release_delay
}

proof fn lemma_idle_since<A: Allocator>(
    allocator: A,
    begins: Seq<CoordinatorView>,
    ends: Seq<CoordinatorView>,
    rejections: Seq<Option<Rejection>>,
    p: PlaceName,
    k: int,
)
    requires
        rounds_of(allocator, begins, ends, rejections),
        0 <= k < begins.len(),
        forall|j: int|
            0 <= j <= k ==> asked_by(#[trigger] begins[j], p) < granted_to(begins[j], p),
    ensures
        begins[k].idling().idle_since.contains_key(p),
        begins[k].idling().idle_since[p] == begins[0].idling().idle_since[p],
        begins[k].release_delay == begins[0].release_delay,
    decreases k,
{
    assert(asked_by(begins[k], p) < granted_to(begins[k], p));
    law_an_idle_grant_keeps_the_moment_it_became_idle(begins[k], p);
    if k > 0 {
        lemma_idle_since(allocator, begins, ends, rejections, p, k - 1);
        assert(reconciled(allocator, begins[k - 1], ends[k - 1], rejections[k - 1]));
        law_only_a_round_moves_the_moments(
            allocator,
            begins[k - 1],
            ends[k - 1],
            rejections[k - 1],
            p.1.1,
            arbitrary(),
        );
        assert(begins[k - 1 + 1].idle_since == ends[k - 1].idle_since);
    }
}

/// A grant that stays idle over rounds may be taken back from the round on that
/// comes a release delay after the first of them, and is kept until then: the
/// clock does not start anew.
pub proof fn law_a_grant_idle_for_the_delay_may_be_taken_back<A: Allocator>(
    allocator: A,
    begins: Seq<CoordinatorView>,
    ends: Seq<CoordinatorView>,
    rejections: Seq<Option<Rejection>>,
    p: PlaceName,
)
    requires
        rounds_of(allocator, begins, ends, rejections),
        begins.len() > 0,
        forall|j: int|
            0 <= j < begins.len() ==> asked_by(#[trigger] begins[j], p) < granted_to(begins[j], p),
        !begins[0].idle_since.contains_key(p),
    ensures
        begins.last().idling().may_release(p) <==> begins[0].release_delay == 0
            || begins.last().now->0 >= begins[0].now->0 + begins[0].release_delay,
{
    let last = begins.len() - 1;
    lemma_idle_since(allocator, begins, ends, rejections, p, last);
    assert(reconciled(allocator, begins[0], ends[0], rejections[0]));
    assert(reconciled(allocator, begins[last], ends[last], rejections[last]));
    assert(asked_by(begins[0], p) < granted_to(begins[0], p));
    law_an_idle_grant_keeps_the_moment_it_became_idle(begins[0], p);
    law_an_idle_grant_keeps_the_moment_it_became_idle(begins[last], p);
    law_a_grant_is_kept_only_while_it_is_idle_for_less_than_the_delay(begins[last].idling(), p);
}

/// Whether a holder is one of that tenant that counts on an instance: its proxy
/// has not departed, and reported that its clients ask for connections there or
/// may still have some.
pub open spec fn counts(v: CoordinatorView, i: Seq<char>, t: TenantName, h: HolderName) -> bool {
    &&& h.0 == t
    &&& v.demand.contains_key((i, h)) || v.held.contains_key((i, h))
    &&& !v.departed.contains_key(h.1)
}

/// The claim of a tenant sums up its holders on the instance over all proxies:
/// what their clients ask for and what they are granted, each up to the largest
/// number of a claim.
pub proof fn law_a_claim_sums_up_the_holders_of_its_tenant(
    v: CoordinatorView,
    i: Seq<char>,
    claim: Claim,
)
    requires
        v.held.dom().finite(),
        v.demand.dom().finite(),
        is_claim(v, i, claim),
    ensures
        claim.demand == capped(
            map_sum(
                Map::new(
                    |h: HolderName| counts(v, i, claim.key@, h),
                    |h: HolderName| asked_by(v, (i, h)) as nat,
                ),
            ),
        ),
        claim.current == capped(
            map_sum(
                Map::new(
                    |h: HolderName| counts(v, i, claim.key@, h),
                    |h: HolderName| granted_to(v, (i, h)) as nat,
                ),
            ),
        ),
{
    let t = claim.key@;
    assert(claims_on(v, i, t));
    let h0 = choose|h: HolderName| #[trigger] v.group_set(i, t).contains(h);
    lemma_group_shares(v, Map::empty(), i, t, h0);
    let group = v.group(i, t);
    let asked = Map::new(
        |h: HolderName| counts(v, i, t, h),
        |h: HolderName| asked_by(v, (i, h)) as nat,
    );
    let granted = Map::new(
        |h: HolderName| counts(v, i, t, h),
        |h: HolderName| granted_to(v, (i, h)) as nat,
    );
    lemma_sum_zipped(group, v.demands(i, group));
    lemma_sum_zipped(group, v.currents(i, group));
    assert forall|h: HolderName| group.contains(h) <==> #[trigger] counts(v, i, t, h) by {
        assert(group.contains(h) <==> group.to_set().contains(h));
        assert(group.to_set().contains(h) <==> v.group_set(i, t).contains(h));
    }
    assert(zipped(group, v.demands(i, group)) =~= asked) by {
        assert forall|h: HolderName| group.contains(h) implies v.demands(i, group)[group.index_of(
            h,
        )] == asked_by(v, (i, h)) by {
            let k = group.index_of(h);
            assert(0 <= k < group.len() && group[k] == h);
        }
    }
    assert(zipped(group, v.currents(i, group)) =~= granted) by {
        assert forall|h: HolderName| group.contains(h) implies v.currents(i, group)[group.index_of(
            h,
        )] == granted_to(v, (i, h)) by {
            let k = group.index_of(h);
            assert(0 <= k < group.len() && group[k] == h);
        }
    }
}

/// A tenant claims something exactly where it has a holder that counts and a
/// rule that gives it a share; the claim carries that share; and it may be
/// released exactly where no holder of it is known to have been idle for less
/// than the release delay.
pub proof fn law_a_claim_may_be_released_where_every_holder_may(
    v: CoordinatorView,
    i: Seq<char>,
    claim: Claim,
)
    requires
        v.held.dom().finite(),
        v.demand.dom().finite(),
        is_claim(v, i, claim),
    ensures
        exists|h: HolderName| counts(v, i, claim.key@, h),
        v.policies.policy(i, claim.key@) is Some,
        claim.min == v.policies.policy(i, claim.key@)->0.min,
        claim.max == v.policies.policy(i, claim.key@)->0.max,
        claim.weight == v.policies.policy(i, claim.key@)->0.weight,
        claim.may_release <==> forall|h: HolderName| #[trigger]
            counts(v, i, claim.key@, h) ==> !idle_too_briefly(v, (i, h)),
{
    let t = claim.key@;
    assert(claims_on(v, i, t));
    let h0 = choose|h: HolderName| #[trigger] v.group_set(i, t).contains(h);
    assert(counts(v, i, t, h0));
    lemma_group_shares(v, Map::empty(), i, t, h0);
    let group = v.group(i, t);
    assert forall|h: HolderName| group.contains(h) <==> #[trigger] counts(v, i, t, h) by {
        assert(group.contains(h) <==> group.to_set().contains(h));
        assert(group.to_set().contains(h) <==> v.group_set(i, t).contains(h));
    }
    assert forall|h: HolderName| #[trigger] group.contains(h) implies (v.may_release((i, h))
        <==> !idle_too_briefly(v, (i, h))) by {
        law_a_grant_is_kept_only_while_it_is_idle_for_less_than_the_delay(v, (i, h));
    }
    if forall|h: HolderName| #[trigger]
        counts(v, i, t, h) ==> !idle_too_briefly(v, (i, h)) {
        assert forall|h: HolderName| #[trigger] group.contains(h) implies v.may_release((i, h)) by {
            assert(counts(v, i, t, h));
        }
    }
}

/// Nobody who claims something is left out of what the allocator is asked, and
/// nobody is asked for twice: the list holds one claim for every tenant with a
/// holder that counts and a rule that gives it a share, and no other. The
/// allocator shares out the whole total budget of the instance, and each tenant
/// gets the target that it answered for its claim.
pub proof fn law_every_claim_is_asked_for_once<A: Allocator>(
    allocator: A,
    v: CoordinatorView,
    i: Seq<char>,
    targets: Map<SlotName, u32>,
)
    requires
        targets_from(allocator, v, i, targets),
    ensures
        exists|claims: Vec<Claim>, answers: Vec<u32>|
            {
                &&& #[trigger] call_ensures(
                    A::allocate,
                    (&allocator, budget_total(v.budgets[i].inputs()), &claims),
                    answers,
                )
                &&& forall|t: TenantName| #[trigger]
                    claim_keys(claims@).contains(t) <==> (v.policies.policy(i, t) is Some
                        && exists|h: HolderName| counts(v, i, t, h))
                &&& forall|k: int|
                    #![trigger claims@[k]]
                    0 <= k < claims@.len() ==> {
                        &&& is_claim(v, i, claims@[k])
                        &&& k < answers@.len() ==> value_or_zero(targets, (i, claims@[k].key@))
                            == answers@[k]
                        &&& k >= answers@.len() ==> value_or_zero(targets, (i, claims@[k].key@))
                            == 0
                    }
            },
{
    let (claims, answers) = choose|claims: Vec<Claim>, answers: Vec<u32>|
        {
            &&& claim_list(v, i, claims@)
            &&& #[trigger] call_ensures(
                A::allocate,
                (&allocator, v.budgets[i].total(), &claims),
                answers,
            )
            &&& forall|k: int|
                0 <= k < claims@.len() ==> value_or_zero(targets, (i, (#[trigger] claims@[k]).key@))
                    == target_at(answers@, k)
        };
    assert forall|t: TenantName| #[trigger] claim_keys(claims@).contains(t) <==> (
    v.policies.policy(i, t) is Some && exists|h: HolderName| counts(v, i, t, h)) by {
        if claim_keys(claims@).contains(t) {
            let k = choose|k: int|
                0 <= k < claim_keys(claims@).len() && claim_keys(claims@)[k] == t;
            assert(is_claim(v, i, claims@[k]));
            let h = choose|h: HolderName| #[trigger] v.group_set(i, t).contains(h);
            assert(counts(v, i, t, h));
        }
        if v.policies.policy(i, t) is Some && exists|h: HolderName| counts(v, i, t, h) {
            let h = choose|h: HolderName| counts(v, i, t, h);
            assert(v.group_set(i, t).contains(h));
            assert(claims_on(v, i, t));
        }
    }
}

/// A report says what its proxy asks for, all of it: what it leaves out is not
/// asked for any more. Measured against the present grant it also says what the
/// holder may still have: what it reports, or what it is granted, whichever is
/// more.
pub proof fn law_a_report_is_taken_at_its_word(
    v: CoordinatorView,
    proxy: Seq<char>,
    report: ReportView,
    p: PlaceName,
)
    requires
        p.1.1 == proxy,
    ensures
        ({
            let after = v.reported(proxy, report);
            let slot = (p.0, p.1.0);
            &&& report.usage.contains_key(slot) ==> after.demand.contains_key(p) && after.demand[p]
                == report.usage[slot].demand
            &&& !report.usage.contains_key(slot) ==> !after.demand.contains_key(p)
            &&& v.held.contains_key(p) && report.generation >= v.held[p].changed_at ==> {
                let actual = if report.usage.contains_key(slot) {
                    report.usage[slot].actual
                } else {
                    0
                };
                &&& after.occupied_at(p) >= actual
                &&& after.occupied_at(p) >= granted_to(v, p)
                &&& after.occupied_at(p) == actual || after.occupied_at(p) == granted_to(v, p)
            }
            &&& v.held.contains_key(p) && report.generation < v.held[p].changed_at
                ==> after.occupied_at(p) == v.held[p].occupied
            &&& !v.held.contains_key(p) ==> !after.held.contains_key(p)
            &&& after.held.contains_key(p) ==> after.held[p].changed_at == v.held[p].changed_at
            &&& after.table == v.table && after.generation == v.generation && after.budgets
                == v.budgets && after.policies == v.policies && after.departed == v.departed
            &&& v.reports < u64::MAX ==> after.reports == v.reports + 1
        }),
{
}

/// A proxy that departs takes everything of its with it and nothing of anybody
/// else's, and does not come back.
pub proof fn law_a_departing_proxy_takes_only_its_own(
    v: CoordinatorView,
    proxy: Seq<char>,
    p: PlaceName,
)
    ensures
        ({
            let after = v.without(proxy);
            &&& p.1.1 == proxy ==> !after.demand.contains_key(p) && !after.held.contains_key(p)
                && !after.is_place(p)
            &&& p.1.1 != proxy ==> {
                &&& after.demand.contains_key(p) == v.demand.contains_key(p)
                &&& v.demand.contains_key(p) ==> after.demand[p] == v.demand[p]
                &&& after.held.contains_key(p) == v.held.contains_key(p)
                &&& v.held.contains_key(p) ==> after.held[p] == v.held[p]
                &&& after.departed.contains_key(p.1.1) == v.departed.contains_key(p.1.1)
            }
            &&& after.departed.contains_key(proxy)
            &&& after.table == v.table && after.budgets == v.budgets && after.policies
                == v.policies
        }),
{
}

/// A margin is refused only for an instance that the coordinator does not hold,
/// or where the minimums of the rules that list it would be above the budget
/// that the margin leaves; where it is written it moves the margin of that
/// instance and nothing else.
pub proof fn law_a_margin_is_refused_only_for_a_reason(
    v: CoordinatorView,
    instance: Seq<char>,
    margin: u32,
    other: Seq<char>,
)
    ensures
        v.margin_refused(instance, margin) == Some(Refusal::NoSuchInstance { instance })
            <==> !v.budgets.contains_key(instance),
        v.budgets.contains_key(instance) ==> ({
            let left = budget_total(BudgetInputs { margin, ..v.budgets[instance].inputs() });
            let reserved = minimums(v.policies.rules, instance);
            &&& v.margin_refused(instance, margin) is None <==> reserved <= left
            &&& reserved > left ==> v.margin_refused(instance, margin) == Some(
                Refusal::AboveBudget { instance, minimums: reserved, budget: left },
            )
            &&& v.with_margin(instance, margin).budgets[instance].total() == left
            &&& v.with_margin(instance, margin).budgets[instance].margin == margin
        }),
        other != instance ==> v.with_margin(instance, margin).budgets.contains_key(other)
            == v.budgets.contains_key(other),
        other != instance && v.budgets.contains_key(other) ==> v.with_margin(
            instance,
            margin,
        ).budgets[other] == v.budgets[other],
        v.with_margin(instance, margin).table == v.table,
        v.with_margin(instance, margin).held == v.held,
        v.with_margin(instance, margin).demand == v.demand,
{
}

/// An instance is within its budget where what all its holders may still have
/// together is no more than its total, unless the total is the largest number of
/// its type; and what nobody may still have makes up the rest.
pub proof fn law_what_is_occupied_and_what_is_available_make_up_the_budget(
    v: CoordinatorView,
    i: Seq<char>,
)
    requires
        v.budgets.contains_key(i),
    ensures
        v.occupied_on(i) <= v.budgets[i].total() ==> v.within(i) && v.available(i) + v.occupied_on(
            i,
        ) == v.budgets[i].total(),
        v.occupied_on(i) >= v.budgets[i].total() ==> v.available(i) == 0,
        v.within(i) && v.budgets[i].total() < u32::MAX ==> v.occupied_on(i)
            <= v.budgets[i].total(),
{
}

/// Every holder that may still have connections on an instance counts there, at
/// its full number, and no other.
pub proof fn law_every_holder_is_counted_on_its_instance(
    v: CoordinatorView,
    i: Seq<char>,
    p: PlaceName,
)
    ensures
        v.occupied_map(i).contains_key(p) <==> v.held.contains_key(p) && p.0 == i,
        v.occupied_map(i).contains_key(p) ==> v.occupied_map(i)[p] == v.held[p].occupied,
        v.held.contains_key(p) ==> v.occupied_at(p) == v.held[p].occupied,
        !v.held.contains_key(p) ==> v.occupied_at(p) == 0,
        v.slots_at(p) == granted_to(v, p),
        v.demand_at(p) == asked_by(v, p),
        v.is_place(p) <==> counts(v, p.0, p.1.0, p.1),
{
}

/// A tenant's setting is weighed against the total budget of each instance that
/// its rule lists, as far as the coordinator holds one, and against no other.
pub proof fn law_a_setting_is_weighed_against_the_budgets_that_are_held(
    v: CoordinatorView,
    tenant: Seq<char>,
    change: PolicyChange,
    instances: Seq<Seq<char>>,
    k: int,
)
    requires
        0 <= k < instances.len(),
    ensures
        v.budgets_of(instances).len() == instances.len(),
        v.budgets.contains_key(instances[k]) ==> v.budgets_of(instances)[k] == Some(
            budget_total(v.budgets[instances[k]].inputs()),
        ),
        !v.budgets.contains_key(instances[k]) ==> v.budgets_of(instances)[k] is None,
        v.tenant_change(tenant, change) == v.policies.change(
            tenant,
            change,
            v.budgets_of(v.policies.rules[tenant].instances),
        ),
{
}

/// A round grants nobody anything on an instance that the coordinator holds no
/// budget for, and keeps for every instance that it holds the budget as it is now.
pub proof fn law_a_round_writes_the_present_budgets(
    v: CoordinatorView,
    targets: Map<SlotName, u32>,
    i: Seq<char>,
    h: HolderName,
)
    ensures
        v.entry(targets).contains_key(i) <==> v.budgets.contains_key(i),
        v.budgets.contains_key(i) ==> v.entry(targets)[i].budget == budget_total(
            v.budgets[i].inputs(),
        ),
        v.budgets.contains_key(i) && v.entry(targets)[i].granted.contains_key(h) ==> counts(
            v,
            i,
            h.0,
            h,
        ) && v.entry(targets)[i].granted[h] > 0,
        !entry_fits(v.entry(targets)) ==> v.settled(targets) == v,
{
}

} // verus!
