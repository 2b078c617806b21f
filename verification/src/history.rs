//! What holds all through a coordinator's life, in whatever order things happen.
use vstd::prelude::*;

use crate::allocation::{
    answered_with, no_empty_grants, proxy_grants, table_slots, table_total, Rejection, SlotName,
    TableView,
};
use crate::grant::{
    allocated, claim_keys, claim_list, claims_on, initial_coordinator, proxy_moved, recomputed, reconciled,
    target_at, targets_from, value_or_zero, Allocator, Claim, CoordinatorView, PlaceName,
    ReportView,
};
use crate::ordmap::lemma_rising_distinct;
use crate::policy::PoliciesView;
use crate::safety::{
    having, law_connections_stay_within_the_budget, law_departing_is_safe,
    law_following_a_grant_is_safe, law_idling_keeps_sound, law_reading_grants_is_safe,
    law_reconciling_is_safe, law_reporting_truly_is_safe, law_settling_keeps_sound,
    law_targets_within_the_budget_are_taken, lemma_tenants_finite, reading, safe, sound,
    tenant_targets, tenants_on, true_report, ProxiesView,
};
use crate::sums::{
    lemma_seq_sum_prefix, lemma_sum_drop_zeros, lemma_sum_empty, lemma_sum_monotone,
    lemma_sum_zipped, map_sum, seq_sum, zipped,
};
use crate::tenant::{TenantId, TenantName};

verus! {

/// The proxy's grants stay the same exactly where none of them moves.
proof fn lemma_same_grants(before: TableView, after: TableView, proxy: Seq<char>)
    requires
        no_empty_grants(before),
        no_empty_grants(after),
    ensures
        proxy_grants(before, proxy) == proxy_grants(after, proxy) <==> !proxy_moved(
            before,
            after,
            proxy,
        ),
{
    let a = proxy_grants(before, proxy);
    let b = proxy_grants(after, proxy);
    assert forall|p: PlaceName| p.1.1 == proxy implies #[trigger] table_slots(before, p.0, p.1)
        == value_or_zero(a, (p.0, p.1.0)) && table_slots(after, p.0, p.1) == value_or_zero(
        b,
        (p.0, p.1.0),
    ) by {
        assert(p.1 == (p.1.0, proxy));
    }
    if a == b {
        assert forall|p: PlaceName|
            p.1.1 == proxy implies !#[trigger] CoordinatorView::moved(before, after, p) by {
            assert(table_slots(before, p.0, p.1) == value_or_zero(a, (p.0, p.1.0)));
        }
    }
    if !proxy_moved(before, after, proxy) {
        assert forall|s: SlotName|
            (#[trigger] a.contains_key(s) == b.contains_key(s)) && (a.contains_key(s) ==> a[s]
                == b[s]) by {
            let p: PlaceName = (s.0, (s.1, proxy));
            assert(!CoordinatorView::moved(before, after, p));
            assert(table_slots(before, p.0, p.1) == value_or_zero(a, s));
            if a.contains_key(s) {
                assert(before[s.0].granted[(s.1, proxy)] > 0);
            }
            if b.contains_key(s) {
                assert(after[s.0].granted[(s.1, proxy)] > 0);
            }
        }
        assert(a =~= b);
    }
}

/// The generation of a proxy's grants moves exactly where a grant of it does:
/// to the coordinator's next generation, which is one more than the proxy's own
/// where its grants were the last to move.
pub proof fn law_a_generation_moves_with_a_grant<A: Allocator>(
    allocator: A,
    before: CoordinatorView,
    after: CoordinatorView,
    proxy: Seq<char>,
)
    requires
        sound(before),
        before.generation < u64::MAX,
        recomputed(allocator, before, after),
    ensures
        after.grants_of(proxy).grants == before.grants_of(proxy).grants
            ==> after.grants_of(proxy).generation == before.grants_of(proxy).generation,
        after.grants_of(proxy).grants != before.grants_of(proxy).grants ==> {
            &&& after.grants_of(proxy).generation == before.generation + 1
            &&& after.grants_of(proxy).generation > before.grants_of(proxy).generation
            &&& before.grants_of(proxy).generation == before.generation
                ==> after.grants_of(proxy).generation == before.grants_of(proxy).generation + 1
        },
        after.generation == before.generation || after.generation == before.generation + 1,
        after.generation == before.generation <==> forall|q: Seq<char>|
            #[trigger] after.grants_of(q).grants == before.grants_of(q).grants,
{
    let rejection = choose|rejection: Option<Rejection>| #[trigger]
        reconciled(allocator, before, after, rejection);
    let idle = before.idling();
    let targets = choose|targets: Map<SlotName, u32>|
        {
            &&& #[trigger] allocated(allocator, idle, targets)
            &&& after == idle.settled(targets)
            &&& answered_with(idle.entry(targets), rejection)
        };
    law_idling_keeps_sound(before);
    law_settling_keeps_sound(idle, targets);
    assert forall|q: Seq<char>| #[trigger] after.grants_of(q).grants == before.grants_of(q).grants
        <==> !proxy_moved(before.table, after.table, q) by {
        lemma_same_grants(before.table, after.table, q);
    }
    lemma_same_grants(before.table, after.table, proxy);
    assert(after.grants_of(proxy).grants == proxy_grants(after.table, proxy));
    if rejection is None {
        let t = idle.table.union_prefer_right(idle.entry(targets));
        assert(after.table == t);
        if forall|p: PlaceName| !CoordinatorView::moved(idle.table, t, p) {
            assert forall|q: Seq<char>| #[trigger] after.grants_of(q).grants == before.grants_of(
                q,
            ).grants by {
                assert(!proxy_moved(before.table, after.table, q));
            }
        } else {
            let p = choose|p: PlaceName| CoordinatorView::moved(idle.table, t, p);
            assert(proxy_moved(before.table, after.table, p.1.1));
            assert(after.grants_of(p.1.1).grants != before.grants_of(p.1.1).grants);
        }
    } else {
        assert forall|q: Seq<char>| #[trigger] after.grants_of(q).grants == before.grants_of(
            q,
        ).grants by {
            assert(!proxy_moved(before.table, after.table, q));
        }
    }
}

/// Whether what an allocator answers never adds up to more than the budget.
pub open spec fn keeps_within<A: Allocator>(allocator: A) -> bool {
    forall|budget: u32, claims: Vec<Claim>, answers: Vec<u32>| #[trigger]
        call_ensures(A::allocate, (&allocator, budget, &claims), answers) ==> seq_sum(answers@)
            <= budget
}

/// The first `n` answers, with 0 for those left out.
spec fn answered(answers: Seq<u32>, n: nat) -> Seq<u32> {
    Seq::new(n, |k: int| target_at(answers, k))
}

proof fn lemma_answered_sum(answers: Seq<u32>, n: nat)
    ensures
        seq_sum(answered(answers, n)) <= seq_sum(answers),
        n <= answers.len() ==> seq_sum(answered(answers, n)) == seq_sum(
            answers.subrange(0, n as int),
        ),
    decreases n,
{
    let given = answered(answers, n);
    if n > 0 {
        lemma_answered_sum(answers, (n - 1) as nat);
        assert(given.drop_last() =~= answered(answers, (n - 1) as nat));
    }
    if n <= answers.len() {
        lemma_seq_sum_prefix(answers, n as int);
        assert(given =~= answers.subrange(0, n as int));
    }
}

/// The targets of an allocator that keeps within the budget add up to no more
/// than it.
proof fn lemma_targets_within<A: Allocator>(
    allocator: A,
    v: CoordinatorView,
    targets: Map<SlotName, u32>,
    i: Seq<char>,
)
    requires
        keeps_within(allocator),
        v.held.dom().finite(),
        v.demand.dom().finite(),
        allocated(allocator, v, targets),
        v.budgets.contains_key(i),
    ensures
        map_sum(tenant_targets(targets, i, tenants_on(v, i))) <= v.budgets[i].total(),
{
    assert(targets_from(allocator, v, i, targets));
    let (claims, answers) = choose|claims: Vec<Claim>, answers: Vec<u32>|
        {
            &&& claim_list(v, i, claims@)
            &&& #[trigger] call_ensures(
                A::allocate,
                (&allocator, v.budgets[i].total(), &claims),
                answers,
            )
            &&& forall|k: int|
                0 <= k < claims@.len() ==> value_or_zero(targets, (i, (#[trigger] claims@[k]).key@))
                    == target_at(answers@, k)
        };
    let keys = claim_keys(claims@);
    let given = answered(answers@, claims@.len());
    lemma_rising_distinct::<TenantId>(keys);
    lemma_sum_zipped(keys, given);
    lemma_answered_sum(answers@, claims@.len());
    lemma_tenants_finite(v, i);
    let wanted = tenant_targets(targets, i, tenants_on(v, i));
    let all = zipped(keys, given);
    assert(wanted.dom() =~= tenants_on(v, i));
    let claimed = wanted.restrict(all.dom());
    assert(claimed.dom().subset_of(wanted.dom()));
    vstd::set_lib::lemma_len_subset(claimed.dom(), wanted.dom());
    assert forall|t: TenantName| #[trigger] wanted.contains_key(t) implies if claimed.contains_key(
        t,
    ) {
        wanted[t] == claimed[t]
    } else {
        wanted[t] == 0
    } by {
        if targets.contains_key((i, t)) {
            assert(claims_on(v, i, t));
            assert(keys.contains(t));
        }
    }
    lemma_sum_drop_zeros(wanted, claimed);
    assert forall|t: TenantName| claimed.contains_key(t) implies #[trigger] all.contains_key(t)
        && claimed[t] <= all[t] by {
        let k = keys.index_of(t);
        assert(keys.contains(t));
        assert(0 <= k < keys.len() && keys[k] == t);
        assert(claims@[k].key@ == t);
        assert(given[k] == target_at(answers@, k));
    }
    lemma_sum_monotone(claimed, all);
}

/// What an allocator that keeps within the budget answers is always taken: the
/// desired state that it leads to is never rejected.
pub proof fn law_answers_within_the_budget_are_taken<A: Allocator>(
    allocator: A,
    before: CoordinatorView,
    after: CoordinatorView,
    rejection: Option<Rejection>,
)
    requires
        keeps_within(allocator),
        sound(before),
        reconciled(allocator, before, after, rejection),
    ensures
        rejection is None,
{
    let idle = before.idling();
    let targets = choose|targets: Map<SlotName, u32>|
        {
            &&& #[trigger] allocated(allocator, idle, targets)
            &&& after == idle.settled(targets)
            &&& answered_with(idle.entry(targets), rejection)
        };
    law_idling_keeps_sound(before);
    assert forall|i: Seq<char>| #[trigger] idle.budgets.contains_key(i) implies map_sum(
        tenant_targets(targets, i, tenants_on(idle, i)),
    ) <= idle.budgets[i].total() by {
        lemma_targets_within(allocator, idle, targets, i);
    }
    law_targets_within_the_budget_are_taken(idle, targets);
}

/// A coordinator and the proxies that it grants to.
pub struct World {
    pub coordinator: CoordinatorView,
    pub proxies: ProxiesView,
}

/// Something that happens while the total budgets stay what they are.
pub enum Event {
    /// The desired state is recomputed, at a moment or not, and is taken, or
    /// rejected for something.
    Reconcile { now: Option<nat>, rejection: Option<Rejection> },
    /// The rules are written.
    Rules(PoliciesView),
    /// A proxy reads its grants.
    Read { proxy: Seq<char> },
    /// A proxy opens connections up to a grant that it saw, or closes some.
    Hold { place: PlaceName, connections: u32 },
    /// A proxy reports what it has, and whatever its clients ask for.
    Report { proxy: Seq<char>, report: ReportView },
    /// A proxy that has closed everything departs.
    Depart { proxy: Seq<char> },
}

/// Whether an event leads from one moment to the next. The generations of a
/// coordinator are counted up to the largest number of their type.
pub open spec fn happens<A: Allocator>(allocator: A, a: World, event: Event, b: World) -> bool {
    match event {
        Event::Reconcile { now, rejection } => {
            &&& a.coordinator.generation < u64::MAX
            &&& b.proxies == a.proxies
            &&& reconciled(
                allocator,
                CoordinatorView {
                    now: if now is Some {
                        now
                    } else {
                        a.coordinator.now
                    },
                    ..a.coordinator
                },
                b.coordinator,
                rejection,
            )
        },
        Event::Rules(policies) => {
            &&& b.proxies == a.proxies
            &&& b.coordinator == (CoordinatorView { policies, ..a.coordinator })
        },
        Event::Read { proxy } => {
            &&& !a.coordinator.departed.contains_key(proxy)
            &&& b.coordinator == a.coordinator
            &&& b.proxies == reading(a.coordinator, a.proxies, proxy)
        },
        Event::Hold { place, connections } => {
            &&& connections <= a.proxies.seen_for(place) || connections <= a.proxies.actual_at(
                place,
            )
            &&& b.coordinator == a.coordinator
            &&& b.proxies == having(a.proxies, place, connections)
        },
        Event::Report { proxy, report } => {
            &&& true_report(a.proxies, proxy, report)
            &&& b.proxies == a.proxies
            &&& b.coordinator == a.coordinator.reported(proxy, report)
        },
        Event::Depart { proxy } => {
            &&& a.coordinator.generation < u64::MAX
            &&& forall|p: PlaceName|
                p.1.1 == proxy ==> #[trigger] a.proxies.actual_at(p) == 0 && a.proxies.seen_for(p)
                    == 0
            &&& b.proxies == a.proxies
            &&& recomputed(allocator, a.coordinator.without(proxy), b.coordinator)
        },
    }
}

/// Whether nothing has happened yet: there are total budgets and rules, and
/// nobody was granted or has anything.
pub open spec fn begins(w: World) -> bool {
    &&& w.coordinator == (CoordinatorView {
        budgets: w.coordinator.budgets,
        policies: w.coordinator.policies,
        release_delay: w.coordinator.release_delay,
        ..initial_coordinator()
    })
    &&& w.coordinator.budgets.dom().finite()
    &&& w.proxies == (ProxiesView {
        actual: Map::empty(),
        seen: Map::empty(),
        seen_at: Map::empty(),
    })
}

/// Whether the table was last written with the present total budgets.
spec fn current(v: CoordinatorView) -> bool {
    forall|i: Seq<char>| #[trigger]
        v.table.contains_key(i) ==> v.table[i].budget == v.budgets[i].total()
}

proof fn lemma_reconciling_keeps_current<A: Allocator>(
    allocator: A,
    before: CoordinatorView,
    after: CoordinatorView,
)
    requires
        sound(before),
        current(before),
        recomputed(allocator, before, after),
    ensures
        current(after),
        after.budgets == before.budgets,
{
    let rejection = choose|rejection: Option<Rejection>| #[trigger]
        reconciled(allocator, before, after, rejection);
    let idle = before.idling();
    let targets = choose|targets: Map<SlotName, u32>|
        {
            &&& #[trigger] allocated(allocator, idle, targets)
            &&& after == idle.settled(targets)
            &&& answered_with(idle.entry(targets), rejection)
        };
    assert forall|i: Seq<char>| #[trigger] after.table.contains_key(i) implies after.table[i].budget
        == after.budgets[i].total() by {
        if idle.entry(targets).contains_key(i) {
        } else {
            assert(before.table.contains_key(i));
        }
    }
}

/// What a coordinator was told last, but for the demand and the connections, has
/// no part in whether everything is as it should be.
proof fn lemma_safe_whatever_the_rules(
    v: CoordinatorView,
    m: ProxiesView,
    policies: PoliciesView,
    now: Option<nat>,
)
    requires
        safe(v, m),
    ensures
        safe(CoordinatorView { policies, now, ..v }, m),
{
    let w = CoordinatorView { policies, now, ..v };
    assert forall|p: PlaceName| !w.departed.contains_key(p.1.1) implies #[trigger] w.slots_at(p)
        <= w.occupied_at(p) by {
        assert(v.slots_at(p) <= v.occupied_at(p));
    }
    assert forall|p: PlaceName| #[trigger] m.actual_at(p) <= w.occupied_at(p) by {
        assert(m.actual_at(p) <= v.occupied_at(p));
    }
    assert forall|p: PlaceName| #[trigger] m.seen_for(p) <= w.occupied_at(p) by {
        assert(m.seen_for(p) <= v.occupied_at(p));
    }
    assert forall|q: Seq<char>| #[trigger] m.generation_of(q) <= w.generation by {
        assert(m.generation_of(q) <= v.generation);
    }
    assert forall|p: PlaceName|
        w.held.contains_key(p) && w.held[p].changed_at <= m.generation_of(
            p.1.1,
        ) implies #[trigger] m.seen_for(p) == w.slots_at(p) by {
        assert(m.seen_for(p) == v.slots_at(p));
    }
    assert forall|i: Seq<char>| #[trigger] w.budgets.contains_key(i) implies w.occupied_on(i)
        <= w.budgets[i].total() by {
        assert(v.budgets.contains_key(i));
        assert(w.occupied_map(i) =~= v.occupied_map(i));
    }
}

proof fn lemma_event_is_safe<A: Allocator>(allocator: A, a: World, event: Event, b: World)
    requires
        safe(a.coordinator, a.proxies),
        current(a.coordinator),
        happens(allocator, a, event, b),
    ensures
        safe(b.coordinator, b.proxies),
        current(b.coordinator),
        b.coordinator.budgets == a.coordinator.budgets,
        keeps_within(allocator) ==> (event matches Event::Reconcile { now, rejection }
            ==> rejection is None),
{
    let v = a.coordinator;
    let m = a.proxies;
    match event {
        Event::Reconcile { now, rejection } => {
            let at = if now is Some {
                now
            } else {
                v.now
            };
            let w = CoordinatorView { now: at, ..v };
            lemma_safe_whatever_the_rules(v, m, v.policies, at);
            assert(w == CoordinatorView { policies: v.policies, now: at, ..v });
            assert(recomputed(allocator, w, b.coordinator));
            law_reconciling_is_safe(allocator, w, b.coordinator, m);
            lemma_reconciling_keeps_current(allocator, w, b.coordinator);
            if keeps_within(allocator) {
                law_answers_within_the_budget_are_taken(allocator, w, b.coordinator, rejection);
            }
        },
        Event::Rules(policies) => {
            lemma_safe_whatever_the_rules(v, m, policies, v.now);
            assert(b.coordinator == CoordinatorView { policies, now: v.now, ..v });
        },
        Event::Read { proxy } => {
            law_reading_grants_is_safe(v, m, proxy);
        },
        Event::Hold { place, connections } => {
            law_following_a_grant_is_safe(v, m, place, connections);
        },
        Event::Report { proxy, report } => {
            law_reporting_truly_is_safe(v, m, proxy, report);
        },
        Event::Depart { proxy } => {
            assert forall|p: PlaceName| p.1.1 == proxy implies #[trigger] m.seen_for(p) == 0 by {
                assert(m.actual_at(p) == 0);
            }
            law_departing_is_safe(v, m, proxy);
            law_reconciling_is_safe(allocator, v.without(proxy), b.coordinator, m);
            lemma_reconciling_keeps_current(allocator, v.without(proxy), b.coordinator);
        },
    }
}

proof fn lemma_history_is_safe<A: Allocator>(
    allocator: A,
    worlds: Seq<World>,
    events: Seq<Event>,
    k: int,
)
    requires
        worlds.len() == events.len() + 1,
        begins(worlds[0]),
        forall|j: int|
            0 <= j < events.len() ==> happens(
                allocator,
                worlds[j],
                #[trigger] events[j],
                worlds[j + 1],
            ),
        0 <= k < worlds.len(),
    ensures
        safe(worlds[k].coordinator, worlds[k].proxies),
        current(worlds[k].coordinator),
        worlds[k].coordinator.budgets == worlds[0].coordinator.budgets,
    decreases k,
{
    if k == 0 {
        let w = worlds[0].coordinator;
        assert forall|i: Seq<char>| #[trigger] w.budgets.contains_key(i) implies w.occupied_on(i)
            <= w.budgets[i].total() by {
            assert(w.occupied_map(i).dom() =~= Set::empty());
            lemma_sum_empty(w.occupied_map(i));
        }
    } else {
        lemma_history_is_safe(allocator, worlds, events, k - 1);
        let event = events[k - 1];
        assert(happens(allocator, worlds[k - 1], event, worlds[k - 1 + 1]));
        lemma_event_is_safe(allocator, worlds[k - 1], event, worlds[k]);
    }
}

/// Proxies that follow their grants never put an instance over its total
/// budget. From the beginning, whatever happens and in whatever order, neither
/// the connections on an instance nor the grants on it ever exceed its total
/// budget; and where the allocator keeps within the budget, the desired state is
/// never rejected.
pub proof fn law_no_history_exceeds_a_budget<A: Allocator>(
    allocator: A,
    worlds: Seq<World>,
    events: Seq<Event>,
    i: Seq<char>,
    k: int,
)
    requires
        worlds.len() == events.len() + 1,
        begins(worlds[0]),
        forall|j: int|
            0 <= j < events.len() ==> happens(
                allocator,
                worlds[j],
                #[trigger] events[j],
                worlds[j + 1],
            ),
        worlds[0].coordinator.budgets.contains_key(i),
        0 <= k < worlds.len(),
    ensures
        worlds[k].coordinator.budgets == worlds[0].coordinator.budgets,
        worlds[k].proxies.actual_on(i) <= worlds[0].coordinator.budgets[i].total(),
        table_total(worlds[k].coordinator.table, i) <= worlds[0].coordinator.budgets[i].total(),
        k < events.len() && keeps_within(allocator) ==> (events[k] matches Event::Reconcile {
            now,
            rejection,
        } ==> rejection is None),
{
    lemma_history_is_safe(allocator, worlds, events, k);
    law_connections_stay_within_the_budget(worlds[k].coordinator, worlds[k].proxies, i);
    let table = worlds[k].coordinator.table;
    if table.contains_key(i) {
        assert(table[i].fits());
    }
    if k < events.len() {
        assert(happens(allocator, worlds[k], events[k], worlds[k + 1]));
        lemma_event_is_safe(allocator, worlds[k], events[k], worlds[k + 1]);
    }
}

} // verus!
