//! The total budget of an instance: how many connections all proxies together
//! may hold on it, and how it moves with the connections of others.
use vstd::prelude::*;
use vstd::string::StringExecFns;

use crate::order::Dup;
use crate::text::{decimal, decimal_text};
use crate::time::{elapsed, Duration, Instant};

verus! {

/// What a server itself says about its connections.
#[derive(Debug, Clone, Copy, PartialEq, Eq, Hash, Structural)]
pub struct ServerLimits {
    pub max_connections: u32,
    pub superuser_reserved_connections: u32,
    pub reserved_connections: u32,
}

/// The connections that a server keeps for its own roles, at most 2^32 - 1.
pub open spec fn reserved_total(limits: ServerLimits) -> u32 {
    let sum = limits.superuser_reserved_connections + limits.reserved_connections;
    if sum > u32::MAX {
        u32::MAX
    } else {
        sum as u32
    }
}

impl ServerLimits {
    pub fn reserved(&self) -> (total: u32)
        ensures
            total == reserved_total(*self),
    {
        self.superuser_reserved_connections.saturating_add(self.reserved_connections)
    }
}

/// What a total budget is derived from.
#[derive(Debug, Clone, Copy, PartialEq, Eq, Hash, Structural)]
pub struct BudgetInputs {
    pub limits: ServerLimits,
    pub foreign_peak: u32,
    pub margin: u32,
}

/// Everything that is taken off the server's maximum.
pub open spec fn deducted(inputs: BudgetInputs) -> nat {
    (reserved_total(inputs.limits) + inputs.foreign_peak + inputs.margin) as nat
}

/// The total budget: what the deductions leave of the server's maximum, or
/// nothing.
pub open spec fn budget_total(inputs: BudgetInputs) -> u32 {
    if deducted(inputs) >= inputs.limits.max_connections {
        0
    } else {
        (inputs.limits.max_connections - deducted(inputs)) as u32
    }
}

/// By how much the deductions are above the server's maximum, at most 2^32 - 1.
pub open spec fn budget_shortfall(inputs: BudgetInputs) -> u32 {
    if deducted(inputs) <= inputs.limits.max_connections {
        0
    } else if deducted(inputs) - inputs.limits.max_connections > u32::MAX {
        u32::MAX
    } else {
        (deducted(inputs) - inputs.limits.max_connections) as u32
    }
}

impl BudgetInputs {
    fn deductions(&self) -> (sum: u64)
        ensures
            sum == deducted(*self),
    {
        self.limits.reserved() as u64 + self.foreign_peak as u64 + self.margin as u64
    }
}

/// A total budget together with what it was derived from.
#[derive(Debug, Clone, Copy, PartialEq, Eq, Hash, Structural)]
pub struct TotalBudget {
    inputs: BudgetInputs,
    total: u32,
    shortfall: u32,
}

impl View for TotalBudget {
    type V = BudgetInputs;

    closed spec fn view(&self) -> BudgetInputs {
        self.inputs
    }
}

/// How a total budget is written: the total, then every term it was derived
/// from, then what it is short by, if anything.
pub open spec fn budget_text(inputs: BudgetInputs) -> Seq<char> {
    let terms = decimal(budget_total(inputs) as nat) + " = max_connections "@ + decimal(
        inputs.limits.max_connections as nat,
    ) + " - superuser_reserved_connections "@ + decimal(
        inputs.limits.superuser_reserved_connections as nat,
    ) + " - reserved_connections "@ + decimal(inputs.limits.reserved_connections as nat)
        + " - foreign peak "@ + decimal(inputs.foreign_peak as nat) + " - margin "@ + decimal(
        inputs.margin as nat,
    );
    if budget_shortfall(inputs) > 0 {
        terms + " (short by "@ + decimal(budget_shortfall(inputs) as nat) + ")"@
    } else {
        terms
    }
}

impl TotalBudget {
    #[verifier::type_invariant]
    pub closed spec fn wf(self) -> bool {
        self.total == budget_total(self.inputs) && self.shortfall == budget_shortfall(self.inputs)
    }

    pub fn derive(inputs: BudgetInputs) -> (budget: Self)
        ensures
            budget@ == inputs,
    {
        let max: u64 = inputs.limits.max_connections as u64;
        let deductions: u64 = inputs.deductions();
        let total: u32 = if deductions >= max { 0 } else { (max - deductions) as u32 };
        let short: u64 = deductions.saturating_sub(max);
        let shortfall: u32 = if short > u32::MAX as u64 { u32::MAX } else { short as u32 };
        TotalBudget { inputs, total, shortfall }
    }

    pub fn total(&self) -> (total: u32)
        ensures
            total == budget_total(self@),
    {
        proof {
            use_type_invariant(self);
        }
        self.total
    }

    pub fn inputs(&self) -> (inputs: BudgetInputs)
        ensures
            inputs == self@,
    {
        self.inputs
    }

    pub fn is_exhausted(&self) -> (b: bool)
        ensures
            b == (budget_total(self@) == 0),
    {
        self.total() == 0
    }

    pub fn shortfall(&self) -> (shortfall: u32)
        ensures
            shortfall == budget_shortfall(self@),
    {
        proof {
            use_type_invariant(self);
        }
        self.shortfall
    }

    /// The total and every term of its derivation.
    pub fn to_string(&self) -> (text: String)
        ensures
            text@ == budget_text(self@),
    {
        let limits = self.inputs.limits;
        let mut text = decimal_text(self.total() as u64);
        text.append(" = max_connections ");
        text.append(decimal_text(limits.max_connections as u64).as_str());
        text.append(" - superuser_reserved_connections ");
        text.append(decimal_text(limits.superuser_reserved_connections as u64).as_str());
        text.append(" - reserved_connections ");
        text.append(decimal_text(limits.reserved_connections as u64).as_str());
        text.append(" - foreign peak ");
        text.append(decimal_text(self.inputs.foreign_peak as u64).as_str());
        text.append(" - margin ");
        text.append(decimal_text(self.inputs.margin as u64).as_str());
        if self.shortfall() > 0 {
            text.append(" (short by ");
            text.append(decimal_text(self.shortfall() as u64).as_str());
            text.append(")");
        }
        text
    }
}

/// Foreign connections counted at a moment, in nanoseconds since the origin.
pub type Observation = (nat, u32);

/// The largest count among observations: 0 where there is none.
pub open spec fn peak_of(held: Seq<Observation>) -> u32
    decreases held.len(),
{
    if held.len() == 0 {
        0
    } else {
        let rest = peak_of(held.drop_last());
        if held.last().1 > rest {
            held.last().1
        } else {
            rest
        }
    }
}

/// Whether an observation is not older than `window` at the moment `now`.
pub open spec fn in_window(o: Observation, now: nat, window: nat) -> bool {
    elapsed(o.0, now) <= window
}

/// The observations that are still in the window at the moment `now`.
pub open spec fn still_held(held: Seq<Observation>, now: nat, window: nat) -> Seq<Observation> {
    held.filter(|o: Observation| in_window(o, now, window))
}

/// What is held after an observation of `count` connections at the moment `at`.
pub open spec fn observed(
    held: Seq<Observation>,
    window: nat,
    at: nat,
    count: u32,
) -> Seq<Observation> {
    still_held(held, at, window).push((at, count))
}

/// The largest number of foreign connections seen within a window of time.
#[derive(Debug, PartialEq, Eq)]
pub struct ForeignPeak {
    window: Duration,
    held: Vec<(Instant, u32)>,
}

impl View for ForeignPeak {
    type V = Seq<Observation>;

    /// The observations held, in the order in which they were made.
    closed spec fn view(&self) -> Seq<Observation> {
        Seq::new(self.held@.len(), |i: int| (self.held@[i].0@, self.held@[i].1))
    }
}

impl ForeignPeak {
    /// The length of the window, in nanoseconds.
    pub closed spec fn span(&self) -> nat {
        self.window@
    }

    pub fn new(window: Duration) -> (peak: Self)
        ensures
            peak@ == Seq::<Observation>::empty(),
            peak.span() == window@,
    {
        let peak = ForeignPeak { window, held: Vec::new() };
        assert(peak@ =~= Seq::empty());
        peak
    }

    /// Takes in that `count` foreign connections were there at the moment `at`,
    /// and drops what is older than the window at that moment.
    pub fn observe(&mut self, at: Instant, count: u32)
        ensures
            final(self)@ == observed(old(self)@, old(self).span(), at@, count),
            final(self).span() == old(self).span(),
    {
        let ghost before = self@;
        let ghost keep = |o: Observation| in_window(o, at@, self.window@);
        let mut held: Vec<(Instant, u32)> = Vec::new();
        let ghost view = Seq::<Observation>::empty();
        let mut i: usize = 0;
        assert(before.subrange(0, 0).filter(keep) =~= Seq::empty());
        while i < self.held.len()
            invariant
                i <= self.held@.len(),
                before == self@,
                self.held@ == old(self).held@,
                self.window == old(self).window,
                keep == (|o: Observation| in_window(o, at@, self.window@)),
                view == Seq::new(held@.len(), |j: int| (held@[j].0@, held@[j].1)),
                view == before.subrange(0, i as int).filter(keep),
            decreases self.held@.len() - i,
        {
            let (then, seen) = self.held[i];
            let ghost o = (then@, seen);
            proof {
                let more = before.subrange(0, i + 1);
                assert(more.drop_last() =~= before.subrange(0, i as int));
                assert(more.last() == o);
                reveal(Seq::filter);
            }
            if self.window.at_least(&at.duration_since(then)) {
                held.push((then, seen));
                proof {
                    view = view.push(o);
                    assert(view =~= Seq::new(held@.len(), |j: int| (held@[j].0@, held@[j].1)));
                }
            }
            i += 1;
        }
        assert(before.subrange(0, i as int) =~= before);
        held.push((at, count));
        self.held = held;
        assert(self@ =~= view.push((at@, count)));
    }

    /// The largest count that the window still holds.
    pub fn peak(&self) -> (peak: u32)
        ensures
            peak == peak_of(self@),
    {
        let ghost all = self@;
        let mut peak: u32 = 0;
        let mut i: usize = 0;
        assert(all.subrange(0, 0) =~= Seq::empty());
        while i < self.held.len()
            invariant
                i <= self.held@.len(),
                all == self@,
                peak == peak_of(all.subrange(0, i as int)),
            decreases self.held@.len() - i,
        {
            proof {
                let more = all.subrange(0, i + 1);
                assert(more.drop_last() =~= all.subrange(0, i as int));
                assert(more.last() == all[i as int]);
            }
            if self.held[i].1 > peak {
                peak = self.held[i].1;
            }
            i += 1;
        }
        assert(all.subrange(0, i as int) =~= all);
        peak
    }

    fn duplicate(&self) -> (copy: Self)
        ensures
            copy@ == self@,
            copy.span() == self.span(),
    {
        let mut held: Vec<(Instant, u32)> = Vec::new();
        let mut i: usize = 0;
        while i < self.held.len()
            invariant
                i <= self.held@.len(),
                held@ == self.held@.subrange(0, i as int),
            decreases self.held@.len() - i,
        {
            held.push(self.held[i]);
            assert(self.held@.subrange(0, i + 1) =~= self.held@.subrange(0, i as int).push(
                self.held@[i as int],
            ));
            i += 1;
        }
        assert(self.held@.subrange(0, i as int) =~= self.held@);
        ForeignPeak { window: self.window, held }
    }
}

/// How a total budget moved.
#[derive(Debug, Clone, Copy, PartialEq, Eq, Structural)]
pub enum BudgetChange {
    Unchanged,
    Grew { from: u32, to: u32 },
    Shrank { from: u32, to: u32 },
}

/// The change from one total to another.
pub open spec fn change_between(from: u32, to: u32) -> BudgetChange {
    if to > from {
        BudgetChange::Grew { from, to }
    } else if to < from {
        BudgetChange::Shrank { from, to }
    } else {
        BudgetChange::Unchanged
    }
}

fn change(from: u32, to: u32) -> (change: BudgetChange)
    ensures
        change == change_between(from, to),
{
    if to > from {
        BudgetChange::Grew { from, to }
    } else if to < from {
        BudgetChange::Shrank { from, to }
    } else {
        BudgetChange::Unchanged
    }
}

/// What an instance's total budget is derived from: the server's limits, the
/// margin, and the foreign connections seen within the window.
#[verifier::ext_equal]
pub struct BudgetView {
    pub limits: ServerLimits,
    pub margin: u32,
    pub window: nat,
    pub held: Seq<Observation>,
}

impl BudgetView {
    pub open spec fn inputs(self) -> BudgetInputs {
        BudgetInputs {
            limits: self.limits,
            foreign_peak: peak_of(self.held),
            margin: self.margin,
        }
    }

    pub open spec fn total(self) -> u32 {
        budget_total(self.inputs())
    }

    pub open spec fn observed(self, at: nat, count: u32) -> BudgetView {
        BudgetView { held: observed(self.held, self.window, at, count), ..self }
    }
}

/// An instance's total budget as it moves: with the foreign connections that
/// are seen, with the server's limits, with the margin that is set.
#[derive(Debug, PartialEq, Eq)]
pub struct InstanceBudget {
    limits: ServerLimits,
    margin: u32,
    peak: ForeignPeak,
}

impl View for InstanceBudget {
    type V = BudgetView;

    closed spec fn view(&self) -> BudgetView {
        BudgetView {
            limits: self.limits,
            margin: self.margin,
            window: self.peak.span(),
            held: self.peak@,
        }
    }
}

impl InstanceBudget {
    pub fn new(limits: ServerLimits, margin: u32, window: Duration) -> (budget: Self)
        ensures
            budget@ == (BudgetView { limits, margin, window: window@, held: Seq::empty() }),
    {
        InstanceBudget { limits, margin, peak: ForeignPeak::new(window) }
    }

    /// The total budget as it stands.
    pub fn current(&self) -> (budget: TotalBudget)
        ensures
            budget@ == self@.inputs(),
    {
        self.with_margin(self.margin)
    }

    /// Takes in the foreign connections seen at a moment, and answers which way
    /// the total budget moved.
    pub fn observe(&mut self, at: Instant, foreign: u32) -> (change: BudgetChange)
        ensures
            final(self)@ == old(self)@.observed(at@, foreign),
            change == change_between(old(self)@.total(), final(self)@.total()),
    {
        let before: u32 = self.current().total();
        self.peak.observe(at, foreign);
        change(before, self.current().total())
    }

    /// Takes in what the server says of itself, and answers which way the total
    /// budget moved.
    pub fn update_limits(&mut self, limits: ServerLimits) -> (change: BudgetChange)
        ensures
            final(self)@ == (BudgetView { limits, ..old(self)@ }),
            change == change_between(old(self)@.total(), final(self)@.total()),
    {
        let before: u32 = self.current().total();
        self.limits = limits;
        change(before, self.current().total())
    }

    /// The total budget as it would stand with another margin.
    pub fn with_margin(&self, margin: u32) -> (budget: TotalBudget)
        ensures
            budget@ == (BudgetInputs { margin, ..self@.inputs() }),
    {
        TotalBudget::derive(
            BudgetInputs { limits: self.limits, foreign_peak: self.peak.peak(), margin },
        )
    }

    /// Sets the margin, and answers which way the total budget moved.
    pub fn set_margin(&mut self, margin: u32) -> (change: BudgetChange)
        ensures
            final(self)@ == (BudgetView { margin, ..old(self)@ }),
            change == change_between(old(self)@.total(), final(self)@.total()),
    {
        let before: u32 = self.current().total();
        self.margin = margin;
        change(before, self.current().total())
    }
}

impl Dup for InstanceBudget {
    fn dup(&self) -> (copy: Self) {
        InstanceBudget { limits: self.limits, margin: self.margin, peak: self.peak.duplicate() }
    }
}

/// The total budget never exceeds what the server leaves to clients.
pub proof fn law_total_within_what_clients_have(inputs: BudgetInputs)
    ensures
        budget_total(inputs) <= if reserved_total(inputs.limits) >= inputs.limits.max_connections {
            0
        } else {
            inputs.limits.max_connections - reserved_total(inputs.limits)
        },
{
}

/// The total and the deductions make up the server's maximum, unless the
/// deductions are above it: then the total is 0 and the shortfall, where it
/// fits 32 bits, makes up the difference.
pub proof fn law_total_and_deductions_make_up_the_maximum(inputs: BudgetInputs)
    ensures
        budget_shortfall(inputs) == 0 ==> budget_total(inputs) + deducted(inputs)
            == inputs.limits.max_connections,
        budget_shortfall(inputs) > 0 ==> budget_total(inputs) == 0,
        0 < budget_shortfall(inputs) < u32::MAX ==> inputs.limits.max_connections
            + budget_shortfall(inputs) == deducted(inputs),
{
}

/// More foreign connections never grow the total budget.
pub proof fn law_more_foreign_connections_never_grow_the_budget(inputs: BudgetInputs, peak: u32)
    requires
        peak >= inputs.foreign_peak,
    ensures
        budget_total(BudgetInputs { foreign_peak: peak, ..inputs }) <= budget_total(inputs),
{
}

/// A larger margin never grows the total budget.
pub proof fn law_a_larger_margin_never_grows_the_budget(inputs: BudgetInputs, margin: u32)
    requires
        margin >= inputs.margin,
    ensures
        budget_total(BudgetInputs { margin, ..inputs }) <= budget_total(inputs),
{
}

/// What is held after a history of observations, from the first to the last.
pub open spec fn after_history(history: Seq<Observation>, window: nat) -> Seq<Observation>
    decreases history.len(),
{
    if history.len() == 0 {
        Seq::empty()
    } else {
        observed(
            after_history(history.drop_last(), window),
            window,
            history.last().0,
            history.last().1,
        )
    }
}

/// Observations made one after another.
pub open spec fn in_order(history: Seq<Observation>) -> bool {
    forall|i: int, j: int| 0 <= i <= j < history.len() ==> history[i].0 <= history[j].0
}

proof fn lemma_filter_filter(s: Seq<Observation>, earlier: nat, later: nat, window: nat)
    requires
        earlier <= later,
    ensures
        still_held(still_held(s, earlier, window), later, window) == still_held(s, later, window),
    decreases s.len(),
{
    reveal(Seq::filter);
    if s.len() > 0 {
        lemma_filter_filter(s.drop_last(), earlier, later, window);
        let first = |o: Observation| in_window(o, earlier, window);
        let second = |o: Observation| in_window(o, later, window);
        let rest = s.drop_last().filter(first);
        if in_window(s.last(), earlier, window) {
            assert(rest.push(s.last()).drop_last() =~= rest);
        }
    }
}

/// After observations made one after another, exactly those are held that the
/// window still holds at the last of them, so the peak is the largest of those.
pub proof fn law_the_peak_is_the_largest_observation_in_the_window(
    history: Seq<Observation>,
    window: nat,
)
    requires
        in_order(history),
        history.len() > 0,
    ensures
        after_history(history, window) == still_held(history, history.last().0, window),
        peak_of(after_history(history, window)) == peak_of(
            still_held(history, history.last().0, window),
        ),
    decreases history.len(),
{
    reveal(Seq::filter);
    let rest = history.drop_last();
    let last = history.last();
    if rest.len() > 0 {
        assert forall|i: int, j: int| 0 <= i <= j < rest.len() implies rest[i].0 <= rest[j].0 by {
            assert(history[i].0 <= history[j].0);
        }
        law_the_peak_is_the_largest_observation_in_the_window(rest, window);
        assert(rest.last().0 <= last.0) by {
            assert(history[history.len() - 2].0 <= history[history.len() - 1].0);
        }
        lemma_filter_filter(rest, rest.last().0, last.0, window);
    } else {
        assert(still_held(rest, last.0, window) =~= Seq::empty());
        assert(still_held(after_history(rest, window), last.0, window) =~= Seq::empty());
    }
    assert(in_window(last, last.0, window));
}

proof fn lemma_peak_bounds(held: Seq<Observation>, i: int)
    requires
        0 <= i < held.len(),
    ensures
        held[i].1 <= peak_of(held),
    decreases held.len(),
{
    if i < held.len() - 1 {
        lemma_peak_bounds(held.drop_last(), i);
    }
}

/// An observation never moves the total budget and the peak the same way: a
/// budget that grew comes from a lower peak, one that shrank from a higher one.
pub proof fn law_budget_and_peak_move_apart(budget: BudgetView, at: nat, count: u32)
    ensures
        budget.observed(at, count).total() > budget.total() ==> budget.observed(
            at,
            count,
        ).inputs().foreign_peak < budget.inputs().foreign_peak,
        budget.observed(at, count).total() < budget.total() ==> budget.observed(
            at,
            count,
        ).inputs().foreign_peak > budget.inputs().foreign_peak,
{
}

/// A rise takes the peak at once: the peak is never below the latest count.
pub proof fn law_a_rise_takes_the_peak_at_once(budget: BudgetView, at: nat, count: u32)
    ensures
        budget.observed(at, count).inputs().foreign_peak >= count,
{
    let held = observed(budget.held, budget.window, at, count);
    lemma_peak_bounds(held, held.len() - 1);
}

/// The total budget is what is left of the server's maximum once the connections
/// it keeps for its own roles, those of others and the margin are taken off, and
/// nothing where they leave nothing; what they are short by is told.
pub proof fn law_every_deduction_counts_once(inputs: BudgetInputs)
    requires
        inputs.limits.superuser_reserved_connections + inputs.limits.reserved_connections
            <= u32::MAX,
    ensures
        ({
            let left = inputs.limits.max_connections - inputs.limits.superuser_reserved_connections
                - inputs.limits.reserved_connections - inputs.foreign_peak - inputs.margin;
            &&& left >= 0 ==> budget_total(inputs) == left && budget_shortfall(inputs) == 0
            &&& left < 0 ==> budget_total(inputs) == 0 && budget_shortfall(inputs) > 0
            &&& left < 0 && -left <= u32::MAX ==> budget_shortfall(inputs) == -left
            &&& -left > u32::MAX ==> budget_shortfall(inputs) == u32::MAX
        }),
{
}

/// What a server keeps for its own roles are both of its reservations, up to the
/// largest number of their type.
pub proof fn law_both_reservations_count(limits: ServerLimits)
    ensures
        reserved_total(limits) >= limits.superuser_reserved_connections,
        reserved_total(limits) >= limits.reserved_connections,
        reserved_total(limits) < u32::MAX ==> reserved_total(limits)
            == limits.superuser_reserved_connections + limits.reserved_connections,
        reserved_total(limits) == u32::MAX ==> limits.superuser_reserved_connections
            + limits.reserved_connections >= u32::MAX,
{
}

/// The largest of some observations is one of them, and none is above it.
proof fn lemma_peak_is_reached(held: Seq<Observation>)
    requires
        peak_of(held) > 0,
    ensures
        exists|i: int| 0 <= i < held.len() && (#[trigger] held[i]).1 == peak_of(held),
    decreases held.len(),
{
    if held.len() > 0 {
        let rest = held.drop_last();
        if held.last().1 > peak_of(rest) {
            assert(held[held.len() - 1].1 == peak_of(held));
        } else {
            lemma_peak_is_reached(rest);
            let i = choose|i: int| 0 <= i < rest.len() && (#[trigger] rest[i]).1 == peak_of(rest);
            assert(held[i] == rest[i]);
        }
    }
}

proof fn lemma_still_held(held: Seq<Observation>, now: nat, window: nat)
    ensures
        forall|o: Observation|
            still_held(held, now, window).contains(o) <==> held.contains(o) && in_window(
                o,
                now,
                window,
            ),
    decreases held.len(),
{
    reveal(Seq::filter);
    if held.len() > 0 {
        let rest = held.drop_last();
        lemma_still_held(rest, now, window);
        assert(held =~= rest.push(held.last()));
        let kept = still_held(held, now, window);
        let before = still_held(rest, now, window);
        assert forall|o: Observation| kept.contains(o) <==> held.contains(o) && in_window(
            o,
            now,
            window,
        ) by {
            if rest.contains(o) {
                let k = choose|k: int| 0 <= k < rest.len() && rest[k] == o;
                assert(held[k] == o);
            }
            if held.contains(o) && !rest.contains(o) {
                let k = choose|k: int| 0 <= k < held.len() && held[k] == o;
                if k < rest.len() {
                    assert(rest[k] == o);
                }
                assert(o == held.last());
            }
            if in_window(held.last(), now, window) {
                assert(kept =~= before.push(held.last()));
                assert(kept[kept.len() - 1] == held.last());
                if before.contains(o) {
                    let k = choose|k: int| 0 <= k < before.len() && before[k] == o;
                    assert(kept[k] == o);
                }
                if kept.contains(o) && !before.contains(o) {
                    let k = choose|k: int| 0 <= k < kept.len() && kept[k] == o;
                    if k < before.len() {
                        assert(before[k] == o);
                    }
                    assert(o == held.last());
                }
                assert(held[held.len() - 1] == held.last());
            }
        }
    }
}

/// The foreign connections taken off a budget after a count are the largest
/// number that was counted within the window before it: the count itself, or an
/// earlier one that is not older than the window. One that is older is
/// forgotten.
pub proof fn law_the_window_decides_what_counts(
    budget: BudgetView,
    at: nat,
    count: u32,
    earlier: Observation,
)
    ensures
        ({
            let peak = budget.observed(at, count).inputs().foreign_peak;
            &&& peak >= count
            &&& budget.held.contains(earlier) && at <= earlier.0 + budget.window ==> peak
                >= earlier.1
            &&& peak == count || exists|o: Observation|
                #[trigger] budget.held.contains(o) && o.1 == peak && at <= o.0 + budget.window
        }),
        budget.observed(at, count).margin == budget.margin,
        budget.observed(at, count).limits == budget.limits,
        budget.observed(at, count).window == budget.window,
{
    let held = observed(budget.held, budget.window, at, count);
    let kept = still_held(budget.held, at, budget.window);
    lemma_still_held(budget.held, at, budget.window);
    lemma_peak_bounds(held, held.len() - 1);
    if budget.held.contains(earlier) && at <= earlier.0 + budget.window {
        assert(kept.contains(earlier));
        let k = choose|k: int| 0 <= k < kept.len() && kept[k] == earlier;
        assert(held[k] == earlier);
        lemma_peak_bounds(held, k);
    }
    if peak_of(held) > 0 && peak_of(held) != count {
        lemma_peak_is_reached(held);
        let i = choose|i: int| 0 <= i < held.len() && (#[trigger] held[i]).1 == peak_of(held);
        assert(i < kept.len());
        assert(kept[i] == held[i]);
        assert(kept.contains(kept[i]));
        assert(budget.held.contains(kept[i]));
    }
}

/// A change says which way a total moved, from what to what; one that goes there
/// and back is told the other way round.
pub proof fn law_a_change_says_which_way(from: u32, to: u32)
    ensures
        change_between(from, to) is Unchanged <==> from == to,
        change_between(from, to) matches BudgetChange::Grew { from: a, to: b } ==> a == from && b
            == to && a < b,
        change_between(from, to) matches BudgetChange::Shrank { from: a, to: b } ==> a == from && b
            == to && a > b,
        change_between(from, to) is Grew <==> change_between(to, from) is Shrank,
{
}

} // verus!
