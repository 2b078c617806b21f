//! Sharing a number of slots out evenly.
use vstd::prelude::*;

use crate::sums::{
    lemma_seq_sum_bounds, lemma_seq_sum_monotone, lemma_seq_sum_prefix, seq_sum,
};

verus! {

/// The smaller of two numbers.
pub open spec fn least(a: nat, b: nat) -> nat {
    if a < b {
        a
    } else {
        b
    }
}

/// Shares of `amount` among those who want `wants`, as even as can be: nobody
/// gets more than it wants, nothing is left while somebody wants more, and
/// whoever wants more has at most one less than anybody else, and no less than
/// those behind it.
pub open spec fn fair(wants: Seq<u32>, amount: nat, shares: Seq<u32>) -> bool {
    &&& shares.len() == wants.len()
    &&& forall|i: int| 0 <= i < shares.len() ==> #[trigger] shares[i] <= wants[i]
    &&& seq_sum(shares) == least(amount, seq_sum(wants))
    &&& forall|i: int, j: int|
        0 <= i < shares.len() && 0 <= j < shares.len() && #[trigger] shares[i] < wants[i]
            ==> #[trigger] shares[j] <= shares[i] + 1 && (i < j ==> shares[j] <= shares[i])
}

/// There is only one way to share fairly.
pub proof fn law_fair_shares_are_unique(wants: Seq<u32>, amount: nat, a: Seq<u32>, b: Seq<u32>)
    requires
        fair(wants, amount, a),
        fair(wants, amount, b),
    ensures
        a == b,
{
    if a != b {
        if !(exists|p: int| 0 <= p < a.len() && a[p] < #[trigger] b[p]) {
            assert forall|i: int| 0 <= i < a.len() implies b[i] <= #[trigger] a[i] by {
                assert(!(a[i] < b[i]));
            }
            assert(exists|i: int| 0 <= i < a.len() && b[i] < #[trigger] a[i]) by {
                if forall|i: int| 0 <= i < a.len() ==> !(b[i] < #[trigger] a[i]) {
                    assert(a =~= b);
                }
            }
            lemma_seq_sum_monotone(b, a);
            assert(false);
        }
        let p = choose|p: int| 0 <= p < a.len() && a[p] < #[trigger] b[p];
        if !(exists|q: int| 0 <= q < a.len() && b[q] < #[trigger] a[q]) {
            assert forall|i: int| 0 <= i < a.len() implies a[i] <= #[trigger] b[i] by {
                assert(!(b[i] < a[i]));
            }
            lemma_seq_sum_monotone(a, b);
            assert(false);
        }
        let q = choose|q: int| 0 <= q < a.len() && b[q] < #[trigger] a[q];
        assert(a[p] < wants[p]);
        assert(b[q] < wants[q]);
        assert(a[q] <= a[p] + 1);
        assert(b[p] <= b[q] + 1);
        assert(false);
    }
}

/// What is handed out when everybody gets what it wants, up to `level`.
pub open spec fn filled(wants: Seq<u32>, level: nat) -> nat
    decreases wants.len(),
{
    if wants.len() == 0 {
        0
    } else {
        filled(wants.drop_last(), level) + least(wants.last() as nat, level)
    }
}

/// How many want more than `level`.
spec fn above(wants: Seq<u32>, level: nat) -> nat
    decreases wants.len(),
{
    if wants.len() == 0 {
        0
    } else {
        above(wants.drop_last(), level) + if wants.last() > level {
            1nat
        } else {
            0nat
        }
    }
}

proof fn lemma_filled_next(wants: Seq<u32>, level: nat)
    ensures
        filled(wants, level + 1) == filled(wants, level) + above(wants, level),
    decreases wants.len(),
{
    if wants.len() > 0 {
        lemma_filled_next(wants.drop_last(), level);
    }
}

proof fn lemma_filled_zero(wants: Seq<u32>)
    ensures
        filled(wants, 0) == 0,
    decreases wants.len(),
{
    if wants.len() > 0 {
        lemma_filled_zero(wants.drop_last());
    }
}

proof fn lemma_filled_all(wants: Seq<u32>)
    ensures
        filled(wants, u32::MAX as nat) == seq_sum(wants),
    decreases wants.len(),
{
    if wants.len() > 0 {
        lemma_filled_all(wants.drop_last());
    }
}

proof fn lemma_filled_prefix(wants: Seq<u32>, level: nat, i: int)
    requires
        0 <= i <= wants.len(),
    ensures
        filled(wants.subrange(0, i), level) <= filled(wants, level),
        above(wants.subrange(0, i), level) <= above(wants, level),
        i < wants.len() ==> {
            &&& filled(wants.subrange(0, i + 1), level) == filled(wants.subrange(0, i), level)
                + least(wants[i] as nat, level)
            &&& above(wants.subrange(0, i + 1), level) == above(wants.subrange(0, i), level)
                + if wants[i] > level {
                1nat
            } else {
                0nat
            }
        },
    decreases wants.len() - i,
{
    if i < wants.len() {
        lemma_filled_prefix(wants, level, i + 1);
        assert(wants.subrange(0, i + 1).drop_last() =~= wants.subrange(0, i));
    } else {
        assert(wants.subrange(0, i) =~= wants);
    }
}

/// What filling up to `level` takes, unless that is more than `amount`.
fn fill_within(wants: &Vec<u32>, level: u32, amount: u32) -> (taken: Option<u32>)
    ensures
        taken is Some <==> filled(wants@, level as nat) <= amount,
        taken matches Some(n) ==> n == filled(wants@, level as nat),
{
    let mut taken: u32 = 0;
    let mut i: usize = 0;
    assert(wants@.subrange(0, 0) =~= Seq::empty());
    while i < wants.len()
        invariant
            i <= wants@.len(),
            taken <= amount,
            taken == filled(wants@.subrange(0, i as int), level as nat),
        decreases wants@.len() - i,
    {
        let take: u32 = if wants[i] < level { wants[i] } else { level };
        proof {
            lemma_filled_prefix(wants@, level as nat, i as int);
            lemma_filled_prefix(wants@, level as nat, i + 1);
        }
        if take > amount - taken {
            return None;
        }
        taken = taken + take;
        i += 1;
    }
    assert(wants@.subrange(0, i as int) =~= wants@);
    Some(taken)
}

/// Shares `amount` out fairly among those who want `wants`.
pub fn fair_shares(wants: &Vec<u32>, amount: u32) -> (shares: Vec<u32>)
    ensures
        fair(wants@, amount as nat, shares@),
{
    let mut shares: Vec<u32> = Vec::new();
    proof {
        lemma_filled_all(wants@);
        lemma_filled_zero(wants@);
    }
    if let Some(_) = fill_within(wants, u32::MAX, amount) {
        let mut i: usize = 0;
        while i < wants.len()
            invariant
                i <= wants@.len(),
                shares@ == wants@.subrange(0, i as int),
            decreases wants@.len() - i,
        {
            shares.push(wants[i]);
            assert(wants@.subrange(0, i + 1) =~= wants@.subrange(0, i as int).push(
                wants@[i as int],
            ));
            i += 1;
        }
        assert(shares@ =~= wants@);
        return shares;
    }
    let mut level: u32 = 0;
    let mut taken: u32 = 0;
    let mut over: u32 = u32::MAX;
    while over - level > 1
        invariant
            level < over,
            filled(wants@, level as nat) <= amount,
            filled(wants@, over as nat) > amount,
            taken == filled(wants@, level as nat),
        decreases over - level,
    {
        let middle: u32 = level + (over - level) / 2;
        match fill_within(wants, middle, amount) {
            Some(n) => {
                level = middle;
                taken = n;
            },
            None => {
                over = middle;
            },
        }
    }
    let spare: u32 = amount - taken;
    let mut left: u32 = spare;
    let ghost lv = level as nat;
    proof {
        lemma_filled_next(wants@, lv);
    }
    let mut i: usize = 0;
    assert(wants@.subrange(0, 0) =~= Seq::empty());
    while i < wants.len()
        invariant
            i <= wants@.len(),
            shares@.len() == i,
            lv == level,
            level < u32::MAX,
            left <= spare,
            spare < above(wants@, lv),
            spare - left == least(spare as nat, above(wants@.subrange(0, i as int), lv)),
            seq_sum(shares@) == filled(wants@.subrange(0, i as int), lv) + (spare - left),
            forall|j: int|
                0 <= j < i ==> {
                    &&& #[trigger] shares@[j] <= wants@[j]
                    &&& shares@[j] <= lv + 1
                    &&& shares@[j] < wants@[j] ==> shares@[j] >= lv
                    &&& shares@[j] == lv && wants@[j] > lv ==> left == 0
                },
            forall|j: int, k: int|
                0 <= j < k < i && wants@[j] > lv && #[trigger] shares@[j] == lv
                    ==> #[trigger] shares@[k] <= lv,
        decreases wants@.len() - i,
    {
        proof {
            lemma_filled_prefix(wants@, lv, i as int);
        }
        let ghost before = shares@;
        let share: u32 = if wants[i] > level {
            if left > 0 {
                left = left - 1;
                level + 1
            } else {
                level
            }
        } else {
            wants[i]
        };
        shares.push(share);
        proof {
            assert(shares@.drop_last() =~= before);
            assert forall|j: int, k: int|
                0 <= j < k < i + 1 && wants@[j] > lv && #[trigger] shares@[j]
                    == lv implies #[trigger] shares@[k] <= lv by {
                assert(shares@[j] == before[j]);
                if k < i {
                    assert(shares@[k] == before[k]);
                }
            }
        }
        i += 1;
    }
    assert(wants@.subrange(0, i as int) =~= wants@);
    shares
}

/// What everybody holds above what it asks for.
pub open spec fn idle(demand: Seq<u32>, current: Seq<u32>) -> Seq<u32> {
    Seq::new(
        demand.len(),
        |i: int|
            if current[i] > demand[i] {
                (current[i] - demand[i]) as u32
            } else {
                0
            },
    )
}

/// A target spread over several who ask for `demand` and hold `current`: first
/// toward what each asks for, then toward what each holds idle, each time as
/// evenly as can be; what is left then goes to the first.
pub open spec fn spread_as(
    target: nat,
    demand: Seq<u32>,
    current: Seq<u32>,
    busy: Seq<u32>,
    kept: Seq<u32>,
    shares: Seq<u32>,
) -> bool {
    &&& fair(demand, target, busy)
    &&& fair(idle(demand, current), (target - seq_sum(busy)) as nat, kept)
    &&& shares.len() == demand.len()
    &&& forall|i: int|
        0 <= i < shares.len() ==> #[trigger] shares[i] == busy[i] + kept[i] + if i == 0 {
            target - seq_sum(busy) - seq_sum(kept)
        } else {
            0
        }
}

/// Whether `shares` is how a target is spread.
pub open spec fn is_spread(
    target: nat,
    demand: Seq<u32>,
    current: Seq<u32>,
    shares: Seq<u32>,
) -> bool {
    exists|busy: Seq<u32>, kept: Seq<u32>| #[trigger]
        spread_as(target, demand, current, busy, kept, shares)
}

proof fn lemma_added(a: Seq<u32>, b: Seq<u32>, c: Seq<u32>, first: nat)
    requires
        a.len() == b.len(),
        a.len() == c.len(),
        forall|i: int|
            0 <= i < c.len() ==> #[trigger] c[i] == a[i] + b[i] + if i == 0 {
                first
            } else {
                0
            },
    ensures
        c.len() > 0 ==> seq_sum(c) == seq_sum(a) + seq_sum(b) + first,
    decreases c.len(),
{
    if c.len() == 1 {
        assert(a.drop_last().len() == 0 && b.drop_last().len() == 0 && c.drop_last().len() == 0);
        assert(c[0] == a[0] + b[0] + first);
        reveal_with_fuel(seq_sum, 2);
    } else if c.len() > 1 {
        assert(c.last() == c[c.len() - 1]);
        lemma_added(a.drop_last(), b.drop_last(), c.drop_last(), first);
    }
}

/// A spread target is handed out whole.
pub proof fn law_a_spread_target_is_handed_out_whole(
    target: nat,
    demand: Seq<u32>,
    current: Seq<u32>,
    shares: Seq<u32>,
)
    requires
        is_spread(target, demand, current, shares),
        demand.len() > 0,
        demand.len() == current.len(),
    ensures
        seq_sum(shares) == target,
{
    let (busy, kept) = choose|busy: Seq<u32>, kept: Seq<u32>| #[trigger]
        spread_as(target, demand, current, busy, kept, shares);
    lemma_added(busy, kept, shares, (target - seq_sum(busy) - seq_sum(kept)) as nat);
}

/// There is only one way to spread a target.
pub proof fn law_a_target_is_spread_one_way(
    target: nat,
    demand: Seq<u32>,
    current: Seq<u32>,
    a: Seq<u32>,
    b: Seq<u32>,
)
    requires
        is_spread(target, demand, current, a),
        is_spread(target, demand, current, b),
    ensures
        a == b,
{
    let (busy_a, kept_a) = choose|busy: Seq<u32>, kept: Seq<u32>| #[trigger]
        spread_as(target, demand, current, busy, kept, a);
    let (busy_b, kept_b) = choose|busy: Seq<u32>, kept: Seq<u32>| #[trigger]
        spread_as(target, demand, current, busy, kept, b);
    law_fair_shares_are_unique(demand, target, busy_a, busy_b);
    law_fair_shares_are_unique(
        idle(demand, current),
        (target - seq_sum(busy_a)) as nat,
        kept_a,
        kept_b,
    );
    assert(a =~= b);
}

/// An idle slot gives way before a busy one: where a target does not reach for
/// all that is asked for, nobody keeps a slot that it does not ask for.
pub proof fn law_idle_slots_give_way_before_busy_ones(
    target: nat,
    demand: Seq<u32>,
    current: Seq<u32>,
    shares: Seq<u32>,
    i: int,
)
    requires
        is_spread(target, demand, current, shares),
        target <= seq_sum(demand),
        demand.len() == current.len(),
        0 <= i < shares.len(),
    ensures
        shares[i] <= demand[i],
{
    let (busy, kept) = choose|busy: Seq<u32>, kept: Seq<u32>| #[trigger]
        spread_as(target, demand, current, busy, kept, shares);
    assert(seq_sum(busy) == target);
    assert(seq_sum(kept) == 0);
    lemma_seq_sum_bounds(kept, i);
    assert(busy[i] <= demand[i]);
}

/// Whoever is alone gets the whole target.
pub proof fn law_alone_gets_the_whole_target(target: nat, demand: u32, current: u32, shares: Seq<u32>)
    requires
        is_spread(target, seq![demand], seq![current], shares),
    ensures
        shares.len() == 1,
        shares[0] == target,
{
    law_a_spread_target_is_handed_out_whole(target, seq![demand], seq![current], shares);
    reveal_with_fuel(seq_sum, 2);
}

/// Some level is the last whose filling stays within `amount`.
proof fn lemma_last_level(wants: Seq<u32>, amount: nat, upto: nat) -> (level: nat)
    requires
        filled(wants, upto) > amount,
    ensures
        level < upto,
        filled(wants, level) <= amount,
        filled(wants, level + 1) > amount,
    decreases upto,
{
    lemma_filled_zero(wants);
    let below = (upto - 1) as nat;
    if filled(wants, below) > amount {
        lemma_last_level(wants, amount, below)
    } else {
        below
    }
}

/// What is shared out when everybody gets what it wants up to `level` and the
/// first `spare` of those who want more get one more.
spec fn leveled(wants: Seq<u32>, level: nat, spare: nat) -> Seq<u32> {
    Seq::new(
        wants.len(),
        |i: int|
            if wants[i] > level {
                if above(wants.subrange(0, i), level) < spare {
                    (level + 1) as u32
                } else {
                    level as u32
                }
            } else {
                wants[i]
            },
    )
}

proof fn lemma_leveled_sum(wants: Seq<u32>, level: nat, spare: nat, n: int)
    requires
        0 <= n <= wants.len(),
        level < u32::MAX,
    ensures
        seq_sum(leveled(wants, level, spare).subrange(0, n)) == filled(wants.subrange(0, n), level)
            + least(spare, above(wants.subrange(0, n), level)),
    decreases n,
{
    let shares = leveled(wants, level, spare);
    if n > 0 {
        lemma_leveled_sum(wants, level, spare, n - 1);
        lemma_filled_prefix(wants, level, n - 1);
        assert(shares.subrange(0, n).drop_last() =~= shares.subrange(0, n - 1));
    } else {
        assert(wants.subrange(0, 0) =~= Seq::empty());
        assert(shares.subrange(0, 0) =~= Seq::empty());
    }
}

proof fn lemma_above_monotone(wants: Seq<u32>, level: nat, a: int, b: int)
    requires
        0 <= a < b <= wants.len(),
    ensures
        above(wants.subrange(0, a), level) + if wants[a] > level {
            1nat
        } else {
            0nat
        } <= above(wants.subrange(0, b), level),
    decreases b - a,
{
    lemma_filled_prefix(wants, level, b - 1);
    if a < b - 1 {
        lemma_above_monotone(wants, level, a, b - 1);
    }
}

/// Whatever is wanted can be shared fairly.
pub proof fn lemma_fair_exists(wants: Seq<u32>, amount: nat) -> (shares: Seq<u32>)
    ensures
        fair(wants, amount, shares),
{
    lemma_filled_all(wants);
    if seq_sum(wants) <= amount {
        wants
    } else {
        let level = lemma_last_level(wants, amount, u32::MAX as nat);
        let spare = (amount - filled(wants, level)) as nat;
        let shares = leveled(wants, level, spare);
        lemma_filled_next(wants, level);
        lemma_leveled_sum(wants, level, spare, wants.len() as int);
        assert(wants.subrange(0, wants.len() as int) =~= wants);
        assert(shares.subrange(0, wants.len() as int) =~= shares);
        assert forall|i: int, j: int|
            0 <= i < shares.len() && 0 <= j < shares.len() && #[trigger] shares[i]
                < wants[i] implies #[trigger] shares[j] <= shares[i] + 1 && (i < j ==> shares[j]
            <= shares[i]) by {
            if i < j {
                lemma_above_monotone(wants, level, i, j);
            }
        }
        shares
    }
}

/// Every target can be spread.
pub proof fn lemma_spread_exists(target: nat, demand: Seq<u32>, current: Seq<u32>) -> (shares: Seq<
    u32,
>)
    requires
        demand.len() == current.len(),
        target <= u32::MAX,
    ensures
        is_spread(target, demand, current, shares),
{
    let busy = lemma_fair_exists(demand, target);
    let rest = (target - seq_sum(busy)) as nat;
    let kept = lemma_fair_exists(idle(demand, current), rest);
    let over = rest - seq_sum(kept);
    let shares = Seq::new(
        demand.len(),
        |i: int| (busy[i] + kept[i] + if i == 0 { over } else { 0 }) as u32,
    );
    assert forall|i: int| 0 <= i < shares.len() implies #[trigger] shares[i] == busy[i] + kept[i]
        + if i == 0 {
        target - seq_sum(busy) - seq_sum(kept)
    } else {
        0
    } by {
        lemma_seq_sum_bounds(busy, i);
        lemma_seq_sum_bounds(kept, i);
    }
    assert(spread_as(target, demand, current, busy, kept, shares));
    shares
}

fn sum_of(list: &Vec<u32>) -> (sum: u32)
    requires
        seq_sum(list@) <= u32::MAX,
    ensures
        sum == seq_sum(list@),
{
    let mut sum: u32 = 0;
    let mut i: usize = 0;
    assert(list@.subrange(0, 0) =~= Seq::empty());
    while i < list.len()
        invariant
            i <= list@.len(),
            seq_sum(list@) <= u32::MAX,
            sum == seq_sum(list@.subrange(0, i as int)),
        decreases list@.len() - i,
    {
        proof {
            lemma_seq_sum_prefix(list@, i as int);
            lemma_seq_sum_prefix(list@, i + 1);
        }
        sum = sum + list[i];
        i += 1;
    }
    assert(list@.subrange(0, i as int) =~= list@);
    sum
}

/// Spreads a target over several who ask for `demand` and hold `current`.
pub fn spread(target: u32, demand: &Vec<u32>, current: &Vec<u32>) -> (shares: Vec<u32>)
    requires
        demand@.len() == current@.len(),
    ensures
        is_spread(target as nat, demand@, current@, shares@),
{
    let busy = fair_shares(demand, target);
    let rest: u32 = target - sum_of(&busy);
    let mut unasked: Vec<u32> = Vec::new();
    let mut i: usize = 0;
    while i < demand.len()
        invariant
            i <= demand@.len(),
            demand@.len() == current@.len(),
            unasked@.len() == i,
            forall|j: int|
                0 <= j < i ==> #[trigger] unasked@[j] == idle(demand@, current@)[j],
        decreases demand@.len() - i,
    {
        unasked.push(current[i].saturating_sub(demand[i]));
        i += 1;
    }
    assert(unasked@ =~= idle(demand@, current@));
    let kept = fair_shares(&unasked, rest);
    let over: u32 = rest - sum_of(&kept);
    let mut shares: Vec<u32> = Vec::new();
    let mut i: usize = 0;
    while i < demand.len()
        invariant
            i <= demand@.len(),
            busy@.len() == demand@.len(),
            kept@.len() == demand@.len(),
            shares@.len() == i,
            seq_sum(busy@) + seq_sum(kept@) + over == target,
            forall|j: int|
                0 <= j < i ==> #[trigger] shares@[j] == busy@[j] + kept@[j] + if j == 0 {
                    over as int
                } else {
                    0
                },
        decreases demand@.len() - i,
    {
        proof {
            lemma_seq_sum_bounds(busy@, i as int);
            lemma_seq_sum_bounds(kept@, i as int);
        }
        let extra: u32 = if i == 0 { over } else { 0 };
        shares.push(busy[i] + kept[i] + extra);
        i += 1;
    }
    assert(spread_as(target as nat, demand@, current@, busy@, kept@, shares@));
    shares
}

/// Fair shares that give everything that is wanted are what is wanted.
proof fn lemma_enough_for_everybody(wants: Seq<u32>, amount: nat, shares: Seq<u32>)
    requires
        fair(wants, amount, shares),
        amount >= seq_sum(wants),
    ensures
        shares == wants,
{
    assert forall|i: int| 0 <= i < shares.len() implies shares[i] <= #[trigger] wants[i] by {
        assert(shares[i] <= wants[i]);
    }
    lemma_seq_sum_monotone(shares, wants);
    assert forall|i: int| 0 <= i < shares.len() implies #[trigger] shares[i] == wants[i] by {
        if shares[i] < wants[i] {
            assert(seq_sum(shares) < seq_sum(wants));
        }
    }
    assert(shares =~= wants);
}

/// What is asked for comes first, what is held idle comes next, and only what is
/// left then goes to the first: nobody keeps an idle slot while somebody lacks
/// one that it asks for, and nobody gets more than it asks for and holds while
/// somebody lacks one that it holds. Whoever lacks something has at most one
/// less than anybody else.
pub proof fn law_what_is_asked_for_comes_before_what_is_held(
    target: nat,
    demand: Seq<u32>,
    current: Seq<u32>,
    shares: Seq<u32>,
    i: int,
    j: int,
)
    requires
        is_spread(target, demand, current, shares),
        demand.len() == current.len(),
        0 <= i < shares.len(),
        0 <= j < shares.len(),
    ensures
        shares.len() == demand.len(),
        shares[i] > demand[i] ==> shares[j] >= demand[j],
        shares[i] > demand[i] && shares[i] > current[i] ==> i == 0 && shares[j] >= demand[j]
            && shares[j] >= current[j],
        shares[i] < demand[i] ==> shares[j] <= shares[i] + 1 && shares[j] <= demand[j],
        shares[i] < demand[i] && i < j ==> shares[j] <= shares[i],
        demand[i] <= shares[i] < current[i] ==> shares[j] <= demand[j] || shares[j] <= current[j]
            && shares[j] - demand[j] <= shares[i] - demand[i] + 1,
{
    let (busy, kept) = choose|busy: Seq<u32>, kept: Seq<u32>| #[trigger]
        spread_as(target, demand, current, busy, kept, shares);
    let wants = idle(demand, current);
    let rest = (target - seq_sum(busy)) as nat;
    assert(shares[i] >= busy[i] && shares[j] >= busy[j]);
    if target >= seq_sum(demand) {
        lemma_enough_for_everybody(demand, target, busy);
        if rest >= seq_sum(wants) {
            lemma_enough_for_everybody(wants, rest, kept);
        } else {
            assert(seq_sum(kept) == rest);
            assert(kept[i] <= wants[i] && kept[j] <= wants[j]);
        }
    } else {
        assert(seq_sum(busy) == target);
        assert(seq_sum(kept) == 0);
        lemma_seq_sum_bounds(kept, i);
        lemma_seq_sum_bounds(kept, j);
        assert(busy[i] <= demand[i] && busy[j] <= demand[j]);
    }
}

} // verus!
