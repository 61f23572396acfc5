//! Fair distribution of a budget among the growable entries of a list of
//! sizes: the smallest is raised first, and once all are level the rest is
//! split evenly.

use crate::geometry::cap16;
use vstd::prelude::*;

verus! {

/// How many of the first `k` entries may grow.
pub open spec fn grow_count(flags: Seq<bool>, k: nat) -> nat
    decreases k,
{
    if k == 0 {
        0
    } else {
        grow_count(flags, (k - 1) as nat) + if flags[k - 1] {
            1nat
        } else {
            0nat
        }
    }
}

/// The smallest size above `floor` among the growable ones of the first `k`
/// entries, `None` where there is none. With `floor` -1 it is the smallest
/// growable size of all.
pub open spec fn lowest_above(sizes: Seq<u16>, flags: Seq<bool>, floor: int, k: nat) -> Option<u16>
    decreases k,
{
    if k == 0 {
        None
    } else {
        let rest = lowest_above(sizes, flags, floor, (k - 1) as nat);
        let s = sizes[k - 1];
        if flags[k - 1] && s > floor && (rest is None || s < rest->0) {
            Some(s)
        } else {
            rest
        }
    }
}

/// The smallest growable size of the first `k` entries.
pub open spec fn lowest(sizes: Seq<u16>, flags: Seq<bool>, k: nat) -> Option<u16> {
    lowest_above(sizes, flags, -1, k)
}

/// The first of the first `k` entries that may grow and has size `v`.
pub open spec fn first_at(sizes: Seq<u16>, flags: Seq<bool>, v: u16, k: nat) -> Option<int>
    decreases k,
{
    if k == 0 {
        None
    } else {
        let rest = first_at(sizes, flags, v, (k - 1) as nat);
        if rest is Some {
            rest
        } else if flags[k - 1] && sizes[k - 1] == v {
            Some(k - 1)
        } else {
            None
        }
    }
}

/// `sizes` with `share` added to every growable entry, capped at the grid's
/// largest length.
pub open spec fn share_out(sizes: Seq<u16>, flags: Seq<bool>, share: int) -> Seq<u16> {
    Seq::new(
        sizes.len(),
        |k: int|
            if flags[k] {
                cap16(sizes[k] + share)
            } else {
                sizes[k]
            },
    )
}

/// What [`lowest_above`] finds lies above the floor, is the size of a
/// growable entry, and no growable size lies between the floor and it.
pub proof fn lemma_lowest_above(sizes: Seq<u16>, flags: Seq<bool>, floor: int, k: nat)
    requires
        k <= sizes.len(),
    ensures
        match lowest_above(sizes, flags, floor, k) {
            Some(v) => {
                &&& v > floor
                &&& exists|j: int| 0 <= j < k && flags[j] && sizes[j] == v
                &&& forall|j: int| 0 <= j < k && flags[j] && sizes[j] > floor ==> sizes[j] >= v
            },
            None => forall|j: int| 0 <= j < k && flags[j] ==> sizes[j] <= floor,
        },
    decreases k,
{
    if k > 0 {
        lemma_lowest_above(sizes, flags, floor, (k - 1) as nat);
        let rest = lowest_above(sizes, flags, floor, (k - 1) as nat);
        match lowest_above(sizes, flags, floor, k) {
            Some(v) => {
                if rest == Some(v) {
                    let j = choose|j: int| 0 <= j < k - 1 && flags[j] && sizes[j] == v;
                    assert(0 <= j < k && flags[j] && sizes[j] == v);
                } else {
                    assert(flags[k - 1] && sizes[k - 1] == v);
                }
            },
            None => {},
        }
    }
}

/// [`first_at`] finds the first growable entry of the given size, if there
/// is one.
pub proof fn lemma_first_at(sizes: Seq<u16>, flags: Seq<bool>, v: u16, k: nat)
    requires
        k <= sizes.len(),
    ensures
        match first_at(sizes, flags, v, k) {
            Some(a) => {
                &&& 0 <= a < k
                &&& flags[a]
                &&& sizes[a] == v
                &&& forall|j: int| 0 <= j < a ==> !(flags[j] && sizes[j] == v)
            },
            None => forall|j: int| 0 <= j < k ==> !(flags[j] && sizes[j] == v),
        },
    decreases k,
{
    if k > 0 {
        lemma_first_at(sizes, flags, v, (k - 1) as nat);
    }
}

/// The sizes after `remaining` cells have been handed out among the growable
/// entries. While something is left and the growable entries are not level,
/// the first of the smallest ones is raised towards the next larger growable
/// size, by no more than what is left. Once they are level, each gets the
/// same whole share of the rest.
pub open spec fn water_fill(sizes: Seq<u16>, flags: Seq<bool>, remaining: u16) -> Seq<u16>
    decreases remaining,
{
    let n = sizes.len();
    match lowest(sizes, flags, n) {
        None => sizes,
        Some(lo) => {
            if remaining == 0 {
                sizes
            } else {
                match lowest_above(sizes, flags, lo as int, n) {
                    None => share_out(sizes, flags, remaining as int / grow_count(flags, n) as int),
                    Some(next) => {
                        proof {
                            lemma_lowest_above(sizes, flags, lo as int, n);
                        }
                        let step = if next - lo < remaining {
                            next - lo
                        } else {
                            remaining as int
                        };
                        let a = first_at(sizes, flags, lo, n)->0;
                        water_fill(
                            sizes.update(a, (lo + step) as u16),
                            flags,
                            (remaining - step) as u16,
                        )
                    },
                }
            }
        },
    }
}

/// What one look over the sizes finds.
pub struct Survey {
    /// How many entries may grow.
    pub count: usize,
    /// The smallest growable size, if any entry may grow.
    pub lowest: Option<u16>,
    /// Where the first growable entry of that size stands.
    pub first: usize,
    /// The smallest growable size above it, if the growable entries are not
    /// level.
    pub next: Option<u16>,
}

/// Looks over the sizes for what one step of the distribution needs.
pub fn survey(sizes: &Vec<u16>, flags: &Vec<bool>) -> (found: Survey)
    requires
        sizes.len() == flags.len(),
    ensures
        found.count == grow_count(flags@, sizes.len() as nat),
        found.lowest == lowest(sizes@, flags@, sizes.len() as nat),
        found.lowest matches Some(lo) ==> {
            &&& first_at(sizes@, flags@, lo, sizes.len() as nat) == Some(found.first as int)
            &&& found.first < sizes.len()
            &&& found.next == lowest_above(sizes@, flags@, lo as int, sizes.len() as nat)
            &&& found.count > 0
        },
        found.lowest is None ==> found.next is None,
{
    let n = sizes.len();
    let mut count: usize = 0;
    let mut low: Option<u16> = None;
    let mut first: usize = 0;
    let mut i: usize = 0;
    while i < n
        invariant
            i <= n,
            n == sizes.len(),
            n == flags.len(),
            count == grow_count(flags@, i as nat),
            count <= i,
            low == lowest(sizes@, flags@, i as nat),
            low matches Some(lo) ==> first_at(sizes@, flags@, lo, i as nat) == Some(first as int)
                && first < i && count > 0,
        decreases n - i,
    {
        if flags[i] {
            count += 1;
            let s = sizes[i];
            let lower = match low {
                None => true,
                Some(lo) => s < lo,
            };
            if lower {
                proof {
                    lemma_first_at(sizes@, flags@, s, i as nat);
                    lemma_lowest_above(sizes@, flags@, -1, i as nat);
                }
                low = Some(s);
                first = i;
            }
        }
        i += 1;
    }
    let mut next: Option<u16> = None;
    match low {
        None => {},
        Some(lo) => {
            let mut j: usize = 0;
            while j < n
                invariant
                    j <= n,
                    n == sizes.len(),
                    n == flags.len(),
                    next == lowest_above(sizes@, flags@, lo as int, j as nat),
                decreases n - j,
            {
                if flags[j] {
                    let s = sizes[j];
                    let lower = match next {
                        None => true,
                        Some(v) => s < v,
                    };
                    if s > lo && lower {
                        next = Some(s);
                    }
                }
                j += 1;
            }
        },
    }
    Survey { count, lowest: low, first, next }
}

/// Adds `share` to every growable entry.
pub fn raise_all(sizes: &mut Vec<u16>, flags: &Vec<bool>, share: u16)
    requires
        old(sizes).len() == flags.len(),
    ensures
        final(sizes)@ == share_out(old(sizes)@, flags@, share as int),
{
    let n = sizes.len();
    let mut i: usize = 0;
    while i < n
        invariant
            i <= n,
            n == sizes.len(),
            n == flags.len(),
            forall|j: int|
                0 <= j < i ==> sizes@[j] == (if flags@[j] {
                    cap16(old(sizes)@[j] + share)
                } else {
                    old(sizes)@[j]
                }),
            forall|j: int| i <= j < n ==> sizes@[j] == old(sizes)@[j],
        decreases n - i,
    {
        if flags[i] {
            let raised = sizes[i].saturating_add(share);
            sizes[i] = raised;
        }
        i += 1;
    }
}

/// Hands `budget` cells out among the growable entries of `sizes`.
pub fn distribute(sizes: &mut Vec<u16>, flags: &Vec<bool>, budget: u16)
    requires
        old(sizes).len() == flags.len(),
    ensures
        final(sizes)@ == water_fill(old(sizes)@, flags@, budget),
        final(sizes).len() == old(sizes).len(),
{
    let mut remaining = budget;
    while remaining > 0
        invariant_except_break
            water_fill(sizes@, flags@, remaining) == water_fill(old(sizes)@, flags@, budget),
        invariant
            sizes.len() == flags.len(),
            sizes.len() == old(sizes).len(),
        ensures
            sizes.len() == old(sizes).len(),
            sizes@ == water_fill(old(sizes)@, flags@, budget),
        decreases remaining,
    {
        let found = survey(sizes, flags);
        match found.lowest {
            None => {
                break ;
            },
            Some(lo) => {
                match found.next {
                    None => {
                        let share = (remaining as usize / found.count) as u16;
                        raise_all(sizes, flags, share);
                        break ;
                    },
                    Some(next) => {
                        proof {
                            lemma_lowest_above(sizes@, flags@, lo as int, sizes.len() as nat);
                            lemma_first_at(sizes@, flags@, lo, sizes.len() as nat);
                        }
                        let step = if next - lo < remaining {
                            next - lo
                        } else {
                            remaining
                        };
                        sizes[found.first] = lo + step;
                        remaining = remaining - step;
                    },
                }
            },
        }
    }
}

/// Handing out a budget changes no entry that may not grow, lowers none, and
/// keeps the number of entries.
pub proof fn law_fill_only_raises(sizes: Seq<u16>, flags: Seq<bool>, remaining: u16)
    requires
        sizes.len() == flags.len(),
    ensures
        water_fill(sizes, flags, remaining).len() == sizes.len(),
        forall|k: int|
            0 <= k < sizes.len() && !flags[k] ==> water_fill(sizes, flags, remaining)[k]
                == sizes[k],
        forall|k: int|
            0 <= k < sizes.len() ==> water_fill(sizes, flags, remaining)[k] >= sizes[k],
    decreases remaining,
{
    let n = sizes.len();
    match lowest(sizes, flags, n) {
        None => {},
        Some(lo) => {
            if remaining != 0 {
                match lowest_above(sizes, flags, lo as int, n) {
                    None => {
                        lemma_lowest_above(sizes, flags, -1, n);
                        let j = choose|j: int| 0 <= j < n && flags[j] && sizes[j] == lo;
                        lemma_grow_count_positive(flags, n, j);
                        lemma_share_nonneg(remaining as int, grow_count(flags, n) as int);
                    },
                    Some(next) => {
                        lemma_lowest_above(sizes, flags, lo as int, n);
                        lemma_lowest_above(sizes, flags, -1, n);
                        lemma_first_at(sizes, flags, lo, n);
                        let j = choose|j: int| 0 <= j < n && flags[j] && sizes[j] == lo;
                        assert(first_at(sizes, flags, lo, n) is Some);
                        let step = if next - lo < remaining {
                            next - lo
                        } else {
                            remaining as int
                        };
                        let a = first_at(sizes, flags, lo, n)->0;
                        let raised = sizes.update(a, (lo + step) as u16);
                        law_fill_only_raises(raised, flags, (remaining - step) as u16);
                        assert forall|k: int| 0 <= k < sizes.len() implies water_fill(
                            sizes,
                            flags,
                            remaining,
                        )[k] >= sizes[k] by {
                            assert(raised[k] >= sizes[k]);
                        }
                    },
                }
            }
        },
    }
}

/// A single entry that may grow takes the whole budget.
pub proof fn lemma_fill_single(size: u16, budget: u16)
    ensures
        water_fill(seq![size], seq![true], budget) == seq![cap16(size + budget)],
{
    let sizes = seq![size];
    let flags = seq![true];
    reveal_with_fuel(lowest_above, 2);
    reveal_with_fuel(grow_count, 2);
    assert(lowest(sizes, flags, 1) == Some(size));
    assert(lowest_above(sizes, flags, size as int, 1) == None::<u16>);
    assert(grow_count(flags, 1) == 1);
    if budget == 0 {
        assert(water_fill(sizes, flags, budget) =~= seq![cap16(size + budget)]);
    } else {
        assert(water_fill(sizes, flags, budget) == share_out(sizes, flags, budget as int / 1));
        assert(share_out(sizes, flags, budget as int) =~= seq![cap16(size + budget)]);
    }
}

/// Two entries that may grow end level when the budget suffices to raise
/// the smaller one to the larger one: each holds half of the total, the
/// half rounded down.
pub proof fn lemma_fill_pair(a: u16, b: u16, budget: u16)
    requires
        a <= b,
        b - a <= budget,
        a + b + budget <= 0xffff,
    ensures
        water_fill(seq![a, b], seq![true, true], budget) == seq![
            (b + (budget - (b - a)) / 2) as u16,
            (b + (budget - (b - a)) / 2) as u16,
        ],
        water_fill(seq![b, a], seq![true, true], budget) == seq![
            (b + (budget - (b - a)) / 2) as u16,
            (b + (budget - (b - a)) / 2) as u16,
        ],
{
    let flags = seq![true, true];
    let level = seq![b, b];
    let rest = (budget - (b - a)) as u16;
    let each = (b + rest / 2) as u16;
    reveal_with_fuel(lowest_above, 3);
    reveal_with_fuel(grow_count, 3);
    reveal_with_fuel(first_at, 3);
    assert(lowest(level, flags, 2) == Some(b));
    assert(lowest_above(level, flags, b as int, 2) == None::<u16>);
    assert(grow_count(flags, 2) == 2);
    assert(water_fill(level, flags, rest) =~= seq![each, each]) by {
        if rest != 0 {
            assert(share_out(level, flags, rest as int / 2) =~= seq![each, each]);
        }
    }
    if a < b {
        let up = seq![a, b];
        assert(lowest(up, flags, 2) == Some(a));
        assert(lowest_above(up, flags, a as int, 2) == Some(b));
        assert(first_at(up, flags, a, 2) == Some(0int));
        assert(up.update(0, b) =~= level);
        assert(water_fill(up, flags, budget) == water_fill(level, flags, rest));
        let down = seq![b, a];
        assert(lowest(down, flags, 2) == Some(a));
        assert(lowest_above(down, flags, a as int, 2) == Some(b));
        assert(first_at(down, flags, a, 2) == Some(1int));
        assert(down.update(1, b) =~= level);
        assert(water_fill(down, flags, budget) == water_fill(level, flags, rest));
    }
}

/// What the growable ones of the first `k` entries add up to.
pub open spec fn grow_total(sizes: Seq<u16>, flags: Seq<bool>, k: nat) -> int
    decreases k,
{
    if k == 0 {
        0
    } else {
        grow_total(sizes, flags, (k - 1) as nat) + if flags[k - 1] {
            sizes[k - 1] as int
        } else {
            0
        }
    }
}

proof fn lemma_total_raised(sizes: Seq<u16>, flags: Seq<bool>, k: nat, a: int, v: u16)
    requires
        k <= sizes.len(),
        0 <= a < sizes.len(),
        flags[a],
    ensures
        grow_total(sizes.update(a, v), flags, k) == grow_total(sizes, flags, k) + if a < k {
            v - sizes[a]
        } else {
            0
        },
    decreases k,
{
    if k > 0 {
        lemma_total_raised(sizes, flags, (k - 1) as nat, a, v);
    }
}

proof fn lemma_total_shared(sizes: Seq<u16>, flags: Seq<bool>, k: nat, share: int)
    requires
        k <= sizes.len(),
        share >= 0,
    ensures
        grow_total(share_out(sizes, flags, share), flags, k) <= grow_total(sizes, flags, k)
            + share * grow_count(flags, k),
    decreases k,
{
    if k > 0 {
        lemma_total_shared(sizes, flags, (k - 1) as nat, share);
        let before = grow_count(flags, (k - 1) as nat);
        assert(share * (before + 1) == share * before + share) by (nonlinear_arith);
    }
}

/// The budget bounds what is handed out: the growable entries add up to no
/// more than before and the budget together.
pub proof fn law_fill_within_budget(sizes: Seq<u16>, flags: Seq<bool>, remaining: u16)
    requires
        sizes.len() == flags.len(),
    ensures
        grow_total(water_fill(sizes, flags, remaining), flags, sizes.len()) <= grow_total(
            sizes,
            flags,
            sizes.len(),
        ) + remaining,
    decreases remaining,
{
    let n = sizes.len();
    match lowest(sizes, flags, n) {
        None => {},
        Some(lo) => {
            if remaining != 0 {
                lemma_lowest_above(sizes, flags, -1, n);
                lemma_first_at(sizes, flags, lo, n);
                match lowest_above(sizes, flags, lo as int, n) {
                    None => {
                        let j = choose|j: int| 0 <= j < n && flags[j] && sizes[j] == lo;
                        lemma_grow_count_positive(flags, n, j);
                        let count = grow_count(flags, n) as int;
                        let share = remaining as int / count;
                        assert(share >= 0 && share * count <= remaining) by (nonlinear_arith)
                            requires
                                count > 0,
                                remaining >= 0,
                                share == remaining as int / count,
                        ;
                        lemma_total_shared(sizes, flags, n, share);
                    },
                    Some(next) => {
                        lemma_lowest_above(sizes, flags, lo as int, n);
                        let step = if next - lo < remaining {
                            next - lo
                        } else {
                            remaining as int
                        };
                        let a = first_at(sizes, flags, lo, n)->0;
                        let raised = sizes.update(a, (lo + step) as u16);
                        lemma_total_raised(sizes, flags, n, a, (lo + step) as u16);
                        law_fill_within_budget(raised, flags, (remaining - step) as u16);
                        law_fill_only_raises(raised, flags, (remaining - step) as u16);
                    },
                }
            }
        },
    }
}

/// What the first `k` entries add up to.
pub open spec fn entries_total(sizes: Seq<u16>, k: nat) -> int
    decreases k,
{
    if k == 0 {
        0
    } else {
        entries_total(sizes, (k - 1) as nat) + sizes[k - 1]
    }
}

/// A total is at least each of its entries.
pub proof fn lemma_total_holds_entry(sizes: Seq<u16>, k: nat, j: int)
    requires
        0 <= j < k <= sizes.len(),
    ensures
        sizes[j] <= entries_total(sizes, k),
        0 <= entries_total(sizes, k),
    decreases k,
{
    if j < k - 1 {
        lemma_total_holds_entry(sizes, (k - 1) as nat, j);
    } else if k > 1 {
        lemma_total_holds_entry(sizes, (k - 1) as nat, 0);
    } else {
        assert(entries_total(sizes, 0) == 0);
    }
}

/// Where no entry of `b` is below that of `a`, and those that may not grow
/// are the same in both, the two lists differ in total by what the growable
/// entries differ by, and no growable entry differs by more.
proof fn lemma_totals_apart(a: Seq<u16>, b: Seq<u16>, flags: Seq<bool>, k: nat)
    requires
        k <= a.len(),
        a.len() == b.len(),
        forall|i: int| 0 <= i < a.len() ==> a[i] <= b[i],
        forall|i: int| 0 <= i < a.len() && !flags[i] ==> a[i] == b[i],
    ensures
        entries_total(b, k) - entries_total(a, k) == grow_total(b, flags, k) - grow_total(
            a,
            flags,
            k,
        ),
        forall|j: int| 0 <= j < k ==> b[j] - a[j] <= entries_total(b, k) - entries_total(a, k),
    decreases k,
{
    if k > 0 {
        lemma_totals_apart(a, b, flags, (k - 1) as nat);
    }
}

/// No entry gets more than the budget.
pub proof fn law_fill_entry_within_budget(
    sizes: Seq<u16>,
    flags: Seq<bool>,
    remaining: u16,
    j: int,
)
    requires
        sizes.len() == flags.len(),
        0 <= j < sizes.len(),
    ensures
        water_fill(sizes, flags, remaining)[j] <= sizes[j] + remaining,
{
    let filled = water_fill(sizes, flags, remaining);
    law_fill_only_raises(sizes, flags, remaining);
    law_fill_within_budget(sizes, flags, remaining);
    lemma_totals_apart(sizes, filled, flags, sizes.len());
}

/// All entries together get no more than the budget, and lose nothing.
pub proof fn law_fill_total_within_budget(sizes: Seq<u16>, flags: Seq<bool>, remaining: u16)
    requires
        sizes.len() == flags.len(),
    ensures
        entries_total(water_fill(sizes, flags, remaining), sizes.len()) <= entries_total(
            sizes,
            sizes.len(),
        ) + remaining,
        entries_total(sizes, sizes.len()) <= entries_total(
            water_fill(sizes, flags, remaining),
            sizes.len(),
        ),
{
    let filled = water_fill(sizes, flags, remaining);
    law_fill_only_raises(sizes, flags, remaining);
    law_fill_within_budget(sizes, flags, remaining);
    lemma_totals_apart(sizes, filled, flags, sizes.len());
    if sizes.len() > 0 {
        assert(filled[0] - sizes[0] <= entries_total(filled, sizes.len()) - entries_total(
            sizes,
            sizes.len(),
        ));
    }
}

/// A list with a growable entry counts at least one.
pub proof fn lemma_grow_count_positive(flags: Seq<bool>, k: nat, j: int)
    requires
        0 <= j < k,
        flags[j],
    ensures
        grow_count(flags, k) > 0,
    decreases k,
{
    if j < k - 1 {
        lemma_grow_count_positive(flags, (k - 1) as nat, j);
    }
}

proof fn lemma_share_nonneg(total: int, count: int)
    requires
        total >= 0,
    ensures
        total / count >= 0 || count <= 0,
{
    if count > 0 {
        assert(total / count >= 0) by (nonlinear_arith)
            requires
                total >= 0,
                count > 0,
        ;
    }
}

} // verus!
