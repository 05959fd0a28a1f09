//! The distribution of a list of outcomes: how often each value occurs, and
//! which share of the outcomes lies at, below and above it.

use crate::error::DiceError;
use crate::outcomes::{enumerates, lemma_complexity_counts_outcomes, possible_rolls};
use std::collections::HashMap;
use vstd::std_specs::hash::spec_keys_iter;
use vstd::std_specs::iter::IteratorSpec;
use vstd::prelude::*;

verus! {

broadcast use vstd::std_specs::hash::group_hash_axioms;

/// How often `value` occurs in `rolls`.
pub open spec fn occurrences(rolls: Seq<i64>, value: i64) -> nat
    decreases rolls.len(),
{
    if rolls.len() == 0 {
        0
    } else {
        occurrences(rolls.drop_last(), value) + if rolls.last() == value {
            1nat
        } else {
            0nat
        }
    }
}

/// The distribution of `rolls`: every value that occurs, with the number of
/// times it occurs.
pub open spec fn tally(rolls: Seq<i64>) -> Map<i64, u64> {
    Map::new(|value: i64| occurrences(rolls, value) > 0, |value: i64| occurrences(rolls, value) as u64)
}

/// A value occurs no more often than there are rolls, and it occurs at all
/// just when it is one of the rolls.
pub proof fn lemma_occurrences(rolls: Seq<i64>, value: i64)
    ensures
        occurrences(rolls, value) <= rolls.len(),
        occurrences(rolls, value) > 0 <==> rolls.contains(value),
    decreases rolls.len(),
{
    if rolls.len() > 0 {
        lemma_occurrences(rolls.drop_last(), value);
        if rolls.last() == value {
            assert(rolls[rolls.len() - 1] == value);
        } else if rolls.contains(value) {
            let i = choose|i: int| 0 <= i < rolls.len() && rolls[i] == value;
            assert(rolls.drop_last()[i] == value);
        } else if rolls.drop_last().contains(value) {
            let i = choose|i: int| 0 <= i < rolls.drop_last().len() && rolls.drop_last()[i] == value;
            assert(rolls[i] == value);
        }
    }
}

/// Counts how often each value occurs in the rolls.
pub fn roll_distribution(roll_numbers: &Vec<i64>) -> (distribution: HashMap<i64, u64>)
    ensures
        distribution@ == tally(roll_numbers@),
{
    let mut distribution: HashMap<i64, u64> = HashMap::new();
    let mut i: usize = 0;
    proof {
        assert(distribution@ =~= tally(roll_numbers@.take(0)));
    }
    while i < roll_numbers.len()
        invariant
            i <= roll_numbers.len(),
            distribution@ == tally(roll_numbers@.take(i as int)),
        decreases roll_numbers.len() - i,
    {
        let roll = roll_numbers[i];
        let ghost seen = roll_numbers@.take(i as int);
        let ghost more = roll_numbers@.take(i + 1);
        let so_far: u64 = match distribution.get(&roll) {
            Some(count) => *count,
            None => 0,
        };
        proof {
            lemma_occurrences(seen, roll);
            assert(more.drop_last() =~= seen);
            assert(more.last() == roll);
            assert(so_far == occurrences(seen, roll));
        }
        distribution.insert(roll, so_far + 1);
        proof {
            assert forall|value: i64| #[trigger]
                tally(more).contains_key(value) == distribution@.contains_key(value) by {
                lemma_occurrences(seen, value);
                lemma_occurrences(more, value);
            }
            assert(distribution@ =~= tally(more));
        }
        i += 1;
    }
    proof {
        assert(roll_numbers@.take(i as int) =~= roll_numbers@);
    }
    distribution
}

/// The count that a distribution holds for a value, and 0 for a value that
/// it does not hold.
pub open spec fn count_at(distribution: Map<i64, u64>, value: int) -> nat {
    if i64::MIN <= value <= i64::MAX && distribution.contains_key(value as i64) {
        distribution[value as i64] as nat
    } else {
        0
    }
}

/// The counts of all the values from `low` up to, but not including, `high`,
/// added up.
pub open spec fn mass_between(distribution: Map<i64, u64>, low: int, high: int) -> nat
    decreases high - low,
{
    if high <= low {
        0
    } else {
        mass_between(distribution, low, high - 1) + count_at(distribution, high - 1)
    }
}

/// All the counts of a distribution, added up.
pub open spec fn total_mass(distribution: Map<i64, u64>) -> nat {
    mass_between(distribution, i64::MIN as int, i64::MAX + 1)
}

/// The counts of all the values below `value`, added up.
pub open spec fn mass_below(distribution: Map<i64, u64>, value: i64) -> nat {
    mass_between(distribution, i64::MIN as int, value as int)
}

/// The counts of `value` and of all the values above it, added up.
pub open spec fn mass_from(distribution: Map<i64, u64>, value: i64) -> nat {
    mass_between(distribution, value as int, i64::MAX + 1)
}

/// A range of values can be cut in two, and the counts add up.
pub proof fn lemma_mass_split(distribution: Map<i64, u64>, low: int, mid: int, high: int)
    requires
        low <= mid <= high,
    ensures
        mass_between(distribution, low, high) == mass_between(distribution, low, mid) + mass_between(
            distribution,
            mid,
            high,
        ),
    decreases high - mid,
{
    if mid < high {
        lemma_mass_split(distribution, low, mid, high - 1);
    }
}

/// What lies at or above a value and what lies below it is, together, the
/// whole distribution; and the value's own count is part of the first.
pub proof fn lemma_mass_complement(distribution: Map<i64, u64>, value: i64)
    ensures
        mass_from(distribution, value) + mass_below(distribution, value) == total_mass(distribution),
        count_at(distribution, value as int) <= mass_from(distribution, value),
{
    lemma_mass_split(distribution, i64::MIN as int, value as int, i64::MAX + 1);
    lemma_mass_split(distribution, value as int, value + 1, i64::MAX + 1);
    assert(mass_between(distribution, value as int, value + 1) == count_at(distribution, value as int)) by {
        assert(mass_between(distribution, value as int, value as int) == 0);
    }
}

/// Setting the count of one value changes the mass of a range by the
/// difference of the counts if the value lies in the range, and not at all
/// if it lies outside.
pub proof fn lemma_mass_insert(distribution: Map<i64, u64>, value: i64, count: u64, low: int, high: int)
    ensures
        mass_between(distribution.insert(value, count), low, high) + (if low <= value < high {
            count_at(distribution, value as int)
        } else {
            0
        }) == mass_between(distribution, low, high) + (if low <= value < high {
            count as nat
        } else {
            0
        }),
    decreases high - low,
{
    if low < high {
        lemma_mass_insert(distribution, value, count, low, high - 1);
    }
}

/// How many of the rolls lie from `low` up to, but not including, `high`.
pub open spec fn rolls_between(rolls: Seq<i64>, low: int, high: int) -> nat
    decreases rolls.len(),
{
    if rolls.len() == 0 {
        0
    } else {
        rolls_between(rolls.drop_last(), low, high) + if low <= rolls.last() < high {
            1nat
        } else {
            0nat
        }
    }
}

/// In the distribution of some rolls, the mass of a range is the number of
/// the rolls that lie in the range.
pub proof fn lemma_tally_mass(rolls: Seq<i64>, low: int, high: int)
    requires
        rolls.len() <= u64::MAX,
    ensures
        mass_between(tally(rolls), low, high) == rolls_between(rolls, low, high),
    decreases rolls.len(),
{
    if rolls.len() == 0 {
        lemma_mass_empty(tally(rolls), low, high);
    } else {
        let seen = rolls.drop_last();
        let roll = rolls.last();
        lemma_tally_mass(seen, low, high);
        lemma_occurrences(seen, roll);
        lemma_occurrences(rolls, roll);
        let count = (occurrences(seen, roll) + 1) as u64;
        assert(tally(rolls) =~= tally(seen).insert(roll, count)) by {
            assert forall|value: i64| #[trigger]
                tally(rolls).contains_key(value) == tally(seen).insert(roll, count).contains_key(
                    value,
                ) by {
                lemma_occurrences(seen, value);
                lemma_occurrences(rolls, value);
            }
        }
        lemma_mass_insert(tally(seen), roll, count, low, high);
    }
}

/// A distribution that holds no value in a range has no mass there.
pub proof fn lemma_mass_empty(distribution: Map<i64, u64>, low: int, high: int)
    requires
        forall|value: i64| low <= value < high ==> !distribution.contains_key(value),
    ensures
        mass_between(distribution, low, high) == 0,
    decreases high - low,
{
    if low < high {
        lemma_mass_empty(distribution, low, high - 1);
    }
}

/// Every roll lies in the whole range of values.
pub proof fn lemma_rolls_between_all(rolls: Seq<i64>)
    ensures
        rolls_between(rolls, i64::MIN as int, i64::MAX + 1) == rolls.len(),
    decreases rolls.len(),
{
    if rolls.len() > 0 {
        lemma_rolls_between_all(rolls.drop_last());
    }
}

/// The counts in the distribution of some rolls add up to the number of the
/// rolls.
pub proof fn lemma_tally_total(rolls: Seq<i64>)
    requires
        rolls.len() <= u64::MAX,
    ensures
        total_mass(tally(rolls)) == rolls.len(),
{
    lemma_tally_mass(rolls, i64::MIN as int, i64::MAX + 1);
    lemma_rolls_between_all(rolls);
}

/// An exact share: `numerator` out of `denominator`.
#[derive(Clone, Copy, Debug, PartialEq, Eq, Structural)]
pub struct Fraction {
    pub numerator: u64,
    pub denominator: u64,
}

/// Which outcomes a share counts, seen from one value.
#[derive(Clone, Copy, Debug, PartialEq, Eq, Structural)]
pub enum ShareKind {
    /// The outcomes equal to the value.
    Exactly,
    /// The outcomes equal to the value or above it.
    AtLeast,
    /// The outcomes below the value.
    Below,
}

/// How many outcomes of the distribution a share of the given kind counts
/// at `value`.
pub open spec fn share_mass(distribution: Map<i64, u64>, kind: ShareKind, value: i64) -> nat {
    match kind {
        ShareKind::Exactly => count_at(distribution, value as int),
        ShareKind::AtLeast => mass_from(distribution, value),
        ShareKind::Below => mass_below(distribution, value),
    }
}

/// The shares of the given kind, one for each value of the distribution:
/// the outcomes counted, out of all outcomes.
pub open spec fn shares(distribution: Map<i64, u64>, kind: ShareKind) -> Map<i64, Fraction> {
    Map::new(
        |value: i64| distribution.contains_key(value),
        |value: i64|
            Fraction {
                numerator: share_mass(distribution, kind, value) as u64,
                denominator: total_mass(distribution) as u64,
            },
    )
}

/// The map that a list of entries spells, a later entry for a value
/// replacing an earlier one.
pub open spec fn entries_map(entries: Seq<(i64, u64)>) -> Map<i64, u64>
    decreases entries.len(),
{
    if entries.len() == 0 {
        Map::empty()
    } else {
        entries_map(entries.drop_last()).insert(entries.last().0, entries.last().1)
    }
}

/// Entries of which no two are for the same value.
pub open spec fn distinct_values(entries: Seq<(i64, u64)>) -> bool {
    forall|i: int, j: int|
        0 <= i < j < entries.len() ==> (#[trigger] entries[i]).0 != (#[trigger] entries[j]).0
}

/// The entries list the distribution: each of them is in it, no value comes
/// twice, and no value of the distribution is missing.
pub open spec fn lists(entries: Seq<(i64, u64)>, distribution: Map<i64, u64>) -> bool {
    &&& distinct_values(entries)
    &&& forall|i: int|
        0 <= i < entries.len() ==> distribution.contains_key((#[trigger] entries[i]).0)
            && distribution[entries[i].0] == entries[i].1
    &&& forall|value: i64|
        distribution.contains_key(value) ==> exists|i: int|
            0 <= i < entries.len() && (#[trigger] entries[i]).0 == value
}

/// The map of entries for distinct values holds just these entries.
pub proof fn lemma_entries_map(entries: Seq<(i64, u64)>)
    requires
        distinct_values(entries),
    ensures
        forall|i: int|
            0 <= i < entries.len() ==> entries_map(entries).contains_key((#[trigger] entries[i]).0)
                && entries_map(entries)[entries[i].0] == entries[i].1,
        forall|value: i64|
            entries_map(entries).contains_key(value) ==> exists|i: int|
                0 <= i < entries.len() && (#[trigger] entries[i]).0 == value,
    decreases entries.len(),
{
    if entries.len() > 0 {
        let front = entries.drop_last();
        assert forall|i: int, j: int| 0 <= i < j < front.len() implies (#[trigger] front[i]).0 != (
        #[trigger] front[j]).0 by {
            assert(front[i] == entries[i] && front[j] == entries[j]);
        }
        lemma_entries_map(front);
        assert forall|i: int| 0 <= i < entries.len() implies entries_map(entries).contains_key(
            (#[trigger] entries[i]).0,
        ) && entries_map(entries)[entries[i].0] == entries[i].1 by {
            if i < front.len() {
                assert(front[i] == entries[i]);
                assert(entries[i].0 != entries[entries.len() - 1].0);
            }
        }
        assert forall|value: i64| entries_map(entries).contains_key(value) implies exists|i: int|
            0 <= i < entries.len() && (#[trigger] entries[i]).0 == value by {
            if value == entries.last().0 {
                assert(entries[entries.len() - 1].0 == value);
            } else {
                assert(entries_map(front).contains_key(value));
                let i = choose|i: int| 0 <= i < front.len() && (#[trigger] front[i]).0 == value;
                assert(front[i] == entries[i]);
                assert(entries[i].0 == value);
            }
        }
    }
}

/// Entries that list a distribution spell it.
pub proof fn lemma_lists(entries: Seq<(i64, u64)>, distribution: Map<i64, u64>)
    requires
        lists(entries, distribution),
    ensures
        entries_map(entries) == distribution,
{
    lemma_entries_map(entries);
    assert forall|value: i64| entries_map(entries).contains_key(value) implies distribution.contains_key(
        value,
    ) && distribution[value] == entries_map(entries)[value] by {
        let i = choose|i: int| 0 <= i < entries.len() && (#[trigger] entries[i]).0 == value;
    }
    assert forall|value: i64| distribution.contains_key(value) implies entries_map(entries).contains_key(
        value,
    ) by {
        let i = choose|i: int| 0 <= i < entries.len() && (#[trigger] entries[i]).0 == value;
    }
    assert(entries_map(entries) =~= distribution);
}

/// The mass of the first entries is no more than the mass of all of them.
pub proof fn lemma_entries_mass_grows(entries: Seq<(i64, u64)>, k: int, low: int, high: int)
    requires
        distinct_values(entries),
        0 <= k <= entries.len(),
    ensures
        mass_between(entries_map(entries.take(k)), low, high) <= mass_between(
            entries_map(entries),
            low,
            high,
        ),
        k < entries.len() ==> mass_between(entries_map(entries.take(k + 1)), low, high)
            == mass_between(entries_map(entries.take(k)), low, high) + if low <= entries[k].0 < high {
            entries[k].1 as nat
        } else {
            0
        },
    decreases entries.len() - k,
{
    if k == entries.len() {
        assert(entries.take(k) =~= entries);
    } else {
        let front = entries.take(k);
        let more = entries.take(k + 1);
        assert(more.drop_last() =~= front);
        assert(more.last() == entries[k]);
        assert forall|i: int, j: int| 0 <= i < j < front.len() implies (#[trigger] front[i]).0 != (
        #[trigger] front[j]).0 by {
            assert(front[i] == entries[i] && front[j] == entries[j]);
        }
        lemma_entries_map(front);
        if entries_map(front).contains_key(entries[k].0) {
            let i = choose|i: int| 0 <= i < front.len() && (#[trigger] front[i]).0 == entries[k].0;
            assert(front[i] == entries[i]);
            assert(false);
        }
        lemma_mass_insert(entries_map(front), entries[k].0, entries[k].1, low, high);
        lemma_entries_mass_grows(entries, k + 1, low, high);
    }
}

/// The entries of a distribution, in the order in which the map hands them
/// out.
pub fn entries_of(distribution: &HashMap<i64, u64>) -> (entries: Vec<(i64, u64)>)
    ensures
        lists(entries@, distribution@),
{
    let mut entries: Vec<(i64, u64)> = Vec::new();
    let ghost keys = spec_keys_iter(distribution).remaining();
    for key in it: distribution.keys()
        invariant
            it.seq() == keys,
            keys.no_duplicates(),
            keys.unref().to_set() == distribution@.dom(),
            entries@.len() == it.index(),
            forall|i: int|
                0 <= i < entries@.len() ==> (#[trigger] entries@[i]).0 == *keys[i]
                    && distribution@.contains_key(entries@[i].0) && distribution@[entries@[i].0]
                    == entries@[i].1,
    {
        proof {
            let k = it.index();
            assert(keys.unref()[k] == *keys[k]);
            assert(keys.unref().to_set().contains(*key));
        }
        let count: u64 = match distribution.get(key) {
            Some(count) => *count,
            None => 0,
        };
        entries.push((*key, count));
    }
    proof {
        assert forall|i: int, j: int| 0 <= i < j < entries@.len() implies (#[trigger] entries@[i]).0 != (
        #[trigger] entries@[j]).0 by {
            assert(keys[i] != keys[j]);
        }
        assert forall|value: i64| distribution@.contains_key(value) implies exists|i: int|
            0 <= i < entries@.len() && (#[trigger] entries@[i]).0 == value by {
            assert(keys.unref().to_set().contains(value));
            let i = choose|i: int| 0 <= i < keys.unref().len() && keys.unref()[i] == value;
            assert(entries@[i].0 == value);
        }
    }
    entries
}

/// Adds up the counts of the entries whose values lie from `low` up to, but
/// not including, `high`. `None` means that the sum does not fit 64 bits.
pub fn sum_counts(entries: &Vec<(i64, u64)>, low: i128, high: i128) -> (sum: Option<u64>)
    requires
        distinct_values(entries@),
    ensures
        match sum {
            Some(mass) => mass == mass_between(entries_map(entries@), low as int, high as int),
            None => mass_between(entries_map(entries@), low as int, high as int) > u64::MAX,
        },
{
    let mut sum: u64 = 0;
    let mut k: usize = 0;
    proof {
        assert(entries@.take(0) =~= Seq::<(i64, u64)>::empty());
        lemma_mass_empty(entries_map(entries@.take(0)), low as int, high as int);
    }
    while k < entries.len()
        invariant
            k <= entries.len(),
            distinct_values(entries@),
            sum == mass_between(entries_map(entries@.take(k as int)), low as int, high as int),
        decreases entries.len() - k,
    {
        let (value, count) = entries[k];
        proof {
            lemma_entries_mass_grows(entries@, k as int, low as int, high as int);
            lemma_entries_mass_grows(entries@, k + 1, low as int, high as int);
        }
        if low <= value as i128 && (value as i128) < high {
            match sum.checked_add(count) {
                Some(more) => {
                    sum = more;
                },
                None => {
                    return None;
                },
            }
        }
        k += 1;
    }
    proof {
        assert(entries@.take(k as int) =~= entries@);
    }
    Some(sum)
}

/// The shares of one kind for every value of a distribution. The only
/// error is `ComplexityOverflow`, for counts that add up to more than 64
/// bits hold.
pub fn roll_shares(distribution: &HashMap<i64, u64>, kind: ShareKind) -> (result: Result<
    HashMap<i64, Fraction>,
    DiceError,
>)
    ensures
        match result {
            Ok(found) => total_mass(distribution@) <= u64::MAX && found@ == shares(distribution@, kind),
            Err(e) => total_mass(distribution@) > u64::MAX && e == DiceError::ComplexityOverflow,
        },
{
    let entries = entries_of(distribution);
    proof {
        lemma_lists(entries@, distribution@);
    }
    let total = match sum_counts(&entries, i64::MIN as i128, i64::MAX as i128 + 1) {
        Some(total) => total,
        None => {
            return Err(DiceError::ComplexityOverflow);
        },
    };
    let mut found: HashMap<i64, Fraction> = HashMap::new();
    let mut k: usize = 0;
    while k < entries.len()
        invariant
            k <= entries.len(),
            lists(entries@, distribution@),
            entries_map(entries@) == distribution@,
            total == total_mass(distribution@),
            forall|value: i64|
                found@.contains_key(value) <==> exists|i: int|
                    0 <= i < k && (#[trigger] entries@[i]).0 == value,
            forall|value: i64| #[trigger]
                found@.contains_key(value) ==> found@[value] == shares(distribution@, kind)[value],
        decreases entries.len() - k,
    {
        let (value, count) = entries[k];
        proof {
            lemma_mass_complement(distribution@, value);
            lemma_mass_split(distribution@, i64::MIN as int, value as int, i64::MAX + 1);
        }
        let part = match kind {
            ShareKind::Exactly => Some(count),
            ShareKind::AtLeast => sum_counts(&entries, value as i128, i64::MAX as i128 + 1),
            ShareKind::Below => sum_counts(&entries, i64::MIN as i128, value as i128),
        };
        let numerator = match part {
            Some(numerator) => numerator,
            None => {
                return Err(DiceError::ComplexityOverflow);
            },
        };
        let ghost before = found@;
        found.insert(value, Fraction { numerator, denominator: total });
        proof {
            assert forall|v: i64| found@.contains_key(v) <==> exists|i: int|
                0 <= i < k + 1 && (#[trigger] entries@[i]).0 == v by {
                if found@.contains_key(v) {
                    if v == value {
                        assert(entries@[k as int].0 == v);
                    } else {
                        assert(before.contains_key(v));
                        let i = choose|i: int| 0 <= i < k && (#[trigger] entries@[i]).0 == v;
                        assert(0 <= i < k + 1 && entries@[i].0 == v);
                    }
                }
                if exists|i: int| 0 <= i < k + 1 && (#[trigger] entries@[i]).0 == v {
                    let i = choose|i: int| 0 <= i < k + 1 && (#[trigger] entries@[i]).0 == v;
                    if i < k {
                        assert(before.contains_key(v));
                    }
                }
            }
        }
        k += 1;
    }
    proof {
        assert forall|value: i64| found@.contains_key(value) == distribution@.contains_key(value) by {
            if distribution@.contains_key(value) {
                let i = choose|i: int| 0 <= i < entries@.len() && (#[trigger] entries@[i]).0 == value;
                assert(0 <= i < k && entries@[i].0 == value);
            }
            if found@.contains_key(value) {
                let i = choose|i: int| 0 <= i < k && (#[trigger] entries@[i]).0 == value;
            }
        }
        assert(found@ =~= shares(distribution@, kind));
    }
    Ok(found)
}

/// For every value of a distribution, the share of the outcomes that equal
/// it: its count out of all outcomes.
pub fn roll_percentage(distribution: &HashMap<i64, u64>) -> (result: Result<
    HashMap<i64, Fraction>,
    DiceError,
>)
    ensures
        match result {
            Ok(found) => total_mass(distribution@) <= u64::MAX && found@ == shares(
                distribution@,
                ShareKind::Exactly,
            ),
            Err(e) => total_mass(distribution@) > u64::MAX && e == DiceError::ComplexityOverflow,
        },
{
    roll_shares(distribution, ShareKind::Exactly)
}

/// For every value of a distribution, the share of the outcomes that are
/// equal to it or above it.
pub fn roll_over_percentage(distribution: &HashMap<i64, u64>) -> (result: Result<
    HashMap<i64, Fraction>,
    DiceError,
>)
    ensures
        match result {
            Ok(found) => total_mass(distribution@) <= u64::MAX && found@ == shares(
                distribution@,
                ShareKind::AtLeast,
            ),
            Err(e) => total_mass(distribution@) > u64::MAX && e == DiceError::ComplexityOverflow,
        },
{
    roll_shares(distribution, ShareKind::AtLeast)
}

/// For every value of a distribution, the share of the outcomes that are
/// below it.
pub fn roll_under_percentage(distribution: &HashMap<i64, u64>) -> (result: Result<
    HashMap<i64, Fraction>,
    DiceError,
>)
    ensures
        match result {
            Ok(found) => total_mass(distribution@) <= u64::MAX && found@ == shares(
                distribution@,
                ShareKind::Below,
            ),
            Err(e) => total_mass(distribution@) > u64::MAX && e == DiceError::ComplexityOverflow,
        },
{
    roll_shares(distribution, ShareKind::Below)
}

/// The numerators of a map of shares.
pub open spec fn numerators(found: Map<i64, Fraction>) -> Map<i64, u64> {
    Map::new(|value: i64| found.contains_key(value), |value: i64| found[value].numerator)
}

/// The shares of the single values of a distribution add up to the whole:
/// their numerators, added up, give the denominator that they all have.
pub proof fn lemma_percentages_add_up(distribution: Map<i64, u64>)
    requires
        total_mass(distribution) <= u64::MAX,
    ensures
        total_mass(numerators(shares(distribution, ShareKind::Exactly))) == total_mass(distribution),
        forall|value: i64|
            distribution.contains_key(value) ==> (#[trigger] shares(
                distribution,
                ShareKind::Exactly,
            )[value]).denominator == total_mass(distribution),
{
    assert(numerators(shares(distribution, ShareKind::Exactly)) =~= distribution);
}

/// At every value of a distribution, the share at or above the value and
/// the share below it add up to the whole.
pub proof fn lemma_over_and_under_add_up(distribution: Map<i64, u64>, value: i64)
    requires
        total_mass(distribution) <= u64::MAX,
        distribution.contains_key(value),
    ensures
        shares(distribution, ShareKind::AtLeast)[value].numerator + shares(
            distribution,
            ShareKind::Below,
        )[value].numerator == total_mass(distribution),
        shares(distribution, ShareKind::AtLeast)[value].denominator == total_mass(distribution),
        shares(distribution, ShareKind::Below)[value].denominator == total_mass(distribution),
        shares(distribution, ShareKind::Exactly)[value].numerator >= 1 ==> total_mass(distribution) >= 1,
{
    lemma_mass_complement(distribution, value);
}

/// One line of the table of a distribution.
#[derive(Clone, Copy, Debug, PartialEq, Eq, Structural)]
pub struct DistributionRow {
    /// The outcome.
    pub value: i64,
    /// How many of the outcomes equal it.
    pub count: u64,
    /// The share of the outcomes that equal it.
    pub percentage: Fraction,
    /// The share of the outcomes that equal it or lie above it.
    pub roll_over: Fraction,
    /// The share of the outcomes that lie below it.
    pub roll_under: Fraction,
}

/// The line of the table for one value of a distribution.
pub open spec fn row_of(distribution: Map<i64, u64>, value: i64) -> DistributionRow {
    DistributionRow {
        value,
        count: distribution[value],
        percentage: shares(distribution, ShareKind::Exactly)[value],
        roll_over: shares(distribution, ShareKind::AtLeast)[value],
        roll_under: shares(distribution, ShareKind::Below)[value],
    }
}

/// The table of a distribution: one line for each of its values, the lines
/// ascending by value.
pub open spec fn is_table(rows: Seq<DistributionRow>, distribution: Map<i64, u64>) -> bool {
    &&& forall|i: int, j: int|
        0 <= i < j < rows.len() ==> (#[trigger] rows[i]).value < (#[trigger] rows[j]).value
    &&& forall|i: int|
        0 <= i < rows.len() ==> distribution.contains_key((#[trigger] rows[i]).value) && rows[i]
            == row_of(distribution, rows[i].value)
    &&& forall|value: i64|
        distribution.contains_key(value) ==> exists|i: int|
            0 <= i < rows.len() && (#[trigger] rows[i]).value == value
}

/// Entries in ascending order of their values.
pub open spec fn ascending(entries: Seq<(i64, u64)>) -> bool {
    forall|i: int, j: int|
        0 <= i < j < entries.len() ==> (#[trigger] entries[i]).0 < (#[trigger] entries[j]).0
}

/// Puts entries for distinct values in ascending order of the values.
pub fn sort_entries(entries: &Vec<(i64, u64)>) -> (sorted: Vec<(i64, u64)>)
    requires
        distinct_values(entries@),
    ensures
        ascending(sorted@),
        sorted@.len() == entries@.len(),
        forall|e: (i64, u64)| sorted@.contains(e) <==> entries@.contains(e),
{
    let mut sorted: Vec<(i64, u64)> = Vec::new();
    let mut k: usize = 0;
    while k < entries.len()
        invariant
            k <= entries.len(),
            distinct_values(entries@),
            ascending(sorted@),
            sorted@.len() == k,
            forall|e: (i64, u64)| sorted@.contains(e) <==> entries@.take(k as int).contains(e),
        decreases entries.len() - k,
    {
        let entry = entries[k];
        let mut at: usize = 0;
        while at < sorted.len() && sorted[at].0 < entry.0
            invariant
                at <= sorted.len(),
                forall|i: int| 0 <= i < at ==> (#[trigger] sorted@[i]).0 < entry.0,
            decreases sorted.len() - at,
        {
            at += 1;
        }
        let ghost before = sorted@;
        proof {
            if at < sorted.len() {
                assert(before.contains(before[at as int]));
                assert(entries@.take(k as int).contains(before[at as int]));
                let m = choose|m: int|
                    0 <= m < entries@.take(k as int).len() && entries@.take(k as int)[m] == before[at as int];
                assert(entries@[m].0 != entries@[k as int].0);
            }
        }
        sorted.insert(at, entry);
        proof {
            let after = sorted@;
            assert(after == before.insert(at as int, entry));
            assert forall|i: int, j: int| 0 <= i < j < after.len() implies (#[trigger] after[i]).0 < (
            #[trigger] after[j]).0 by {
                if i < at && j > at {
                    assert(after[i] == before[i] && after[j] == before[j - 1]);
                } else if i < at && j < at {
                    assert(after[i] == before[i] && after[j] == before[j]);
                } else if i > at {
                    assert(after[i] == before[i - 1] && after[j] == before[j - 1]);
                } else if i == at {
                    assert(after[j] == before[j - 1]);
                    assert(before[at as int].0 <= before[j - 1].0);
                } else {
                    assert(after[i] == before[i]);
                }
            }
            let seen = entries@.take(k as int);
            let more = entries@.take(k + 1);
            assert forall|e: (i64, u64)| after.contains(e) <==> more.contains(e) by {
                if after.contains(e) {
                    let i = choose|i: int| 0 <= i < after.len() && after[i] == e;
                    if i == at {
                        assert(more[k as int] == e);
                    } else {
                        let j = if i < at {
                            i
                        } else {
                            i - 1
                        };
                        assert(before[j] == e);
                        assert(before.contains(e));
                        assert(seen.contains(e));
                        let m = choose|m: int| 0 <= m < seen.len() && seen[m] == e;
                        assert(more[m] == e);
                    }
                }
                if more.contains(e) {
                    let m = choose|m: int| 0 <= m < more.len() && more[m] == e;
                    if m == k {
                        assert(after[at as int] == e);
                    } else {
                        assert(seen[m] == e);
                        assert(seen.contains(e));
                        assert(before.contains(e));
                        let j = choose|j: int| 0 <= j < before.len() && before[j] == e;
                        if j < at {
                            assert(after[j] == e);
                        } else {
                            assert(after[j + 1] == e);
                        }
                    }
                }
            }
        }
        k += 1;
    }
    proof {
        assert(entries@.take(k as int) =~= entries@);
    }
    sorted
}

/// Entries that hold the same as a list of a distribution, in ascending
/// order, list the distribution too.
pub proof fn lemma_sorted_lists(sorted: Seq<(i64, u64)>, entries: Seq<(i64, u64)>, distribution: Map<i64, u64>)
    requires
        lists(entries, distribution),
        ascending(sorted),
        forall|e: (i64, u64)| sorted.contains(e) <==> entries.contains(e),
    ensures
        lists(sorted, distribution),
{
    assert forall|i: int| 0 <= i < sorted.len() implies distribution.contains_key(
        (#[trigger] sorted[i]).0,
    ) && distribution[sorted[i].0] == sorted[i].1 by {
        assert(sorted.contains(sorted[i]));
        let m = choose|m: int| 0 <= m < entries.len() && entries[m] == sorted[i];
        assert(distribution.contains_key(entries[m].0));
    }
    assert forall|value: i64| distribution.contains_key(value) implies exists|i: int|
        0 <= i < sorted.len() && (#[trigger] sorted[i]).0 == value by {
        let m = choose|m: int| 0 <= m < entries.len() && (#[trigger] entries[m]).0 == value;
        assert(entries.contains(entries[m]));
        let i = choose|i: int| 0 <= i < sorted.len() && sorted[i] == entries[m];
        assert(sorted[i].0 == value);
    }
}

/// The table of a distribution: for each value its count and its three
/// shares, the lines ascending by value. The only error is
/// `ComplexityOverflow`, for counts that add up to more than 64 bits hold.
pub fn distribution_rows(distribution: &HashMap<i64, u64>) -> (result: Result<
    Vec<DistributionRow>,
    DiceError,
>)
    ensures
        match result {
            Ok(rows) => total_mass(distribution@) <= u64::MAX && is_table(rows@, distribution@),
            Err(e) => total_mass(distribution@) > u64::MAX && e == DiceError::ComplexityOverflow,
        },
{
    let unordered = entries_of(distribution);
    let entries = sort_entries(&unordered);
    proof {
        lemma_sorted_lists(entries@, unordered@, distribution@);
        lemma_lists(entries@, distribution@);
    }
    let total = match sum_counts(&entries, i64::MIN as i128, i64::MAX as i128 + 1) {
        Some(total) => total,
        None => {
            return Err(DiceError::ComplexityOverflow);
        },
    };
    let mut rows: Vec<DistributionRow> = Vec::new();
    let mut k: usize = 0;
    while k < entries.len()
        invariant
            k <= entries.len(),
            lists(entries@, distribution@),
            ascending(entries@),
            entries_map(entries@) == distribution@,
            total == total_mass(distribution@),
            rows@.len() == k,
            forall|i: int|
                0 <= i < k ==> (#[trigger] rows@[i]).value == entries@[i].0 && rows@[i] == row_of(
                    distribution@,
                    entries@[i].0,
                ),
        decreases entries.len() - k,
    {
        let (value, count) = entries[k];
        proof {
            lemma_mass_complement(distribution@, value);
        }
        let below = match sum_counts(&entries, i64::MIN as i128, value as i128) {
            Some(below) => below,
            None => {
                return Err(DiceError::ComplexityOverflow);
            },
        };
        let from = match sum_counts(&entries, value as i128, i64::MAX as i128 + 1) {
            Some(from) => from,
            None => {
                return Err(DiceError::ComplexityOverflow);
            },
        };
        rows.push(
            DistributionRow {
                value,
                count,
                percentage: Fraction { numerator: count, denominator: total },
                roll_over: Fraction { numerator: from, denominator: total },
                roll_under: Fraction { numerator: below, denominator: total },
            },
        );
        k += 1;
    }
    proof {
        assert forall|value: i64| distribution@.contains_key(value) implies exists|i: int|
            0 <= i < rows@.len() && (#[trigger] rows@[i]).value == value by {
            let i = choose|i: int| 0 <= i < entries@.len() && (#[trigger] entries@[i]).0 == value;
            assert(rows@[i].value == value);
        }
        assert forall|i: int, j: int| 0 <= i < j < rows@.len() implies (#[trigger] rows@[i]).value < (
        #[trigger] rows@[j]).value by {
            assert(entries@[i].0 < entries@[j].0);
        }
    }
    Ok(rows)
}

/// The outcomes of a notation string with their distribution and the exact
/// share of each value.
#[derive(Clone, Debug)]
pub struct DiceDistribution {
    /// The notation string.
    pub dice_string: String,
    /// Every outcome, one for each way in which the dice can fall.
    pub possible_rolls: Vec<i64>,
    /// How often each value occurs among the outcomes.
    pub distribution: HashMap<i64, u64>,
    /// For each value, the share of the outcomes that equal it.
    pub roll_percentages: HashMap<i64, Fraction>,
    /// For each value, the share of the outcomes that equal it or lie above.
    pub roll_over: HashMap<i64, Fraction>,
    /// For each value, the share of the outcomes that lie below it.
    pub roll_under: HashMap<i64, Fraction>,
}

impl DiceDistribution {
    /// The parts belong together: the outcomes are those of the string, the
    /// distribution counts them, and the shares are those of the
    /// distribution.
    pub open spec fn wf(&self) -> bool {
        &&& enumerates(self.dice_string@, Ok(self.possible_rolls@))
        &&& self.possible_rolls@.len() >= 1
        &&& self.distribution@ == tally(self.possible_rolls@)
        &&& total_mass(self.distribution@) == self.possible_rolls@.len()
        &&& self.roll_percentages@ == shares(self.distribution@, ShareKind::Exactly)
        &&& self.roll_over@ == shares(self.distribution@, ShareKind::AtLeast)
        &&& self.roll_under@ == shares(self.distribution@, ShareKind::Below)
    }

    /// Enumerates the outcomes of the string, counts them and works out the
    /// shares. The errors are those of `possible_rolls`.
    pub fn new(dice_string: &str) -> (result: Result<DiceDistribution, DiceError>)
        ensures
            match result {
                Ok(made) => made.dice_string@ == dice_string@ && made.wf(),
                Err(e) => enumerates(dice_string@, Err(e)),
            },
    {
        let possible_rolls = match possible_rolls(dice_string) {
            Ok(rolls) => rolls,
            Err(e) => {
                return Err(e);
            },
        };
        let distribution = roll_distribution(&possible_rolls);
        proof {
            lemma_tally_total(possible_rolls@);
            lemma_complexity_counts_outcomes(dice_string@, possible_rolls@);
        }
        let roll_percentages = match roll_percentage(&distribution) {
            Ok(found) => found,
            Err(e) => {
                return Err(e);
            },
        };
        let roll_over = match roll_over_percentage(&distribution) {
            Ok(found) => found,
            Err(e) => {
                return Err(e);
            },
        };
        let roll_under = match roll_under_percentage(&distribution) {
            Ok(found) => found,
            Err(e) => {
                return Err(e);
            },
        };
        Ok(
            DiceDistribution {
                dice_string: dice_string.to_owned(),
                possible_rolls,
                distribution,
                roll_percentages,
                roll_over,
                roll_under,
            },
        )
    }

    /// The table of the distribution, the lines ascending by value.
    pub fn rows(&self) -> (result: Result<Vec<DistributionRow>, DiceError>)
        ensures
            match result {
                Ok(rows) => total_mass(self.distribution@) <= u64::MAX && is_table(
                    rows@,
                    self.distribution@,
                ),
                Err(e) => total_mass(self.distribution@) > u64::MAX && e
                    == DiceError::ComplexityOverflow,
            },
            self.wf() ==> result is Ok,
    {
        distribution_rows(&self.distribution)
    }
}

/// In a distribution whose parts belong together, the shares of the single
/// values add up to the whole, and so do, at every value, the share at or
/// above the value and the share below it. The whole is the number of the
/// outcomes, which is at least one.
pub proof fn lemma_distribution_shares(made: DiceDistribution, value: i64)
    requires
        made.wf(),
        made.possible_rolls@.len() <= u64::MAX,
        made.distribution@.contains_key(value),
    ensures
        made.possible_rolls@.len() >= 1,
        total_mass(numerators(made.roll_percentages@)) == made.possible_rolls@.len(),
        made.roll_percentages@[value].numerator == occurrences(made.possible_rolls@, value),
        made.roll_percentages@[value].denominator == made.possible_rolls@.len(),
        made.roll_over@[value].denominator == made.possible_rolls@.len(),
        made.roll_under@[value].denominator == made.possible_rolls@.len(),
        made.roll_over@[value].numerator + made.roll_under@[value].numerator
            == made.possible_rolls@.len(),
        made.roll_under@[value].numerator == rolls_between(
            made.possible_rolls@,
            i64::MIN as int,
            value as int,
        ),
        made.roll_over@[value].numerator == rolls_between(
            made.possible_rolls@,
            value as int,
            i64::MAX + 1,
        ),
{
    let rolls = made.possible_rolls@;
    lemma_percentages_add_up(made.distribution@);
    lemma_over_and_under_add_up(made.distribution@, value);
    lemma_mass_complement(made.distribution@, value);
    lemma_occurrences(rolls, value);
    lemma_tally_mass(rolls, i64::MIN as int, value as int);
    lemma_tally_mass(rolls, value as int, i64::MAX + 1);
}

} // verus!
