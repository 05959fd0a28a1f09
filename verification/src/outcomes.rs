//! Every outcome of a notation string: how many there are, and what they
//! are.

use crate::error::DiceError;
use crate::group::{
    check_tokens, checked_groups, group_sums, lemma_checked_groups, lemma_ways_increase, ways, RollInfo,
};
use crate::formula::text_fails;
use crate::notation::{extract_dice_values, filled, pieces_of, tokens_of};
use crate::roll::{evaluate_rolled, is_outcome};
use vstd::prelude::*;

verus! {

/// The number of ways in which all the dice of all the groups can fall
/// together: the product of the numbers of the groups, and 1 for no group.
pub open spec fn total_ways(groups: Seq<RollInfo>) -> nat
    decreases groups.len(),
{
    if groups.len() == 0 {
        1
    } else {
        total_ways(groups.drop_last()) * groups.last().combinations()
    }
}

/// Groups that can all be rolled.
pub open spec fn all_valid(groups: Seq<RollInfo>) -> bool {
    forall|i: int| 0 <= i < groups.len() ==> (#[trigger] groups[i]).valid()
}

/// The first groups fall in no more ways than all of them, and no single
/// group falls in more ways than all together.
pub proof fn lemma_total_ways_prefix(groups: Seq<RollInfo>, k: int)
    requires
        all_valid(groups),
        0 <= k <= groups.len(),
    ensures
        1 <= total_ways(groups.take(k)) <= total_ways(groups),
        k < groups.len() ==> groups[k].combinations() <= total_ways(groups),
        k < groups.len() ==> total_ways(groups.take(k + 1)) == total_ways(groups.take(k))
            * groups[k].combinations(),
    decreases groups.len() - k,
{
    if k == groups.len() {
        assert(groups.take(k) =~= groups);
        lemma_total_ways_positive(groups);
    } else {
        assert(groups.take(k + 1).drop_last() =~= groups.take(k));
        assert(groups.take(k + 1).last() == groups[k]);
        lemma_total_ways_prefix(groups, k + 1);
        lemma_total_ways_positive(groups.take(k));
        lemma_ways_increase(0, groups[k].num as nat, groups[k].size as nat);
        let before = total_ways(groups.take(k));
        let here = groups[k].combinations();
        assert(before <= before * here && here <= before * here) by (nonlinear_arith)
            requires
                before >= 1,
                here >= 1,
        ;
    }
}

/// Groups that can be rolled fall in at least one way.
pub proof fn lemma_total_ways_positive(groups: Seq<RollInfo>)
    requires
        all_valid(groups),
    ensures
        total_ways(groups) >= 1,
    decreases groups.len(),
{
    if groups.len() > 0 {
        lemma_total_ways_positive(groups.drop_last());
        lemma_ways_increase(0, groups.last().num as nat, groups.last().size as nat);
        let before = total_ways(groups.drop_last());
        let here = groups.last().combinations();
        assert(before * here >= 1) by (nonlinear_arith)
            requires
                before >= 1,
                here >= 1,
        ;
    }
}

/// What `roll_complexity` returns for a notation string.
pub open spec fn complexity_of(s: Seq<char>) -> Result<u64, DiceError> {
    match checked_groups(tokens_of(s)) {
        Err(e) => Err(e),
        Ok(groups) => if total_ways(groups) > u64::MAX {
            Err(DiceError::ComplexityOverflow)
        } else {
            Ok(total_ways(groups) as u64)
        },
    }
}

/// The number of outcomes that the string has when every fall of every die
/// counts: the product, over its dice groups, of `size` to the power of
/// `num`. Nothing is enumerated. A string with a rejected token gives the
/// error of the first such token, and a product that does not fit 64 bits
/// gives `ComplexityOverflow`.
pub fn roll_complexity(dice_string: &str) -> (count: Result<u64, DiceError>)
    ensures
        count == complexity_of(dice_string@),
{
    let (_, tokens) = extract_dice_values(dice_string);
    let groups = match check_tokens(&tokens) {
        Ok(groups) => groups,
        Err(e) => {
            return Err(e);
        },
    };
    proof {
        lemma_checked_groups(tokens@);
    }
    let mut total: u64 = 1;
    let mut i: usize = 0;
    while i < groups.len()
        invariant
            i <= groups.len(),
            all_valid(groups@),
            checked_groups(tokens_of(dice_string@)) == Ok::<Seq<RollInfo>, DiceError>(groups@),
            total == total_ways(groups@.take(i as int)),
        decreases groups.len() - i,
    {
        proof {
            lemma_total_ways_prefix(groups@, i as int);
            lemma_total_ways_prefix(groups@, i + 1);
        }
        let ways = match groups[i].num_possible_rolls() {
            Ok(ways) => ways,
            Err(e) => {
                return Err(e);
            },
        };
        match total.checked_mul(ways) {
            Some(more) => {
                total = more;
            },
            None => {
                return Err(DiceError::ComplexityOverflow);
            },
        }
        i += 1;
    }
    proof {
        assert(groups@.take(i as int) =~= groups@);
    }
    Ok(total)
}

/// The totals of every group, each in the order of the group's falls.
pub open spec fn sums_of(groups: Seq<RollInfo>) -> Seq<Seq<u64>> {
    Seq::new(groups.len(), |i: int| group_sums(groups[i].num as nat, groups[i].size as nat))
}

/// The `k`-th way to take one entry from every table. The ways are counted
/// from 0 in the order of a mileage counter: the entry of the last table
/// changes with every step, the entry of the first most slowly.
pub open spec fn combination(tables: Seq<Seq<u64>>, k: int) -> Seq<u64>
    decreases tables.len(),
{
    if tables.len() == 0 {
        Seq::empty()
    } else {
        let last = tables.last();
        combination(tables.drop_last(), k / (last.len() as int)).push(last[k % (last.len() as int)])
    }
}

/// The tables as sequences.
pub open spec fn table_views(tables: Seq<Vec<u64>>) -> Seq<Seq<u64>> {
    Seq::new(tables.len(), |i: int| tables[i]@)
}

/// A combination has one entry for each table.
pub proof fn lemma_combination_len(tables: Seq<Seq<u64>>, k: int)
    ensures
        combination(tables, k).len() == tables.len(),
    decreases tables.len(),
{
    if tables.len() > 0 {
        lemma_combination_len(tables.drop_last(), k / (tables.last().len() as int));
    }
}

/// Takes the `k`-th combination out of the tables.
pub fn pick_combination(tables: &Vec<Vec<u64>>, k: usize) -> (values: Vec<u64>)
    requires
        forall|i: int| 0 <= i < tables.len() ==> (#[trigger] tables[i]).len() >= 1,
    ensures
        values@ == combination(table_views(tables@), k as int),
        values@.len() == tables@.len(),
{
    let ghost all = table_views(tables@);
    proof {
        lemma_combination_len(all, k as int);
    }
    let n = tables.len();
    let mut values: Vec<u64> = Vec::new();
    let mut filling: usize = 0;
    while filling < n
        invariant
            filling <= n,
            values.len() == filling,
        decreases n - filling,
    {
        values.push(0);
        filling += 1;
    }
    let mut rest: usize = k;
    let mut i: usize = n;
    proof {
        assert(all.take(n as int) =~= all);
        assert(combination(all, k as int) + values@.subrange(n as int, n as int) =~= combination(
            all,
            k as int,
        ));
    }
    while i > 0
        invariant
            i <= n,
            n == tables.len(),
            values.len() == n,
            all == table_views(tables@),
            forall|j: int| 0 <= j < tables.len() ==> (#[trigger] tables[j]).len() >= 1,
            combination(all, k as int) == combination(all.take(i as int), rest as int) + values@.subrange(
                i as int,
                n as int,
            ),
        decreases i,
    {
        let table = &tables[i - 1];
        let entry = table[rest % table.len()];
        proof {
            let head = all.take(i as int);
            assert(head.last() == table@);
            assert(head.drop_last() =~= all.take(i - 1));
            let shorter = combination(all.take(i - 1), rest as int / table@.len() as int);
            assert(combination(head, rest as int) == shorter.push(entry));
            assert(values@.update(i - 1, entry).subrange(i - 1, n as int) =~= seq![entry]
                + values@.subrange(i as int, n as int));
            assert(shorter.push(entry) + values@.subrange(i as int, n as int) =~= shorter + (seq![entry]
                + values@.subrange(i as int, n as int)));
        }
        values.set(i - 1, entry);
        rest = rest / table.len();
        i -= 1;
    }
    proof {
        assert(all.take(0) =~= Seq::<Seq<u64>>::empty());
        assert(values@.subrange(0, n as int) =~= values@);
        assert(combination(all.take(0), rest as int) =~= Seq::<u64>::empty());
        assert(Seq::<u64>::empty() + values@ =~= values@);
    }
    values
}

/// The totals that the groups give in the `k`-th of their common falls.
pub open spec fn totals_at(groups: Seq<RollInfo>, k: int) -> Seq<u64> {
    combination(sums_of(groups), k)
}

/// Whether `rolls` is a result of enumerating the outcomes of the string
/// `s`. A rejected token decides first, then the number of outcomes. After
/// that, a list holds one outcome for each common fall of the dice, in
/// order, and the error says that some fall has a malformed expression.
pub open spec fn enumerates(s: Seq<char>, rolls: Result<Seq<i64>, DiceError>) -> bool {
    match checked_groups(tokens_of(s)) {
        Err(e) => rolls == Err::<Seq<i64>, DiceError>(e),
        Ok(groups) => if total_ways(groups) > usize::MAX {
            rolls == Err::<Seq<i64>, DiceError>(DiceError::ComplexityOverflow)
        } else {
            match rolls {
                Ok(v) => {
                    &&& v.len() == total_ways(groups)
                    &&& forall|k: int|
                        0 <= k < v.len() ==> is_outcome(
                            pieces_of(s),
                            #[trigger] totals_at(groups, k),
                            Ok(v[k]),
                        )
                },
                Err(e) => {
                    &&& e == DiceError::MalformedExpression
                    &&& exists|k: int|
                        0 <= k < total_ways(groups) && is_outcome(
                            pieces_of(s),
                            #[trigger] totals_at(groups, k),
                            Err(DiceError::MalformedExpression),
                        )
                },
            }
        },
    }
}

/// The text that goes to the evaluator for the `k`-th common fall of the
/// dice of the string `s`.
pub open spec fn text_at(s: Seq<char>, groups: Seq<RollInfo>, k: int) -> Seq<char> {
    filled(pieces_of(s), totals_at(groups, k))
}

/// Where the tokens pass and the outcomes fit a vector, enumerating fails
/// just when the text of some fall has no value, and then with
/// `MalformedExpression`; otherwise no outcome is missing.
pub proof fn lemma_enumeration_fails_with_a_text(s: Seq<char>, rolls: Result<Seq<i64>, DiceError>)
    requires
        enumerates(s, rolls),
        checked_groups(tokens_of(s)) is Ok,
        total_ways(checked_groups(tokens_of(s))->Ok_0) <= usize::MAX,
    ensures
        rolls is Err <==> exists|k: int|
            0 <= k < total_ways(checked_groups(tokens_of(s))->Ok_0) && text_fails(
                #[trigger] text_at(s, checked_groups(tokens_of(s))->Ok_0, k),
            ),
        rolls is Err ==> rolls == Err::<Seq<i64>, DiceError>(DiceError::MalformedExpression),
        rolls is Ok ==> rolls->Ok_0.len() == total_ways(checked_groups(tokens_of(s))->Ok_0),
{
    let groups = checked_groups(tokens_of(s))->Ok_0;
    match rolls {
        Ok(v) => {
            assert forall|k: int| 0 <= k < total_ways(groups) implies !text_fails(
                #[trigger] text_at(s, groups, k),
            ) by {
                assert(is_outcome(pieces_of(s), totals_at(groups, k), Ok(v[k])));
            }
        },
        Err(e) => {
            let k = choose|k: int|
                0 <= k < total_ways(groups) && is_outcome(
                    pieces_of(s),
                    #[trigger] totals_at(groups, k),
                    Err(DiceError::MalformedExpression),
                );
            assert(text_fails(text_at(s, groups, k)));
        },
    }
}

/// The complexity of a string is the number of its outcomes: whenever the
/// outcomes can be listed, there are as many as `roll_complexity` says.
pub proof fn lemma_complexity_counts_outcomes(s: Seq<char>, rolls: Seq<i64>)
    requires
        enumerates(s, Ok(rolls)),
    ensures
        complexity_of(s) == Ok::<u64, DiceError>(rolls.len() as u64),
        rolls.len() >= 1,
{
    lemma_checked_groups(tokens_of(s));
    lemma_total_ways_positive(checked_groups(tokens_of(s))->Ok_0);
}

/// Every outcome of a notation string, one for each way in which all its
/// dice can fall, in the order of a mileage counter over the groups and
/// their dice: the last die of the last group changes fastest. An outcome
/// is the value of the arithmetic around the totals, rounded toward zero.
///
/// A string with a rejected token gives the error of the first such token.
/// More outcomes than a vector can hold give `ComplexityOverflow`. If the
/// arithmetic is malformed for any of the falls, nothing is returned but
/// `MalformedExpression`: no outcome is left out in silence.
pub fn possible_rolls(string: &str) -> (rolls: Result<Vec<i64>, DiceError>)
    ensures
        match rolls {
            Ok(v) => enumerates(string@, Ok(v@)),
            Err(e) => enumerates(string@, Err(e)),
        },
{
    let (template, tokens) = extract_dice_values(string);
    let groups = match check_tokens(&tokens) {
        Ok(groups) => groups,
        Err(e) => {
            return Err(e);
        },
    };
    proof {
        lemma_checked_groups(tokens@);
    }
    let mut tables: Vec<Vec<u64>> = Vec::new();
    let mut total: usize = 1;
    let mut i: usize = 0;
    while i < groups.len()
        invariant
            i <= groups.len(),
            all_valid(groups@),
            checked_groups(tokens_of(string@)) == Ok::<Seq<RollInfo>, DiceError>(groups@),
            tables.len() == i,
            table_views(tables@) == sums_of(groups@.take(i as int)),
            total == total_ways(groups@.take(i as int)),
        decreases groups.len() - i,
    {
        proof {
            lemma_total_ways_prefix(groups@, i as int);
            lemma_total_ways_prefix(groups@, i + 1);
        }
        let sums = match groups[i].roll_values() {
            Ok(sums) => sums,
            Err(e) => {
                return Err(e);
            },
        };
        match total.checked_mul(sums.len()) {
            Some(more) => {
                total = more;
            },
            None => {
                return Err(DiceError::ComplexityOverflow);
            },
        }
        let ghost before = tables@;
        tables.push(sums);
        proof {
            let now = table_views(tables@);
            let goal = sums_of(groups@.take(i + 1));
            assert forall|j: int| 0 <= j < now.len() implies now[j] == goal[j] by {
                if j < i {
                    assert(table_views(before)[j] == sums_of(groups@.take(i as int))[j]);
                }
            }
            assert(now =~= goal);
        }
        i += 1;
    }
    proof {
        assert(groups@.take(i as int) =~= groups@);
        assert forall|j: int| 0 <= j < tables.len() implies (#[trigger] tables[j]).len() >= 1 by {
            assert(table_views(tables@)[j] == sums_of(groups@)[j]);
            lemma_ways_increase(0, groups@[j].num as nat, groups@[j].size as nat);
        }
    }
    let mut outcomes: Vec<i64> = Vec::new();
    let mut k: usize = 0;
    while k < total
        invariant
            k <= total,
            total == total_ways(groups@),
            checked_groups(tokens_of(string@)) == Ok::<Seq<RollInfo>, DiceError>(groups@),
            table_views(tables@) == sums_of(groups@),
            forall|j: int| 0 <= j < tables.len() ==> (#[trigger] tables[j]).len() >= 1,
            template.pieces() == pieces_of(string@),
            outcomes@.len() == k,
            forall|m: int|
                0 <= m < k ==> is_outcome(
                    pieces_of(string@),
                    #[trigger] totals_at(groups@, m),
                    Ok(outcomes@[m]),
                ),
        decreases total - k,
    {
        let values = pick_combination(&tables, k);
        match evaluate_rolled(&template, &values) {
            Ok(outcome) => {
                outcomes.push(outcome);
            },
            Err(e) => {
                proof {
                    assert(is_outcome(
                        pieces_of(string@),
                        totals_at(groups@, k as int),
                        Err(DiceError::MalformedExpression),
                    ));
                }
                return Err(e);
            },
        }
        k += 1;
    }
    Ok(outcomes)
}

} // verus!
