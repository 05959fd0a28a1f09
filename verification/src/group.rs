//! One dice group: validity, the number of ways it can fall, every total it
//! can give, and one random total.

use crate::error::DiceError;
use crate::notation::DiceToken;
use crate::random::random_between;
use vstd::arithmetic::div_mod::lemma_fundamental_div_mod_converse;
use vstd::arithmetic::power::{lemma1_pow, lemma_pow0, lemma_pow_increases, lemma_pow_positive, pow};
use vstd::prelude::*;

verus! {

/// A dice group `NdM`: `num` dice with `size` faces each, numbered from 1.
#[derive(Clone, Copy, Debug, PartialEq, Eq, Structural)]
pub struct RollInfo {
    pub num: u64,
    pub size: u64,
}

/// The number of ways in which `num` dice with `size` faces can fall.
pub open spec fn ways(num: nat, size: nat) -> nat {
    pow(size as int, num) as nat
}

/// The total of `num` dice with `size` faces in the `k`-th of their falls.
/// The falls are counted from 0 in the order of a mileage counter: the last
/// die changes with every step, the first die most slowly.
pub open spec fn sum_at(num: nat, size: nat, k: int) -> nat
    decreases num,
{
    if num == 0 {
        0
    } else {
        (sum_at((num - 1) as nat, size, k / (size as int)) + (k % (size as int)) + 1) as nat
    }
}

/// The totals of all the falls of `num` dice with `size` faces, in the order
/// of the falls. A total stands as often as there are falls that give it.
pub open spec fn group_sums(num: nat, size: nat) -> Seq<u64> {
    Seq::new(ways(num, size), |k: int| sum_at(num, size, k) as u64)
}

/// One more die multiplies the number of falls by the number of faces.
pub proof fn lemma_ways_step(num: nat, size: nat)
    ensures
        ways(num + 1, size) == ways(num, size) * size,
        ways(0, size) == 1,
        size >= 1 ==> ways(num, size) >= 1,
{
    reveal(pow);
    lemma_pow0(size as int);
    if size >= 1 {
        lemma_pow_positive(size as int, num);
        lemma_pow_positive(size as int, num + 1);
    }
    assert(pow(size as int, num + 1) == size * pow(size as int, num));
    assert(size * pow(size as int, num) == pow(size as int, num) * size) by (nonlinear_arith);
}

/// More dice never fall in fewer ways.
pub proof fn lemma_ways_increase(few: nat, many: nat, size: nat)
    requires
        few <= many,
        size >= 1,
    ensures
        1 <= ways(few, size) <= ways(many, size),
{
    lemma_pow_increases(size, few, many);
    lemma_pow_positive(size as int, few);
}

/// Every total lies between one point and `size` points for each die.
pub proof fn lemma_sum_at_bounds(num: nat, size: nat, k: int)
    requires
        size >= 1,
    ensures
        num <= sum_at(num, size, k) <= num * size,
    decreases num,
{
    if num > 0 {
        lemma_sum_at_bounds((num - 1) as nat, size, k / (size as int));
        assert((num - 1) * size + size == num * size) by (nonlinear_arith);
        assert(0 <= k % (size as int) < size);
    }
}

/// Dice with two faces or more fall in more ways than they have dice.
proof fn lemma_ways_exceed_dice(num: nat, size: nat)
    requires
        size >= 2,
    ensures
        ways(num, size) >= num + 1,
    decreases num,
{
    lemma_ways_step(0, size);
    if num > 0 {
        lemma_ways_exceed_dice((num - 1) as nat, size);
        lemma_ways_step((num - 1) as nat, size);
        assert(ways((num - 1) as nat, size) * size >= num + 1) by (nonlinear_arith)
            requires
                ways((num - 1) as nat, size) >= num,
                size >= 2,
                num >= 1,
        ;
    }
}

/// With two faces or more, the largest total is no more than the number of
/// falls.
pub proof fn lemma_largest_total(num: nat, size: nat)
    requires
        num >= 1,
        size >= 2,
    ensures
        num * size <= ways(num, size),
{
    lemma_ways_exceed_dice((num - 1) as nat, size);
    lemma_ways_step((num - 1) as nat, size);
    assert(num * size <= ways((num - 1) as nat, size) * size) by (nonlinear_arith)
        requires
            ways((num - 1) as nat, size) >= num,
            size >= 2,
    ;
}

/// Dice with one face fall in one way, and their total is their number.
pub proof fn lemma_one_face(num: nat, k: int)
    ensures
        ways(num, 1) == 1,
        sum_at(num, 1, k) == num,
    decreases num,
{
    lemma1_pow(num);
    if num > 0 {
        lemma_one_face((num - 1) as nat, k / 1);
    }
}

/// One die gives each of its faces once, in ascending order.
pub proof fn lemma_one_die(size: nat, k: int)
    requires
        0 <= k < size,
    ensures
        ways(1, size) == size,
        sum_at(1, size, k) == k + 1,
{
    lemma_ways_step(0, size);
    assert(1 * size == size) by (nonlinear_arith);
    assert(ways(1, size) == ways(0, size) * size);
    reveal_with_fuel(sum_at, 2);
    vstd::arithmetic::div_mod::lemma_small_mod(k as nat, size);
}

/// The fall after `k * size + d` earlier ones, with `d` below `size`, adds
/// face `d + 1` of the last die to the `k`-th fall of the other dice.
pub proof fn lemma_sum_at_step(num: nat, size: nat, k: int, d: int)
    requires
        size >= 1,
        0 <= d < size,
    ensures
        sum_at(num + 1, size, k * size + d) == sum_at(num, size, k) + d + 1,
{
    lemma_fundamental_div_mod_converse(k * size + d, size as int, k, d);
}

impl RollInfo {
    /// A group that can be rolled: at least one die, with at least one face.
    pub open spec fn valid(&self) -> bool {
        self.num >= 1 && self.size >= 1
    }

    /// The number of ways in which the dice of this group can fall.
    pub open spec fn combinations(&self) -> nat {
        ways(self.num as nat, self.size as nat)
    }

    /// What `num_possible_rolls` returns for this group.
    pub open spec fn counted(&self) -> Result<u64, DiceError> {
        if !self.valid() {
            Err(DiceError::DegenerateDiceGroup)
        } else if self.combinations() > u64::MAX {
            Err(DiceError::ComplexityOverflow)
        } else {
            Ok(self.combinations() as u64)
        }
    }

    /// What `roll_values` returns for this group.
    pub open spec fn enumerated(&self) -> Result<Seq<u64>, DiceError> {
        if !self.valid() {
            Err(DiceError::DegenerateDiceGroup)
        } else if self.combinations() > usize::MAX {
            Err(DiceError::ComplexityOverflow)
        } else {
            Ok(group_sums(self.num as nat, self.size as nat))
        }
    }

    /// The number of ways in which the dice can fall, `size` to the power of
    /// `num`. A group without dice or without faces is rejected, and so is a
    /// number that does not fit 64 bits.
    pub fn num_possible_rolls(&self) -> (count: Result<u64, DiceError>)
        ensures
            count == self.counted(),
    {
        if self.num == 0 || self.size == 0 {
            return Err(DiceError::DegenerateDiceGroup);
        }
        if self.size == 1 {
            proof {
                lemma_one_face(self.num as nat, 0);
            }
            return Ok(1);
        }
        let mut count: u64 = 1;
        let mut dice: u64 = 0;
        proof {
            lemma_ways_step(0, self.size as nat);
        }
        while dice < self.num
            invariant
                dice <= self.num,
                self.size >= 2,
                count == ways(dice as nat, self.size as nat),
            decreases self.num - dice,
        {
            proof {
                lemma_ways_step(dice as nat, self.size as nat);
                lemma_ways_increase((dice + 1) as nat, self.num as nat, self.size as nat);
            }
            match count.checked_mul(self.size) {
                Some(more) => {
                    count = more;
                },
                None => {
                    return Err(DiceError::ComplexityOverflow);
                },
            }
            dice += 1;
        }
        Ok(count)
    }

    /// Every total that the group can give, one for each way in which its
    /// dice can fall, in the order of the falls: the last die changes
    /// fastest. A group without dice or without faces is rejected, and so is
    /// one with more falls than a vector can hold.
    pub fn roll_values(&self) -> (sums: Result<Vec<u64>, DiceError>)
        ensures
            match sums {
                Ok(v) => self.enumerated() == Ok::<Seq<u64>, DiceError>(v@),
                Err(e) => self.enumerated() == Err::<Seq<u64>, DiceError>(e),
            },
    {
        let count = match self.num_possible_rolls() {
            Ok(count) => count,
            Err(e) => {
                return Err(e);
            },
        };
        if count > usize::MAX as u64 {
            return Err(DiceError::ComplexityOverflow);
        }
        let ghost size = self.size as nat;
        let mut sums: Vec<u64> = Vec::new();
        if self.size == 1 {
            sums.push(self.num);
            proof {
                lemma_one_face(self.num as nat, 0);
                assert(sums@ =~= group_sums(self.num as nat, 1));
            }
            return Ok(sums);
        }
        sums.push(0);
        let mut dice: u64 = 0;
        proof {
            lemma_ways_step(0, size);
            lemma_largest_total(self.num as nat, size);
        }
        while dice < self.num
            invariant
                dice <= self.num,
                size == self.size,
                size >= 2,
                self.num * size <= ways(self.num as nat, size) <= usize::MAX,
                sums@.len() == ways(dice as nat, size),
                forall|k: int| 0 <= k < sums@.len() ==> #[trigger] sums@[k] == sum_at(dice as nat, size, k),
            decreases self.num - dice,
        {
            let ghost before = ways(dice as nat, size);
            proof {
                lemma_ways_step(dice as nat, size);
                lemma_ways_increase((dice + 1) as nat, self.num as nat, size);
                assert((dice + 1) * size <= self.num * size) by (nonlinear_arith)
                    requires
                        dice + 1 <= self.num,
                ;
            }
            let mut longer: Vec<u64> = Vec::new();
            let mut k: usize = 0;
            while k < sums.len()
                invariant
                    k <= sums.len(),
                    dice < self.num,
                    size == self.size,
                    size >= 2,
                    before == sums@.len(),
                    before * size <= usize::MAX,
                    (dice + 1) * size <= u64::MAX,
                    longer@.len() == k * size,
                    forall|m: int|
                        0 <= m < sums@.len() ==> #[trigger] sums@[m] == sum_at(dice as nat, size, m),
                    forall|m: int|
                        0 <= m < longer@.len() ==> #[trigger] longer@[m] == sum_at(
                            (dice + 1) as nat,
                            size,
                            m,
                        ),
                decreases sums.len() - k,
            {
                let base = sums[k];
                proof {
                    lemma_sum_at_bounds(dice as nat, size, k as int);
                    assert(dice * size + size == (dice + 1) * size) by (nonlinear_arith);
                    assert((k + 1) * size <= before * size) by (nonlinear_arith)
                        requires
                            k + 1 <= before,
                    ;
                    assert((k + 1) * size == k * size + size) by (nonlinear_arith);
                }
                let mut face: u64 = 0;
                while face < self.size
                    invariant
                        face <= self.size,
                        k < sums.len(),
                        size == self.size,
                        size >= 2,
                        base == sum_at(dice as nat, size, k as int),
                        base + size <= u64::MAX,
                        k * size + size <= usize::MAX,
                        longer@.len() == k * size + face,
                        forall|m: int|
                            0 <= m < longer@.len() ==> #[trigger] longer@[m] == sum_at(
                                (dice + 1) as nat,
                                size,
                                m,
                            ),
                    decreases self.size - face,
                {
                    proof {
                        lemma_sum_at_step(dice as nat, size, k as int, face as int);
                    }
                    longer.push(base + face + 1);
                    face += 1;
                }
                k += 1;
            }
            sums = longer;
            dice += 1;
        }
        proof {
            assert(sums@ =~= group_sums(self.num as nat, size));
        }
        Ok(sums)
    }

    /// Whether `total` can be the total of one roll of this group.
    pub open spec fn can_total(&self, total: u64) -> bool {
        self.num <= total <= self.num * self.size
    }

    /// A group that can be rolled and whose largest total fits 64 bits.
    pub open spec fn rollable(&self) -> bool {
        self.valid() && self.num * self.size <= u64::MAX
    }

    /// Rolls the dice of the group once and adds them up. A group without
    /// dice or without faces is rejected, and so is one whose largest total
    /// does not fit 64 bits. Every other group gets the sum of the faces
    /// that were drawn, one for each of its dice.
    pub fn roll(&self) -> (total: Result<u64, DiceError>)
        ensures
            match total {
                Ok(t) => self.rollable() && self.can_total(t) && is_roll(self.num, self.size, t),
                Err(e) => !self.rollable() && e == if self.valid() {
                    DiceError::ComplexityOverflow
                } else {
                    DiceError::DegenerateDiceGroup
                },
            },
    {
        if self.num == 0 || self.size == 0 {
            return Err(DiceError::DegenerateDiceGroup);
        }
        if self.num.checked_mul(self.size).is_none() {
            return Err(DiceError::ComplexityOverflow);
        }
        Ok(roll_dice(self.num, self.size))
    }
}

/// The faces of some dice, added up.
pub open spec fn faces_total(faces: Seq<u64>) -> nat
    decreases faces.len(),
{
    if faces.len() == 0 {
        0
    } else {
        faces_total(faces.drop_last()) + faces.last() as nat
    }
}

/// The faces of `num_dice` dice with `size_dice` faces each: one face for
/// each die, every one of them from 1 up to `size_dice`.
pub open spec fn faces_fit(faces: Seq<u64>, num_dice: nat, size_dice: u64) -> bool {
    &&& faces.len() == num_dice
    &&& forall|i: int| 0 <= i < faces.len() ==> 1 <= #[trigger] faces[i] <= size_dice
}

/// Whether `total` is the sum of the faces of one roll of `num_dice` dice
/// with `size_dice` faces each.
pub open spec fn is_roll(num_dice: u64, size_dice: u64, total: u64) -> bool {
    exists|faces: Seq<u64>| #[trigger]
        faces_fit(faces, num_dice as nat, size_dice) && total == faces_total(faces)
}

/// Faces from 1 up to `size_dice` add up to at least one point and at most
/// `size_dice` points for each die.
pub proof fn lemma_faces_total_bounds(faces: Seq<u64>, size_dice: u64)
    requires
        forall|i: int| 0 <= i < faces.len() ==> 1 <= #[trigger] faces[i] <= size_dice,
    ensures
        faces.len() <= faces_total(faces) <= faces.len() * size_dice,
    decreases faces.len(),
{
    if faces.len() > 0 {
        let front = faces.drop_last();
        assert forall|i: int| 0 <= i < front.len() implies 1 <= #[trigger] front[i] <= size_dice by {
            assert(front[i] == faces[i]);
        }
        lemma_faces_total_bounds(front, size_dice);
        assert(front.len() * size_dice + size_dice == faces.len() * size_dice) by (nonlinear_arith)
            requires
                front.len() + 1 == faces.len(),
        ;
    }
}

/// Adds up the faces that the dice show.
pub fn total_of_faces(faces: &Vec<u64>, size_dice: u64) -> (total: u64)
    requires
        forall|i: int| 0 <= i < faces.len() ==> 1 <= #[trigger] faces[i] <= size_dice,
        faces.len() * size_dice <= u64::MAX,
    ensures
        total == faces_total(faces@),
        faces.len() <= total <= faces.len() * size_dice,
{
    let mut total: u64 = 0;
    let mut i: usize = 0;
    proof {
        lemma_faces_total_bounds(faces@, size_dice);
    }
    while i < faces.len()
        invariant
            i <= faces.len(),
            forall|k: int| 0 <= k < faces.len() ==> 1 <= #[trigger] faces[k] <= size_dice,
            faces_total(faces@) <= u64::MAX,
            total == faces_total(faces@.take(i as int)),
            total <= faces_total(faces@),
        decreases faces.len() - i,
    {
        proof {
            let seen = faces@.take(i + 1);
            assert(seen.drop_last() =~= faces@.take(i as int));
            assert(seen.last() == faces@[i as int]);
            lemma_faces_total_prefix(faces@, i + 1);
        }
        total = total + faces[i];
        i += 1;
    }
    proof {
        assert(faces@.take(i as int) =~= faces@);
    }
    total
}

/// The first faces add up to no more than all of them.
pub proof fn lemma_faces_total_prefix(faces: Seq<u64>, k: int)
    requires
        0 <= k <= faces.len(),
    ensures
        faces_total(faces.take(k)) <= faces_total(faces),
    decreases faces.len(),
{
    if k == faces.len() {
        assert(faces.take(k) =~= faces);
    } else {
        assert(faces.drop_last().take(k) =~= faces.take(k));
        lemma_faces_total_prefix(faces.drop_last(), k);
    }
}

/// Draws one face for each of `num_dice` dice with `size_dice` faces.
pub fn draw_faces(num_dice: u64, size_dice: u64) -> (faces: Vec<u64>)
    requires
        size_dice >= 1,
    ensures
        faces_fit(faces@, num_dice as nat, size_dice),
{
    let mut faces: Vec<u64> = Vec::new();
    let mut drawn: u64 = 0;
    while drawn < num_dice
        invariant
            drawn <= num_dice,
            size_dice >= 1,
            faces_fit(faces@, drawn as nat, size_dice),
        decreases num_dice - drawn,
    {
        let face = random_between(0, size_dice) + 1;
        faces.push(face);
        drawn += 1;
    }
    faces
}

/// Rolls `num_dice` dice with `size_dice` faces each and adds them up: one
/// face is drawn for each die, and the total is the sum of the faces.
pub fn roll_dice(num_dice: u64, size_dice: u64) -> (total: u64)
    requires
        size_dice >= 1,
        num_dice * size_dice <= u64::MAX,
    ensures
        is_roll(num_dice, size_dice, total),
        num_dice <= total <= num_dice * size_dice,
{
    let faces = draw_faces(num_dice, size_dice);
    let total = total_of_faces(&faces, size_dice);
    assert(faces_fit(faces@, num_dice as nat, size_dice) && total == faces_total(faces@));
    total
}

/// Every total that is enumerated for a group is the total of a fall, and
/// one that a roll of the group can give.
pub proof fn lemma_enumerated_totals(group: RollInfo, k: int)
    requires
        group.valid(),
        group.combinations() <= usize::MAX,
        0 <= k < group.combinations(),
    ensures
        group.enumerated() is Ok,
        group.enumerated()->Ok_0.len() == group.combinations(),
        group.enumerated()->Ok_0[k] == sum_at(group.num as nat, group.size as nat, k),
        group.can_total(group.enumerated()->Ok_0[k]),
{
    lemma_sum_at_bounds(group.num as nat, group.size as nat, k);
    if group.size == 1 {
        lemma_one_face(group.num as nat, k);
    } else {
        lemma_largest_total(group.num as nat, group.size as nat);
    }
}

/// What `DiceToken::group` makes of a token.
pub open spec fn group_of(token: DiceToken) -> Result<RollInfo, DiceError> {
    if token.num == Some(0u64) || token.size == Some(0u64) {
        Err(DiceError::DegenerateDiceGroup)
    } else if token.num is None || token.size is None {
        Err(DiceError::ComplexityOverflow)
    } else {
        Ok(RollInfo { num: token.num->0, size: token.size->0 })
    }
}

impl DiceToken {
    /// The dice group that the token asks for. A token that spells zero dice
    /// or zero faces is rejected as degenerate; otherwise one with a number
    /// that does not fit 64 bits is rejected as out of range.
    pub fn group(&self) -> (group: Result<RollInfo, DiceError>)
        ensures
            group == group_of(*self),
            group is Ok ==> group->Ok_0.valid(),
    {
        match (self.num, self.size) {
            (Some(0), _) => Err(DiceError::DegenerateDiceGroup),
            (_, Some(0)) => Err(DiceError::DegenerateDiceGroup),
            (Some(num), Some(size)) => Ok(RollInfo { num, size }),
            _ => Err(DiceError::ComplexityOverflow),
        }
    }
}

/// The groups that a row of tokens asks for, or the error of the first token
/// from the left that is rejected.
pub open spec fn checked_groups(tokens: Seq<DiceToken>) -> Result<Seq<RollInfo>, DiceError>
    decreases tokens.len(),
{
    if tokens.len() == 0 {
        Ok(Seq::empty())
    } else {
        match checked_groups(tokens.drop_last()) {
            Err(e) => Err(e),
            Ok(groups) => match group_of(tokens.last()) {
                Err(e) => Err(e),
                Ok(group) => Ok(groups.push(group)),
            },
        }
    }
}

/// Groups that came through the check are as many as the tokens, and each
/// of them can be rolled.
pub proof fn lemma_checked_groups(tokens: Seq<DiceToken>)
    requires
        checked_groups(tokens) is Ok,
    ensures
        checked_groups(tokens)->Ok_0.len() == tokens.len(),
        forall|i: int|
            0 <= i < tokens.len() ==> (#[trigger] checked_groups(tokens)->Ok_0[i]).valid(),
        forall|i: int|
            0 <= i < tokens.len() ==> group_of(tokens[i]) == Ok::<RollInfo, DiceError>(
                #[trigger] checked_groups(tokens)->Ok_0[i],
            ),
    decreases tokens.len(),
{
    if tokens.len() > 0 {
        lemma_checked_groups(tokens.drop_last());
    }
}

/// Checks every token and hands back the groups, or the error of the first
/// token from the left that is rejected.
pub fn check_tokens(tokens: &Vec<DiceToken>) -> (groups: Result<Vec<RollInfo>, DiceError>)
    ensures
        match groups {
            Ok(g) => checked_groups(tokens@) == Ok::<Seq<RollInfo>, DiceError>(g@),
            Err(e) => checked_groups(tokens@) == Err::<Seq<RollInfo>, DiceError>(e),
        },
{
    let mut groups: Vec<RollInfo> = Vec::new();
    let mut i: usize = 0;
    while i < tokens.len()
        invariant
            i <= tokens.len(),
            checked_groups(tokens@.take(i as int)) == Ok::<Seq<RollInfo>, DiceError>(groups@),
        decreases tokens.len() - i,
    {
        proof {
            assert(tokens@.take(i + 1).drop_last() =~= tokens@.take(i as int));
            assert(tokens@.take(i + 1).last() == tokens@[i as int]);
        }
        match tokens[i].group() {
            Ok(group) => {
                groups.push(group);
            },
            Err(e) => {
                proof {
                    lemma_checked_groups_error(tokens@, i + 1);
                }
                return Err(e);
            },
        }
        i += 1;
    }
    proof {
        assert(tokens@.take(i as int) =~= tokens@);
    }
    Ok(groups)
}

/// An error among the first tokens is the error of the whole row.
pub proof fn lemma_checked_groups_error(tokens: Seq<DiceToken>, k: int)
    requires
        0 <= k <= tokens.len(),
        checked_groups(tokens.take(k)) is Err,
    ensures
        checked_groups(tokens) == checked_groups(tokens.take(k)),
    decreases tokens.len(),
{
    if k == tokens.len() {
        assert(tokens.take(k) =~= tokens);
    } else {
        assert(tokens.drop_last().take(k) =~= tokens.take(k));
        lemma_checked_groups_error(tokens.drop_last(), k);
    }
}

} // verus!
