//! Finding the dice groups of a notation string.
//!
//! A dice group is one or more digits, a lower-case `d`, and one or more
//! digits. Groups are found from left to right, each as long as it can be,
//! and two groups never share a character. Whatever lies between them is
//! literal text and is kept as it is.

use crate::decimal::{char_is_digit, decimal_text, digits_value, is_digit, parse_digits, push_decimal};
use crate::text::{chars_of, push_chars};
use vstd::prelude::*;

verus! {

/// The length of the longest run of digits that starts at position `i`.
pub open spec fn digit_run(s: Seq<char>, i: int) -> nat
    decreases s.len() - i,
{
    if 0 <= i < s.len() && is_digit(s[i]) {
        1 + digit_run(s, i + 1)
    } else {
        0
    }
}

/// The place of one dice group in a text: `start` is its first digit, `sep`
/// its `d`, and `end` the position after its last digit.
pub struct Span {
    pub start: int,
    pub sep: int,
    pub end: int,
}

/// The dice group that starts at position `i`, if one does.
pub open spec fn group_at(s: Seq<char>, i: int) -> Option<Span> {
    let sep = i + digit_run(s, i);
    let end = sep + 1 + digit_run(s, sep + 1);
    if sep > i && sep < s.len() && s[sep] == 'd' && end > sep + 1 {
        Some(Span { start: i, sep, end })
    } else {
        None
    }
}

/// The dice groups of `s` that start at position `i` or later, in order.
pub open spec fn groups_from(s: Seq<char>, i: int) -> Seq<Span>
    decreases s.len() - i,
    via groups_from_decreases
{
    if i < 0 || i >= s.len() {
        Seq::empty()
    } else {
        match group_at(s, i) {
            Some(span) => seq![span] + groups_from(s, span.end),
            None => groups_from(s, i + 1),
        }
    }
}

#[via_fn]
proof fn groups_from_decreases(s: Seq<char>, i: int) {
    if 0 <= i < s.len() {
        if let Some(span) = group_at(s, i) {
            lemma_digit_run(s, i);
            lemma_digit_run(s, span.sep + 1);
        }
    }
}

/// All the dice groups of `s`.
pub open spec fn groups_of(s: Seq<char>) -> Seq<Span> {
    groups_from(s, 0)
}

/// A run of digits stays inside the text, holds digits only, and cannot be
/// made longer.
pub proof fn lemma_digit_run(s: Seq<char>, i: int)
    requires
        0 <= i <= s.len(),
    ensures
        i + digit_run(s, i) <= s.len(),
        forall|j: int| i <= j < i + digit_run(s, i) ==> is_digit(#[trigger] s[j]),
        i + digit_run(s, i) < s.len() ==> !is_digit(s[i + digit_run(s, i)]),
    decreases s.len() - i,
{
    if i < s.len() && is_digit(s[i]) {
        lemma_digit_run(s, i + 1);
    }
}

/// From a position inside a run of digits, the run goes on to the same end.
pub proof fn lemma_digit_run_inside(s: Seq<char>, i: int, j: int)
    requires
        0 <= i <= j <= i + digit_run(s, i),
    ensures
        j + digit_run(s, j) == i + digit_run(s, i),
    decreases j - i,
{
    if i < j {
        lemma_digit_run_inside(s, i + 1, j);
    }
}

/// Where no group starts at any of the positions `i..k`, the groups from
/// `i` on are the groups from `k` on.
pub proof fn lemma_groups_skip(s: Seq<char>, i: int, k: int)
    requires
        0 <= i <= k <= s.len(),
        forall|j: int| i <= j < k ==> (#[trigger] group_at(s, j)) is None,
    ensures
        groups_from(s, i) == groups_from(s, k),
    decreases k - i,
{
    if i < k {
        lemma_groups_skip(s, i + 1, k);
    }
}

/// A group holds digits, a `d` and digits, and lies inside the text.
pub proof fn lemma_group_at(s: Seq<char>, i: int)
    requires
        0 <= i <= s.len(),
        group_at(s, i) is Some,
    ensures
        ({
            let span = group_at(s, i)->0;
            &&& span.start == i
            &&& i < span.sep < span.sep + 1 < span.end <= s.len()
            &&& s[span.sep] == 'd'
            &&& forall|j: int| span.start <= j < span.sep ==> is_digit(#[trigger] s[j])
            &&& forall|j: int| span.sep < j < span.end ==> is_digit(#[trigger] s[j])
        }),
{
    let span = group_at(s, i)->0;
    lemma_digit_run(s, i);
    lemma_digit_run(s, span.sep + 1);
}

/// A number as a 64-bit value, or `None` where it needs more than 64 bits.
pub open spec fn bounded(n: nat) -> Option<u64> {
    if n <= u64::MAX {
        Some(n as u64)
    } else {
        None
    }
}

/// One dice group as it was written: how many dice, and how many faces each
/// has. A number that does not fit 64 bits is `None`.
#[derive(Clone, Copy, Debug, PartialEq, Eq, Structural)]
pub struct DiceToken {
    pub num: Option<u64>,
    pub size: Option<u64>,
}

/// The token that the group at `span` of `s` spells.
pub open spec fn token_at(s: Seq<char>, span: Span) -> DiceToken {
    DiceToken {
        num: bounded(digits_value(s.subrange(span.start, span.sep))),
        size: bounded(digits_value(s.subrange(span.sep + 1, span.end))),
    }
}

/// The tokens of all the dice groups of `s`, in order.
pub open spec fn tokens_of(s: Seq<char>) -> Seq<DiceToken> {
    Seq::new(groups_of(s).len(), |k: int| token_at(s, groups_of(s)[k]))
}

/// Where the literal text before group `k` starts: at the start of the
/// text, or after the group before.
pub open spec fn piece_start(spans: Seq<Span>, k: int) -> int {
    if k == 0 {
        0
    } else {
        spans[k - 1].end
    }
}

/// The literal texts of `s`: before the first group, between two groups,
/// and after the last. There is one more of them than there are groups, and
/// any of them may be empty.
pub open spec fn pieces_of(s: Seq<char>) -> Seq<Seq<char>> {
    let spans = groups_of(s);
    Seq::new(
        spans.len() + 1,
        |k: int|
            s.subrange(
                piece_start(spans, k),
                if k == spans.len() {
                    s.len() as int
                } else {
                    spans[k].start
                },
            ),
    )
}

/// The groups found from position `i` on stand in the order of the text:
/// each is the group at its own start, starts at `i` or later, ends inside
/// the text, and has ended before the next one starts.
pub proof fn lemma_groups_from_in_order(s: Seq<char>, i: int)
    requires
        0 <= i <= s.len(),
    ensures
        forall|k: int|
            0 <= k < groups_from(s, i).len() ==> {
                let span = #[trigger] groups_from(s, i)[k];
                &&& group_at(s, span.start) == Some(span)
                &&& i <= span.start < span.end <= s.len()
            },
        forall|j: int, k: int|
            0 <= j < k < groups_from(s, i).len() ==> (#[trigger] groups_from(s, i)[j]).end <= (
            #[trigger] groups_from(s, i)[k]).start,
    decreases s.len() - i,
{
    if i < s.len() {
        let found = groups_from(s, i);
        match group_at(s, i) {
            Some(first) => {
                lemma_group_at(s, i);
                lemma_groups_from_in_order(s, first.end);
                let rest = groups_from(s, first.end);
                assert forall|k: int| 0 <= k < found.len() implies {
                    let span = #[trigger] found[k];
                    &&& group_at(s, span.start) == Some(span)
                    &&& i <= span.start < span.end <= s.len()
                } by {
                    if k > 0 {
                        assert(found[k] == rest[k - 1]);
                    }
                }
                assert forall|j: int, k: int| 0 <= j < k < found.len() implies (#[trigger] found[j]).end
                    <= (#[trigger] found[k]).start by {
                    assert(found[k] == rest[k - 1]);
                    if j > 0 {
                        assert(found[j] == rest[j - 1]);
                    }
                }
            },
            None => {
                lemma_groups_from_in_order(s, i + 1);
            },
        }
    }
}

/// Piece `k` of a string and group `k` lie one after the other: together
/// they reach from where the piece starts to where the next piece starts.
pub proof fn lemma_piece_and_group(s: Seq<char>, k: int)
    requires
        0 <= k < groups_of(s).len(),
    ensures
        0 <= piece_start(groups_of(s), k) <= groups_of(s)[k].start,
        groups_of(s)[k].start < groups_of(s)[k].end <= s.len(),
        groups_of(s)[k].end == piece_start(groups_of(s), k + 1),
        group_at(s, groups_of(s)[k].start) == Some(groups_of(s)[k]),
        pieces_of(s)[k] + s.subrange(groups_of(s)[k].start, groups_of(s)[k].end) == s.subrange(
            piece_start(groups_of(s), k),
            groups_of(s)[k].end,
        ),
{
    lemma_groups_from_in_order(s, 0);
    let spans = groups_of(s);
    let span = spans[k];
    if k > 0 {
        assert(spans[k - 1].end <= span.start);
        assert(0 <= spans[k - 1].start);
    }
    assert(pieces_of(s)[k] + s.subrange(span.start, span.end) =~= s.subrange(
        piece_start(spans, k),
        span.end,
    ));
}

/// There is one more piece than there are groups, and the last piece
/// reaches from the end of the last group to the end of the string.
pub proof fn lemma_last_piece(s: Seq<char>)
    ensures
        pieces_of(s).len() == tokens_of(s).len() + 1,
        0 <= piece_start(groups_of(s), groups_of(s).len() as int) <= s.len(),
        pieces_of(s).last() == s.subrange(
            piece_start(groups_of(s), groups_of(s).len() as int),
            s.len() as int,
        ),
{
    lemma_groups_from_in_order(s, 0);
    let spans = groups_of(s);
    if spans.len() > 0 {
        let last = spans[spans.len() - 1];
        assert(last.start < last.end <= s.len());
    }
}

/// What stands for a dice group that has been given no value.
pub open spec fn placeholder() -> Seq<char> {
    seq!['{', '}']
}

/// What fills the gap after piece `k`: the decimal text of value `k`, or the
/// placeholder where there is no such value.
pub open spec fn slot(values: Seq<u64>, k: int) -> Seq<char> {
    if 0 <= k < values.len() {
        decimal_text(values[k] as nat)
    } else {
        placeholder()
    }
}

/// The text that results when the gaps between `pieces` are filled with
/// `values`, the first gap with the first value and so on.
pub open spec fn filled(pieces: Seq<Seq<char>>, values: Seq<u64>) -> Seq<char>
    decreases pieces.len(),
{
    if pieces.len() == 0 {
        Seq::empty()
    } else if pieces.len() == 1 {
        pieces[0]
    } else {
        filled(pieces.drop_last(), values) + slot(values, pieces.len() - 2) + pieces.last()
    }
}

/// A notation string with its dice groups taken out: the literal texts
/// around them, in order.
#[derive(Clone, Debug)]
pub struct Template {
    pub segments: Vec<String>,
}

impl Template {
    /// The literal texts as sequences of characters.
    pub open spec fn pieces(&self) -> Seq<Seq<char>> {
        Seq::new(self.segments@.len(), |k: int| self.segments@[k]@)
    }

    /// How many dice groups were taken out.
    pub fn placeholders(&self) -> (count: usize)
        ensures
            count == if self.pieces().len() == 0 {
                0
            } else {
                self.pieces().len() - 1
            },
    {
        if self.segments.len() == 0 {
            0
        } else {
            self.segments.len() - 1
        }
    }
}

/// The position after the run of digits that starts at `from`.
fn skip_digits(chars: &Vec<char>, from: usize) -> (end: usize)
    requires
        from <= chars.len(),
    ensures
        end == from + digit_run(chars@, from as int),
        end <= chars.len(),
{
    let mut end: usize = from;
    proof {
        lemma_digit_run(chars@, from as int);
    }
    while end < chars.len() && char_is_digit(chars[end])
        invariant
            from <= end <= chars.len(),
            end + digit_run(chars@, end as int) == from + digit_run(chars@, from as int),
        decreases chars.len() - end,
    {
        end += 1;
    }
    end
}

/// Takes the dice groups out of a notation string. The template holds the
/// literal text around the groups, and the tokens hold what each group
/// spells, both in the order of the string. Text that only resembles a dice
/// group (`1da4`, `d6`, `1d`) stays in the template as it is.
pub fn extract_dice_values(string: &str) -> (found: (Template, Vec<DiceToken>))
    ensures
        found.0.pieces() == pieces_of(string@),
        found.1@ == tokens_of(string@),
        found.0.pieces().len() == found.1@.len() + 1,
{
    let chars = chars_of(string);
    let n = chars.len();
    let ghost s = chars@;
    let ghost all = groups_of(s);
    let mut segments: Vec<String> = Vec::new();
    let mut tokens: Vec<DiceToken> = Vec::new();
    let mut piece_from: usize = 0;
    let mut i: usize = 0;
    while i < n
        invariant
            s == chars@,
            n == chars.len(),
            all == groups_of(s),
            piece_from <= i <= n,
            tokens.len() == segments.len(),
            tokens.len() <= all.len(),
            all == all.take(tokens.len() as int) + groups_from(s, i as int),
            groups_from(s, piece_from as int) == groups_from(s, i as int),
            piece_from == piece_start(all, tokens.len() as int),
            forall|k: int|
                0 <= k < tokens.len() ==> (#[trigger] segments@[k])@ == s.subrange(
                    piece_start(all, k),
                    all[k].start,
                ),
            forall|k: int| 0 <= k < tokens.len() ==> #[trigger] tokens@[k] == token_at(s, all[k]),
            forall|k: int| 0 <= k < tokens.len() ==> 0 <= (#[trigger] all[k]).end <= n,
        decreases n - i,
    {
        let sep = skip_digits(&chars, i);
        let mut end: usize = sep;
        if sep > i && sep < n && chars[sep] == 'd' {
            end = skip_digits(&chars, sep + 1);
        }
        if end > sep && end - sep > 1 {
            proof {
                lemma_group_at(s, i as int);
                let span = group_at(s, i as int)->0;
                assert(span == Span { start: i as int, sep: sep as int, end: end as int });
                let rest = groups_from(s, i as int);
                assert(rest == seq![span] + groups_from(s, end as int));
                let count = tokens.len() as int;
                assert(all[count] == span);
                assert(all.take(count + 1) =~= all.take(count).push(span));
                assert(all =~= all.take(count + 1) + groups_from(s, end as int));
            }
            let mut segment = String::new();
            push_chars(&mut segment, &chars, piece_from, i);
            let num = parse_digits(&chars, i, sep);
            let size = parse_digits(&chars, sep + 1, end);
            segments.push(segment);
            tokens.push(DiceToken { num, size });
            piece_from = end;
            i = end;
        } else {
            let next = if sep > i {
                sep
            } else {
                i + 1
            };
            proof {
                lemma_digit_run(s, i as int);
                assert forall|j: int| i <= j < next implies (#[trigger] group_at(s, j)) is None by {
                    lemma_digit_run_inside(s, i as int, j);
                }
                lemma_groups_skip(s, i as int, next as int);
            }
            i = next;
        }
    }
    let mut segment = String::new();
    push_chars(&mut segment, &chars, piece_from, n);
    segments.push(segment);
    let template = Template { segments };
    proof {
        assert(all =~= all.take(tokens.len() as int));
        assert(template.pieces() =~= pieces_of(s));
        assert(tokens@ =~= tokens_of(s));
    }
    (template, tokens)
}

/// Fills a template with numbers: the text of the template with the decimal
/// text of `rolls[k]` where dice group `k` stood. A group that gets no
/// number shows as `{}`; numbers beyond the last group are not used.
pub fn format_dice_string(template: &Template, rolls: &Vec<u64>) -> (text: String)
    ensures
        text@ == filled(template.pieces(), rolls@),
{
    let ghost pieces = template.pieces();
    let mut text = String::new();
    let mut k: usize = 0;
    while k < template.segments.len()
        invariant
            pieces == template.pieces(),
            k <= template.segments.len(),
            text@ == filled(pieces.take(k as int), rolls@),
        decreases template.segments.len() - k,
    {
        let ghost before = text@;
        if k > 0 {
            if k - 1 < rolls.len() {
                push_decimal(&mut text, rolls[k - 1]);
            } else {
                text.push('{');
                text.push('}');
            }
        }
        text.append(template.segments[k].as_str());
        proof {
            let upto = pieces.take(k + 1);
            assert(upto.last() == pieces[k as int]);
            if k > 0 {
                assert(upto.drop_last() =~= pieces.take(k as int));
                assert(text@ =~= before + slot(rolls@, k - 1) + pieces[k as int]);
            } else {
                assert(before =~= Seq::<char>::empty());
                assert(text@ =~= pieces[0]);
            }
        }
        k += 1;
    }
    assert(pieces.take(k as int) =~= pieces);
    text
}

} // verus!
