//! The outcome of rolling a dice group: every die's value with its kept /
//! discarded mark, the applied selection policy, the modifier, and the total.

use crate::dice_roll_op::DiceRollOp;
use crate::die::DieRollResult;
use crate::selection;
use crate::text;
use vstd::prelude::*;

verus! {

/// The value a modifier adds to the total; an absent modifier adds nothing.
pub open spec fn modifier_val(m: Option<i32>) -> int {
    match m {
        Some(v) => v as int,
        None => 0,
    }
}

/// What a selection policy does to freshly rolled outcomes: no policy leaves
/// them untouched; keep-highest / keep-lowest stable-sorts them by value
/// (descending / ascending) and keeps exactly the first `n`.
pub open spec fn apply_operation(s: Seq<DieRollResult>, operation: Option<DiceRollOp>) -> Seq<
    DieRollResult,
> {
    match operation {
        None => s,
        Some(op) => selection::mark_keep(
            selection::stable_sorted(s, op.is_descending()),
            op.keep_n() as int,
        ),
    }
}

/// The result of rolling a dice group.
#[derive(Clone, Debug)]
pub struct DiceRollResult {
    /// The total: the sum of the kept values plus the modifier.
    pub result: i32,
    /// Every rolled die's outcome, in selection order.
    pub dice_results: Vec<DieRollResult>,
    /// The selection policy that was applied.
    pub operation: Option<DiceRollOp>,
    /// The modifier that was added to the total.
    pub modifier: Option<i32>,
}

impl DiceRollResult {
    /// Applies the selection policy to the rolled dice and totals the kept
    /// values plus the modifier.
    ///
    /// The keep-marks are positional after the stable sort, so among dice
    /// showing equal values the earlier-rolled die wins the keep.
    pub fn create(
        dice_results: Vec<DieRollResult>,
        operation: Option<DiceRollOp>,
        modifier: Option<i32>,
    ) -> (r: DiceRollResult)
        requires
            selection::sum_all(dice_results@) <= i32::MAX,
            selection::sum_all(dice_results@) + modifier_val(modifier) <= i32::MAX,
        ensures
            r.dice_results@ == apply_operation(dice_results@, operation),
            r.operation == operation,
            r.modifier == modifier,
            r.result == modifier_val(modifier) + selection::sum_kept(r.dice_results@),
            r.dice_results@.len() == dice_results@.len(),
            match operation {
                Some(op) => selection::kept_count(r.dice_results@) == if op.keep_n()
                    <= dice_results@.len() {
                    op.keep_n() as int
                } else {
                    dice_results@.len() as int
                },
                None => r.dice_results@ == dice_results@,
            },
    {
        let ghost input = dice_results@;
        let marked: Vec<DieRollResult> = match operation {
            None => dice_results,
            Some(op) => {
                let desc: bool = match op {
                    DiceRollOp::KeepHighest(_) => true,
                    DiceRollOp::KeepLowest(_) => false,
                };
                let n: u32 = match op {
                    DiceRollOp::KeepHighest(k) => k,
                    DiceRollOp::KeepLowest(k) => k,
                };
                let sorted = selection::sort_outcomes(dice_results, desc);
                proof {
                    selection::lemma_stable_sorted_props(input, desc);
                    selection::lemma_mark_keep_props(sorted@, n as int);
                }
                let len: usize = sorted.len();
                let mut out: Vec<DieRollResult> = Vec::new();
                let mut i: usize = 0;
                while i < len
                    invariant
                        len == sorted@.len(),
                        i <= len,
                        out@ =~= selection::mark_keep(sorted@, n as int).take(i as int),
                    decreases len - i,
                {
                    let d = &sorted[i];
                    let kept: bool = (i as u64) < (n as u64);
                    out.push(DieRollResult { die: d.die, result: d.result, keep: kept });
                    proof {
                        assert(out@ =~= selection::mark_keep(sorted@, n as int).take(i + 1));
                    }
                    i = i + 1;
                }
                proof {
                    assert(selection::mark_keep(sorted@, n as int).take(len as int)
                        =~= selection::mark_keep(sorted@, n as int));
                }
                out
            },
        };
        proof {
            assert(selection::sum_all(marked@) == selection::sum_all(input)) by {
                match operation {
                    None => {},
                    Some(op) => {
                        selection::lemma_stable_sorted_props(input, op.is_descending());
                        selection::lemma_mark_keep_props(
                            selection::stable_sorted(input, op.is_descending()),
                            op.keep_n() as int,
                        );
                    },
                }
            }
        }
        let len: usize = marked.len();
        let mut acc: i64 = 0;
        let mut i: usize = 0;
        while i < len
            invariant
                len == marked@.len(),
                i <= len,
                acc == selection::sum_kept(marked@.take(i as int)),
                selection::sum_all(marked@) <= i32::MAX,
            decreases len - i,
        {
            let d = &marked[i];
            proof {
                assert(marked@.take(i + 1) =~= marked@.take(i as int).push(marked@[i as int]));
                selection::lemma_sums_push(marked@.take(i as int), marked@[i as int]);
                selection::lemma_sums_bounds(marked@.take(i + 1));
                selection::lemma_sum_all_take_le(marked@, i + 1);
            }
            if d.keep {
                acc = acc + (d.result as i64);
            }
            i = i + 1;
        }
        proof {
            assert(marked@.take(len as int) =~= marked@);
            selection::lemma_sums_bounds(marked@);
        }
        let total: i64 = match modifier {
            Some(m) => acc + (m as i64),
            None => acc,
        };
        DiceRollResult { result: total as i32, dice_results: marked, operation, modifier }
    }

    /// The trace text of an outcome: each die as `[v]` or `(v: discarded)`,
    /// joined by `", "`, then the selection annotation, the modifier
    /// annotation, and the total.
    pub open spec fn render_spec(self) -> Seq<char> {
        join_rendered(self.dice_results@) + op_annotation(self.operation) + mod_annotation(
            self.modifier,
        ) + seq![' ', '=', ' '] + text::int_chars(self.result as int)
    }

    /// Writes the outcome as trace text, e.g.
    /// `[6], [5], (2: discarded) (keeping highest 2) + 3 = 14`.
    pub fn render(&self) -> (s: String)
        ensures
            s@ == self.render_spec(),
    {
        let mut v: Vec<char> = Vec::new();
        let len: usize = self.dice_results.len();
        let mut i: usize = 0;
        while i < len
            invariant
                len == self.dice_results@.len(),
                i <= len,
                v@ =~= join_rendered(self.dice_results@.take(i as int)),
            decreases len - i,
        {
            if i > 0 {
                v.push(',');
                v.push(' ');
            }
            let chars = self.dice_results[i].render_chars();
            text::push_chars(&mut v, &chars);
            proof {
                let pre = self.dice_results@.take(i as int);
                let now = self.dice_results@.take(i + 1);
                assert(now.drop_last() =~= pre);
                assert(now.last() == self.dice_results@[i as int]);
                assert(v@ =~= join_rendered(now));
            }
            i = i + 1;
        }
        proof {
            assert(self.dice_results@.take(len as int) =~= self.dice_results@);
        }
        push_op_annotation(&mut v, self.operation);
        push_mod_annotation(&mut v, self.modifier);
        v.push(' ');
        v.push('=');
        v.push(' ');
        let total = text::i64_to_chars(self.result as i64);
        text::push_chars(&mut v, &total);
        proof {
            assert(v@ =~= self.render_spec());
        }
        text::chars_to_string(&v)
    }

    /// Reduces several outcomes to one: the totals are summed, the outcome
    /// sequences concatenated in order, the modifiers (already folded into
    /// their own totals) summed into the combined modifier, and no selection
    /// policy is carried. Nothing is re-derived from the raw dice.
    pub fn combine(results: &Vec<DiceRollResult>) -> (r: DiceRollResult)
        requires
            i32::MIN <= totals_sum(results@) <= i32::MAX,
            i32::MIN <= mods_sum(results@) <= i32::MAX,
        ensures
            r.result == totals_sum(results@),
            r.dice_results@ == concat_outcomes(results@),
            r.operation is None,
            r.modifier == Some((mods_sum(results@)) as i32),
    {
        let len: usize = results.len();
        let mut total: i128 = 0;
        let mut mods: i128 = 0;
        let mut dice: Vec<DieRollResult> = Vec::new();
        let mut i: usize = 0;
        while i < len
            invariant
                len == results@.len(),
                i <= len,
                total == totals_sum(results@.take(i as int)),
                mods == mods_sum(results@.take(i as int)),
                -0x80000000i128 * (i as i128) <= total <= 0x80000000i128 * (i as i128),
                -0x80000000i128 * (i as i128) <= mods <= 0x80000000i128 * (i as i128),
                dice@ =~= concat_outcomes(results@.take(i as int)),
            decreases len - i,
        {
            let entry = &results[i];
            proof {
                assert(results@.take(i + 1).drop_last() =~= results@.take(i as int));
                assert(results@.take(i + 1).last() == results@[i as int]);
            }
            total = total + (entry.result as i128);
            match entry.modifier {
                Some(m) => {
                    mods = mods + (m as i128);
                },
                None => {},
            }
            let inner: usize = entry.dice_results.len();
            let mut j: usize = 0;
            while j < inner
                invariant
                    inner == results@[i as int].dice_results@.len(),
                    i < len == results@.len(),
                    j <= inner,
                    dice@ =~= concat_outcomes(results@.take(i as int))
                        + results@[i as int].dice_results@.take(j as int),
                decreases inner - j,
            {
                let d = results[i].dice_results[j];
                dice.push(d);
                proof {
                    assert(dice@ =~= concat_outcomes(results@.take(i as int))
                        + results@[i as int].dice_results@.take(j + 1));
                }
                j = j + 1;
            }
            proof {
                assert(results@[i as int].dice_results@.take(inner as int) =~= results@[
                    i as int].dice_results@);
                assert(dice@ =~= concat_outcomes(results@.take(i + 1)));
            }
            i = i + 1;
        }
        proof {
            assert(results@.take(len as int) =~= results@);
        }
        DiceRollResult {
            result: total as i32,
            dice_results: dice,
            operation: None,
            modifier: Some(mods as i32),
        }
    }
}

/// Appends the trace annotation of a selection policy to `v`.
fn push_op_annotation(v: &mut Vec<char>, operation: Option<DiceRollOp>) -> (r: ())
    ensures
        final(v)@ == old(v)@ + op_annotation(operation),
{
    match operation {
        None => {
            proof {
                assert(v@ =~= old(v)@ + op_annotation(operation));
            }
        },
        Some(op) => {
            v.push(' ');
            v.push('(');
            v.push('k');
            v.push('e');
            v.push('e');
            v.push('p');
            v.push('i');
            v.push('n');
            v.push('g');
            v.push(' ');
            let n: u32 = match op {
                DiceRollOp::KeepHighest(k) => {
                    v.push('h');
                    v.push('i');
                    v.push('g');
                    v.push('h');
                    v.push('e');
                    v.push('s');
                    v.push('t');
                    k
                },
                DiceRollOp::KeepLowest(k) => {
                    v.push('l');
                    v.push('o');
                    v.push('w');
                    v.push('e');
                    v.push('s');
                    v.push('t');
                    k
                },
            };
            v.push(' ');
            let digits = text::u64_to_chars(n as u64);
            text::push_chars(v, &digits);
            v.push(')');
            proof {
                assert(v@ =~= old(v)@ + op_annotation(operation));
            }
        },
    }
}

/// Appends the trace annotation of a modifier to `v`.
fn push_mod_annotation(v: &mut Vec<char>, modifier: Option<i32>) -> (r: ())
    ensures
        final(v)@ == old(v)@ + mod_annotation(modifier),
{
    match modifier {
        Some(m) => {
            if m > 0 {
                v.push(' ');
                v.push('+');
                v.push(' ');
                let digits = text::u64_to_chars(m as u64);
                text::push_chars(v, &digits);
            } else if m < 0 {
                v.push(' ');
                v.push('-');
                v.push(' ');
                let mag: i64 = -(m as i64);
                let digits = text::u64_to_chars(mag as u64);
                text::push_chars(v, &digits);
            }
        },
        None => {},
    }
    proof {
        assert(v@ =~= old(v)@ + mod_annotation(modifier));
    }
}

/// The per-die trace texts, joined by `", "`.
pub open spec fn join_rendered(s: Seq<DieRollResult>) -> Seq<char>
    decreases s.len(),
{
    if s.len() == 0 {
        Seq::empty()
    } else if s.len() == 1 {
        s[0].render_spec()
    } else {
        join_rendered(s.drop_last()) + seq![',', ' '] + s.last().render_spec()
    }
}

/// The trace annotation of a selection policy, e.g. ` (keeping highest 3)`.
pub open spec fn op_annotation(operation: Option<DiceRollOp>) -> Seq<char> {
    match operation {
        None => Seq::empty(),
        Some(DiceRollOp::KeepHighest(n)) => seq![
            ' ',
            '(',
            'k',
            'e',
            'e',
            'p',
            'i',
            'n',
            'g',
            ' ',
            'h',
            'i',
            'g',
            'h',
            'e',
            's',
            't',
            ' ',
        ] + text::dec_chars(n as nat) + seq![')'],
        Some(DiceRollOp::KeepLowest(n)) => seq![
            ' ',
            '(',
            'k',
            'e',
            'e',
            'p',
            'i',
            'n',
            'g',
            ' ',
            'l',
            'o',
            'w',
            'e',
            's',
            't',
            ' ',
        ] + text::dec_chars(n as nat) + seq![')'],
    }
}

/// The trace annotation of a modifier: ` + m`, ` - m`, or nothing for zero or
/// no modifier.
pub open spec fn mod_annotation(modifier: Option<i32>) -> Seq<char> {
    match modifier {
        None => Seq::empty(),
        Some(m) => if m > 0 {
            seq![' ', '+', ' '] + text::dec_chars(m as nat)
        } else if m < 0 {
            seq![' ', '-', ' '] + text::dec_chars((-m) as nat)
        } else {
            Seq::empty()
        },
    }
}

/// The sum of the totals of several outcomes.
pub open spec fn totals_sum(s: Seq<DiceRollResult>) -> int
    decreases s.len(),
{
    if s.len() == 0 {
        0
    } else {
        totals_sum(s.drop_last()) + s.last().result
    }
}

/// The sum of the modifiers of several outcomes; an absent modifier counts
/// as zero.
pub open spec fn mods_sum(s: Seq<DiceRollResult>) -> int
    decreases s.len(),
{
    if s.len() == 0 {
        0
    } else {
        mods_sum(s.drop_last()) + modifier_val(s.last().modifier)
    }
}

/// The outcome sequences of several results, concatenated in order.
pub open spec fn concat_outcomes(s: Seq<DiceRollResult>) -> Seq<DieRollResult>
    decreases s.len(),
{
    if s.len() == 0 {
        Seq::empty()
    } else {
        concat_outcomes(s.drop_last()) + s.last().dice_results@
    }
}

} // verus!
