//! A dice group in the extended notation: a batch of identical dice, an
//! optional keep-highest / keep-lowest selection policy, and an optional
//! modifier.

use crate::dice_roll_op::DiceRollOp;
use crate::dice_roll_result::DiceRollResult;
use crate::dice_roll_result::apply_operation;
use crate::dice_roll_result::modifier_val;
use crate::die::Die;
use crate::die::DieRollResult;
use crate::selection;
use crate::text;
use vstd::prelude::*;

verus! {

/// Why a dice group could not be built.
#[derive(Clone, Copy, Debug, PartialEq, Eq, Structural)]
pub enum DiceRollError {
    /// The die was given fewer than one side.
    InvalidDie,
    /// Fewer than one die was asked for.
    InvalidCount,
    /// The selection policy was asked to keep fewer than one die.
    InvalidSelectionSize,
}

/// A validated, rollable dice group.
#[derive(Clone, Copy, Debug)]
pub struct DiceRoll {
    pub die: Die,
    pub die_count: u32,
    pub operation: Option<DiceRollOp>,
    pub modifier: Option<i32>,
}

impl DiceRoll {
    /// A group is well formed when its die has at least one side, at least
    /// one die is rolled, and a selection policy, if any, keeps at least one.
    pub open spec fn wf(self) -> bool {
        &&& self.die.wf()
        &&& self.die_count >= 1
        &&& match self.operation {
            Some(op) => op.wf(),
            None => true,
        }
    }

    /// The largest total this group can roll: every die at its maximum, plus
    /// a positive modifier.
    pub open spec fn max_total(self) -> int {
        self.die_count * self.die.sides + if modifier_val(self.modifier) > 0 {
            modifier_val(self.modifier)
        } else {
            0
        }
    }

    /// Builds a dice group after checking every bound: the die needs at
    /// least one side, the count at least one die, and a selection policy
    /// must keep at least one die. The first failed check names the error.
    pub fn create(
        sides: u32,
        die_count: u32,
        operation: Option<DiceRollOp>,
        modifier: Option<i32>,
    ) -> (r: Result<DiceRoll, DiceRollError>)
        ensures
            r == create_spec(sides, die_count, operation, modifier),
    {
        if sides < 1 {
            Err(DiceRollError::InvalidDie)
        } else if die_count < 1 {
            Err(DiceRollError::InvalidCount)
        } else {
            let op_ok: bool = match operation {
                Some(DiceRollOp::KeepHighest(n)) => n >= 1,
                Some(DiceRollOp::KeepLowest(n)) => n >= 1,
                None => true,
            };
            if !op_ok {
                Err(DiceRollError::InvalidSelectionSize)
            } else {
                Ok(DiceRoll { die: Die { sides }, die_count, operation, modifier })
            }
        }
    }

    /// Parses an expression in the extended notation:
    /// `<count>d<sides>[kh<n>|kl<n>][(+|-)<modifier>]`, anchored to the whole
    /// trimmed input. Any other shape is reported with a message that names
    /// the first field at fault.
    pub fn from_expression(exp: &str) -> (r: Result<DiceRoll, String>)
        ensures
            from_expression_ensures(exp@, r),
    {
        let all = text::str_to_chars(exp);
        let cs = text::trim_chars(&all);
        let n: usize = cs.len();
        let e1 = text::scan_digits(&cs, 0);
        if e1 == 0 || e1 == n || cs[e1] != 'd' {
            return Err(Self::no_match_message(&cs));
        }
        let e2 = text::scan_digits(&cs, e1 + 1);
        if e2 == e1 + 1 {
            return Err(Self::no_match_message(&cs));
        }
        let has_op: bool = e2 < n && cs[e2] == 'k';
        let mut op_high: bool = false;
        if has_op {
            if e2 + 1 == n || (cs[e2 + 1] != 'h' && cs[e2 + 1] != 'l') {
                return Err(Self::no_match_message(&cs));
            }
            op_high = cs[e2 + 1] == 'h';
        }
        let op_start: usize = if has_op {
            e2 + 2
        } else {
            e2
        };
        let e3 = text::scan_digits(&cs, op_start);
        if has_op && e3 == op_start {
            return Err(Self::no_match_message(&cs));
        }
        let has_mod: bool = e3 < n && (cs[e3] == '+' || cs[e3] == '-');
        if !has_mod && e3 != n {
            return Err(Self::no_match_message(&cs));
        }
        let e4: usize = if has_mod {
            text::scan_digits(&cs, e3 + 1)
        } else {
            e3
        };
        if has_mod && (e4 == e3 + 1 || e4 != n) {
            return Err(Self::no_match_message(&cs));
        }
        proof {
            text::lemma_digit_run_end_bounds(cs@, 0);
            text::lemma_digit_run_end_bounds(cs@, e1 + 1);
            text::lemma_digit_run_end_bounds(cs@, op_start as int);
            if has_mod {
                text::lemma_digit_run_end_bounds(cs@, e3 + 1);
            }
        }
        let count: u32 = match text::parse_u32_digits(&cs, 0, e1) {
            Some(v) => v,
            None => {
                return Err("Invalid die count".to_owned());
            },
        };
        let sides: u32 = match text::parse_u32_digits(&cs, e1 + 1, e2) {
            Some(v) => v,
            None => {
                return Err("Invalid die sides".to_owned());
            },
        };
        let operation: Option<DiceRollOp> = if has_op {
            let opv: u32 = match text::parse_u32_digits(&cs, op_start, e3) {
                Some(v) => v,
                None => {
                    return Err("Invalid operation value".to_owned());
                },
            };
            if op_high {
                Some(DiceRollOp::KeepHighest(opv))
            } else {
                Some(DiceRollOp::KeepLowest(opv))
            }
        } else {
            None
        };
        let modifier: Option<i32> = if has_mod {
            let magnitude: u32 = match text::parse_u32_digits(&cs, e3 + 1, e4) {
                Some(v) => v,
                None => {
                    return Err("Invalid modifier value".to_owned());
                },
            };
            if magnitude > 0x7fffffffu32 {
                return Err("Invalid modifier value".to_owned());
            }
            if cs[e3] == '-' {
                Some(-(magnitude as i32))
            } else {
                Some(magnitude as i32)
            }
        } else {
            None
        };
        if sides < 1 {
            return Err("Die must have at least 1 side".to_owned());
        }
        if count < 1 {
            return Err("Must roll at least 1 die".to_owned());
        }
        match operation {
            Some(op) => {
                let keep: u32 = match op {
                    DiceRollOp::KeepHighest(k) => k,
                    DiceRollOp::KeepLowest(k) => k,
                };
                if keep < 1 {
                    if op_high {
                        return Err("KeepHighest must be at least 1".to_owned());
                    } else {
                        return Err("KeepLowest must be at least 1".to_owned());
                    }
                }
            },
            None => {},
        }
        Ok(DiceRoll { die: Die { sides }, die_count: count, operation, modifier })
    }

    /// The message of an expression that does not match the grammar: it
    /// carries the offending (trimmed) input.
    fn no_match_message(cs: &Vec<char>) -> (r: String)
        ensures
            r@ == "Failed to parse dice expression: "@ + cs@,
    {
        let tail = text::chars_to_string(cs);
        let prefix = <String as vstd::string::StringExecFns>::from_str(
            "Failed to parse dice expression: ",
        );
        vstd::string::StringExecFns::concat(prefix, tail.as_str())
    }

    /// The canonical text of the group: `{count}d{sides}`, then `kh{n}` or
    /// `kl{n}` if a policy is set, then `+{m}` or `-{m}` for a nonzero
    /// modifier. Parsing this text yields the group back.
    pub open spec fn notation_spec(self) -> Seq<char> {
        text::dec_chars(self.die_count as nat) + seq!['d'] + text::dec_chars(self.die.sides as nat)
            + op_suffix_spec(self.operation) + mod_suffix_spec(self.modifier)
    }

    /// Writes the group in its canonical notation, e.g. `4d6kh3+2`.
    pub fn to_notation(&self) -> (s: String)
        ensures
            s@ == self.notation_spec(),
    {
        let mut v: Vec<char> = Vec::new();
        let count_digits = text::u64_to_chars(self.die_count as u64);
        text::push_chars(&mut v, &count_digits);
        v.push('d');
        let sides_digits = text::u64_to_chars(self.die.sides as u64);
        text::push_chars(&mut v, &sides_digits);
        match self.operation {
            Some(op) => {
                v.push('k');
                let keep: u32 = match op {
                    DiceRollOp::KeepHighest(k) => {
                        v.push('h');
                        k
                    },
                    DiceRollOp::KeepLowest(k) => {
                        v.push('l');
                        k
                    },
                };
                let keep_digits = text::u64_to_chars(keep as u64);
                text::push_chars(&mut v, &keep_digits);
            },
            None => {},
        }
        match self.modifier {
            Some(m) => {
                if m > 0 {
                    v.push('+');
                    let mod_digits = text::u64_to_chars(m as u64);
                    text::push_chars(&mut v, &mod_digits);
                } else if m < 0 {
                    v.push('-');
                    let magnitude: i64 = -(m as i64);
                    let mod_digits = text::u64_to_chars(magnitude as u64);
                    text::push_chars(&mut v, &mod_digits);
                }
            },
            None => {},
        }
        proof {
            assert(v@ =~= self.notation_spec());
        }
        text::chars_to_string(&v)
    }

    /// Whether the worst-case total of this group fits a 32-bit result, so
    /// that rolling cannot overflow.
    pub fn roll_fits(&self) -> (r: bool)
        ensures
            r == (self.max_total() <= i32::MAX),
    {
        proof {
            assert((self.die_count as int) * (self.die.sides as int) <= 0xffffffff * 0xffffffff)
                by (nonlinear_arith)
                requires
                    0 <= self.die_count <= 0xffffffff,
                    0 <= self.die.sides <= 0xffffffff,
            ;
        }
        let dice_max: i128 = (self.die_count as i128) * (self.die.sides as i128);
        let worst: i128 = dice_max + match self.modifier {
            Some(m) => if m > 0 {
                m as i128
            } else {
                0
            },
            None => 0,
        };
        worst <= 0x7fffffffi128
    }

    /// Rolls the group against injected die values, one per die: applies the
    /// selection policy to them and totals the kept values plus the
    /// modifier. The outcome is a function of the values alone, so a caller
    /// that supplies them (a test, or a seeded source) gets a fully
    /// determined result.
    pub fn roll_with_values(&self, values: &Vec<u32>) -> (r: DiceRollResult)
        requires
            self.wf(),
            self.max_total() <= i32::MAX,
            values@.len() == self.die_count,
            forall|i: int| 0 <= i < values@.len() ==> 1 <= #[trigger] values@[i] <= self.die.sides,
        ensures
            rolled_from(*self, draws_of(*self, values@), r),
            roll_output(*self, r),
    {
        let count: usize = values.len();
        let mut rolled: Vec<DieRollResult> = Vec::new();
        let mut i: usize = 0;
        while i < count
            invariant
                count == values@.len(),
                values@.len() == self.die_count,
                i <= count,
                forall|k: int| 0 <= k < values@.len() ==> 1 <= #[trigger] values@[k]
                    <= self.die.sides,
                rolled@ =~= draws_of(*self, values@).take(i as int),
            decreases count - i,
        {
            let value = values[i];
            rolled.push(DieRollResult { die: self.die, result: value, keep: true });
            proof {
                assert(rolled@ =~= draws_of(*self, values@).take(i + 1));
            }
            i = i + 1;
        }
        let ghost raw = draws_of(*self, values@);
        proof {
            assert(rolled@ =~= raw);
            assert forall|k: int| 0 <= k < raw.len() implies (#[trigger] raw[k]).result
                <= self.die.sides as int by {}
            selection::lemma_sum_all_bounded(raw, self.die.sides as int);
            assert(raw.len() * (self.die.sides as int) == self.die_count * self.die.sides)
                by (nonlinear_arith)
                requires
                    raw.len() == self.die_count,
            ;
            selection::lemma_sums_bounds(raw);
        }
        let r = DiceRollResult::create(rolled, self.operation, self.modifier);
        proof {
            lemma_apply_operation_outcomes(*self, raw);
            assert(rolled_from(*self, raw, r));
        }
        r
    }

    /// Rolls the group: draws `die_count` values from the die, applies the
    /// selection policy, and totals the kept values plus the modifier.
    ///
    /// The drawn values are random; everything that follows from them is
    /// pinned: the outcome is exactly `apply_operation` of some sequence of
    /// in-range draws, and the total is the modifier plus the kept values.
    pub fn roll(&self) -> (r: DiceRollResult)
        requires
            self.wf(),
            self.max_total() <= i32::MAX,
        ensures
            roll_output(*self, r),
    {
        let count: usize = self.die_count as usize;
        let mut values: Vec<u32> = Vec::new();
        let mut i: usize = 0;
        while i < count
            invariant
                self.wf(),
                i <= count,
                values@.len() == i,
                forall|k: int| 0 <= k < i ==> 1 <= #[trigger] values@[k] <= self.die.sides,
            decreases count - i,
        {
            let value = self.die.roll();
            values.push(value);
            i = i + 1;
        }
        self.roll_with_values(&values)
    }
}

/// The notation suffix of a selection policy: `kh{n}` or `kl{n}`.
pub open spec fn op_suffix_spec(operation: Option<DiceRollOp>) -> Seq<char> {
    match operation {
        None => Seq::empty(),
        Some(DiceRollOp::KeepHighest(n)) => seq!['k', 'h'] + text::dec_chars(n as nat),
        Some(DiceRollOp::KeepLowest(n)) => seq!['k', 'l'] + text::dec_chars(n as nat),
    }
}

/// The notation suffix of a modifier: its sign and magnitude, or nothing for
/// zero or no modifier.
pub open spec fn mod_suffix_spec(modifier: Option<i32>) -> Seq<char> {
    match modifier {
        None => Seq::empty(),
        Some(m) => if m > 0 {
            seq!['+'] + text::dec_chars(m as nat)
        } else if m < 0 {
            seq!['-'] + text::dec_chars((-m) as nat)
        } else {
            Seq::empty()
        },
    }
}

/// How an expression in the extended notation reads: a parsed group, a
/// mismatch of the grammar, a numeric field too large for its type, or a
/// field that the group's bounds reject.
pub enum ParseOutcome {
    Parsed(DiceRoll),
    NoMatch,
    BadCount,
    BadSides,
    BadOpValue,
    BadModifier,
    ZeroSides,
    ZeroCount,
    ZeroKeepHighest,
    ZeroKeepLowest,
}

/// The grammar of the extended notation, anchored to the whole (trimmed)
/// string: `<count>d<sides>`, optionally `kh<n>` or `kl<n>`, optionally a
/// `+` or `-` sign with a magnitude. Each `<...>` is a nonempty digit run.
pub open spec fn parse_expression_spec(s: Seq<char>) -> ParseOutcome {
    let e1 = text::digit_run_end(s, 0);
    if e1 == 0 || e1 == s.len() || s[e1] != 'd' {
        ParseOutcome::NoMatch
    } else {
        let e2 = text::digit_run_end(s, e1 + 1);
        if e2 == e1 + 1 {
            ParseOutcome::NoMatch
        } else {
            let has_op = e2 < s.len() && s[e2] == 'k';
            if has_op && (e2 + 1 == s.len() || (s[e2 + 1] != 'h' && s[e2 + 1] != 'l')) {
                ParseOutcome::NoMatch
            } else {
                let op_start = if has_op {
                    e2 + 2
                } else {
                    e2
                };
                let e3 = text::digit_run_end(s, op_start);
                if has_op && e3 == op_start {
                    ParseOutcome::NoMatch
                } else {
                    let has_mod = e3 < s.len() && (s[e3] == '+' || s[e3] == '-');
                    if !has_mod && e3 != s.len() {
                        ParseOutcome::NoMatch
                    } else {
                        let e4 = if has_mod {
                            text::digit_run_end(s, e3 + 1)
                        } else {
                            e3
                        };
                        if has_mod && (e4 == e3 + 1 || e4 != s.len()) {
                            ParseOutcome::NoMatch
                        } else {
                            parse_expression_fields(s, e1, e2, has_op, op_start, e3, has_mod, e4)
                        }
                    }
                }
            }
        }
    }
}

/// The values of a matched expression, checked in the order the fields were
/// read: first that each fits its type, then that the group's bounds hold.
pub open spec fn parse_expression_fields(
    s: Seq<char>,
    e1: int,
    e2: int,
    has_op: bool,
    op_start: int,
    e3: int,
    has_mod: bool,
    e4: int,
) -> ParseOutcome {
    let count = text::digits_val(s.subrange(0, e1));
    let sides = text::digits_val(s.subrange(e1 + 1, e2));
    let opv = text::digits_val(s.subrange(op_start, e3));
    let modv = text::digits_val(s.subrange(e3 + 1, e4));
    let op_high = has_op && s[e2 + 1] == 'h';
    if count > u32::MAX {
        ParseOutcome::BadCount
    } else if sides > u32::MAX {
        ParseOutcome::BadSides
    } else if has_op && opv > u32::MAX {
        ParseOutcome::BadOpValue
    } else if has_mod && modv > i32::MAX {
        ParseOutcome::BadModifier
    } else if sides == 0 {
        ParseOutcome::ZeroSides
    } else if count == 0 {
        ParseOutcome::ZeroCount
    } else if has_op && opv == 0 {
        if op_high {
            ParseOutcome::ZeroKeepHighest
        } else {
            ParseOutcome::ZeroKeepLowest
        }
    } else {
        ParseOutcome::Parsed(
            DiceRoll {
                die: Die { sides: sides as u32 },
                die_count: count as u32,
                operation: if has_op {
                    if op_high {
                        Some(DiceRollOp::KeepHighest(opv as u32))
                    } else {
                        Some(DiceRollOp::KeepLowest(opv as u32))
                    }
                } else {
                    None
                },
                modifier: if has_mod {
                    if s[e3] == '-' {
                        Some((-(modv as int)) as i32)
                    } else {
                        Some(modv as i32)
                    }
                } else {
                    None
                },
            },
        )
    }
}

/// What parsing an expression returns for every input: the parsed group on a
/// full match, and for each way the input fails, the message that names it.
pub open spec fn from_expression_ensures(input: Seq<char>, r: Result<DiceRoll, String>) -> bool {
    let t = text::trim_spec(input);
    match parse_expression_spec(t) {
        ParseOutcome::Parsed(g) => r == Ok::<DiceRoll, String>(g),
        ParseOutcome::NoMatch => err_msg(r, "Failed to parse dice expression: "@ + t),
        ParseOutcome::BadCount => err_msg(r, "Invalid die count"@),
        ParseOutcome::BadSides => err_msg(r, "Invalid die sides"@),
        ParseOutcome::BadOpValue => err_msg(r, "Invalid operation value"@),
        ParseOutcome::BadModifier => err_msg(r, "Invalid modifier value"@),
        ParseOutcome::ZeroSides => err_msg(r, "Die must have at least 1 side"@),
        ParseOutcome::ZeroCount => err_msg(r, "Must roll at least 1 die"@),
        ParseOutcome::ZeroKeepHighest => err_msg(r, "KeepHighest must be at least 1"@),
        ParseOutcome::ZeroKeepLowest => err_msg(r, "KeepLowest must be at least 1"@),
    }
}

/// `r` is the error that carries exactly the message `msg`.
pub open spec fn err_msg<T>(r: Result<T, String>, msg: Seq<char>) -> bool {
    r matches Err(m) && m@ == msg
}

/// What parsing and rolling an expression at once returns: a roll of the
/// parsed group where one is parsed and its worst case fits a 32-bit total,
/// and otherwise the message that names the fault.
pub open spec fn roll_dice_ensures(input: Seq<char>, r: Result<DiceRollResult, String>) -> bool {
    let t = text::trim_spec(input);
    match parse_expression_spec(t) {
        ParseOutcome::Parsed(g) => if g.max_total() <= i32::MAX {
            r matches Ok(res) && roll_output(g, res)
        } else {
            err_msg(r, "Dice roll is too large to evaluate"@)
        },
        ParseOutcome::NoMatch => err_msg(r, "Failed to parse dice expression: "@ + t),
        ParseOutcome::BadCount => err_msg(r, "Invalid die count"@),
        ParseOutcome::BadSides => err_msg(r, "Invalid die sides"@),
        ParseOutcome::BadOpValue => err_msg(r, "Invalid operation value"@),
        ParseOutcome::BadModifier => err_msg(r, "Invalid modifier value"@),
        ParseOutcome::ZeroSides => err_msg(r, "Die must have at least 1 side"@),
        ParseOutcome::ZeroCount => err_msg(r, "Must roll at least 1 die"@),
        ParseOutcome::ZeroKeepHighest => err_msg(r, "KeepHighest must be at least 1"@),
        ParseOutcome::ZeroKeepLowest => err_msg(r, "KeepLowest must be at least 1"@),
    }
}

/// The message of an expression that parses but whose worst-case total would
/// not fit a 32-bit result.
pub fn roll_too_large_message() -> (r: String)
    ensures
        r@ == "Dice roll is too large to evaluate"@,
{
    "Dice roll is too large to evaluate".to_owned()
}

/// A group the grammar accepts is well formed: the grammar rejects a die
/// without sides, an empty batch, and a selection keeping nothing.
pub proof fn lemma_parsed_wf(s: Seq<char>)
    ensures
        parse_expression_spec(s) matches ParseOutcome::Parsed(g) ==> g.wf(),
{
}

/// The round-trip law of the extended notation: parsing the canonical text
/// of any well-formed group yields the group back — same die, same count,
/// same selection policy, and the same modifier value (an absent modifier
/// and a zero one both write as nothing and read back as absent).
///
/// The bound on the modifier only excludes the one value whose magnitude no
/// parsed group can carry; the parser itself never produces it.
pub proof fn lemma_notation_roundtrip(g: DiceRoll)
    requires
        g.wf(),
        modifier_val(g.modifier) > i32::MIN,
    ensures
        parse_expression_spec(g.notation_spec()) matches ParseOutcome::Parsed(h) && h.die == g.die
            && h.die_count == g.die_count && h.operation == g.operation && modifier_val(h.modifier)
            == modifier_val(g.modifier),
{
    let s = g.notation_spec();
    let cd = text::dec_chars(g.die_count as nat);
    let sd = text::dec_chars(g.die.sides as nat);
    let ops = op_suffix_spec(g.operation);
    let mods = mod_suffix_spec(g.modifier);
    text::lemma_dec_chars_digits(g.die_count as nat);
    text::lemma_dec_chars_digits(g.die.sides as nat);
    text::lemma_dec_chars_val(g.die_count as nat);
    text::lemma_dec_chars_val(g.die.sides as nat);
    let a1 = cd.len() as int;
    let a2 = a1 + 1 + sd.len();
    let a3 = a2 + ops.len();
    let e = s.len() as int;
    assert(s =~= cd + seq!['d'] + sd + ops + mods);
    assert(e == a3 + mods.len());

    // The count digits, the `d`, and the sides digits.
    assert forall|k: int| 0 <= k < a1 implies text::is_digit(#[trigger] s[k]) by {
        assert(s[k] == cd[k]);
    }
    assert(s[a1] == 'd');
    assert(!text::is_digit('d'));
    text::lemma_digit_run_end_is(s, 0, a1);
    assert forall|k: int| a1 + 1 <= k < a2 implies text::is_digit(#[trigger] s[k]) by {
        assert(s[k] == sd[k - (a1 + 1)]);
    }
    assert(s.subrange(0, a1) =~= cd);
    assert(s.subrange(a1 + 1, a2) =~= sd);

    // The selection suffix, if any.
    match g.operation {
        None => {
            assert(ops.len() == 0);
        },
        Some(op) => {
            let nd = text::dec_chars(op.keep_n() as nat);
            text::lemma_dec_chars_digits(op.keep_n() as nat);
            text::lemma_dec_chars_val(op.keep_n() as nat);
            assert(ops.len() == 2 + nd.len());
            assert(s[a2] == 'k');
            assert(s[a2 + 1] == if op is KeepHighest {
                'h'
            } else {
                'l'
            });
            assert forall|k: int| a2 + 2 <= k < a3 implies text::is_digit(#[trigger] s[k]) by {
                assert(s[k] == ops[k - a2]);
                assert(ops[k - a2] == nd[k - a2 - 2]);
            }
            assert(s.subrange(a2 + 2, a3) =~= nd);
        },
    }

    // The modifier suffix, if any.
    let m = modifier_val(g.modifier);
    if m != 0 {
        let md = text::dec_chars((if m > 0 {
            m
        } else {
            -m
        }) as nat);
        text::lemma_dec_chars_digits((if m > 0 {
            m
        } else {
            -m
        }) as nat);
        text::lemma_dec_chars_val((if m > 0 {
            m
        } else {
            -m
        }) as nat);
        assert(mods.len() == 1 + md.len());
        assert(s[a3] == if m > 0 {
            '+'
        } else {
            '-'
        });
        assert forall|k: int| a3 + 1 <= k < e implies text::is_digit(#[trigger] s[k]) by {
            assert(s[k] == mods[k - a3]);
            assert(mods[k - a3] == md[k - a3 - 1]);
        }
        assert(s.subrange(a3 + 1, e) =~= md);
    } else {
        assert(mods.len() == 0);
    }

    // Where each digit run ends: at the `d`, at the suffix boundaries, and
    // at the end of the string.
    assert(a2 < e ==> !text::is_digit(s[a2]));
    match g.operation {
        None => {},
        Some(op) => {
            assert(a3 < e ==> !text::is_digit(s[a3]));
            text::lemma_digit_run_end_is(s, a2 + 2, a3);
        },
    }
    text::lemma_digit_run_end_is(s, a1 + 1, a2);
    if m != 0 {
        text::lemma_digit_run_end_is(s, a3 + 1, e);
    }
    if g.operation is None {
        text::lemma_digit_run_end_is(s, a2, a2);
    }
}

/// What a well-formed construction yields, and which check fails first
/// otherwise.
pub open spec fn create_spec(
    sides: u32,
    die_count: u32,
    operation: Option<DiceRollOp>,
    modifier: Option<i32>,
) -> Result<DiceRoll, DiceRollError> {
    if sides < 1 {
        Err(DiceRollError::InvalidDie)
    } else if die_count < 1 {
        Err(DiceRollError::InvalidCount)
    } else if match operation {
        Some(op) => !op.wf(),
        None => false,
    } {
        Err(DiceRollError::InvalidSelectionSize)
    } else {
        Ok(DiceRoll { die: Die { sides }, die_count, operation, modifier })
    }
}

/// The fresh outcomes that a sequence of die values stands for: one outcome
/// per value, each of the group's die, each initially kept.
pub open spec fn draws_of(g: DiceRoll, values: Seq<u32>) -> Seq<DieRollResult> {
    Seq::new(values.len(), |i: int| DieRollResult { die: g.die, result: values[i], keep: true })
}

/// A freshly drawn outcome of one die of the group: the group's die, a value
/// on its faces, initially kept.
pub open spec fn raw_outcome_ok(g: DiceRoll, d: DieRollResult) -> bool {
    d.die == g.die && d.keep && 1 <= d.result <= g.die.sides
}

/// `raw` is a plausible sequence of fresh draws for the group `g`.
pub open spec fn raw_draws_ok(g: DiceRoll, raw: Seq<DieRollResult>) -> bool {
    raw.len() == g.die_count && forall|k: int|
        0 <= k < raw.len() ==> raw_outcome_ok(g, #[trigger] raw[k])
}

/// `r` is what rolling `g` yields when the fresh draws were `raw`.
pub open spec fn rolled_from(g: DiceRoll, raw: Seq<DieRollResult>, r: DiceRollResult) -> bool {
    &&& raw_draws_ok(g, raw)
    &&& r.dice_results@ == apply_operation(raw, g.operation)
    &&& r.operation == g.operation
    &&& r.modifier == g.modifier
    &&& r.result == modifier_val(g.modifier) + selection::sum_kept(r.dice_results@)
}

/// Everything rolling promises of its outcome, whatever values the random
/// source produced: the outcome arises from some sequence of in-range draws
/// (`rolled_from` pins everything downstream of the draws), one outcome per
/// die of the group, every value on the die's faces, and — under a selection
/// policy — exactly `min(n, count)` outcomes kept.
pub open spec fn roll_output(g: DiceRoll, r: DiceRollResult) -> bool {
    &&& exists|raw: Seq<DieRollResult>| rolled_from(g, raw, r)
    &&& r.dice_results@.len() == g.die_count
    &&& forall|i: int|
        0 <= i < r.dice_results@.len() ==> (#[trigger] r.dice_results@[i]).die == g.die && 1
            <= r.dice_results@[i].result <= g.die.sides
    &&& r.operation == g.operation
    &&& r.modifier == g.modifier
    &&& r.result == modifier_val(g.modifier) + selection::sum_kept(r.dice_results@)
    &&& match g.operation {
        Some(op) => selection::kept_count(r.dice_results@) == if op.keep_n() <= g.die_count {
            op.keep_n() as int
        } else {
            g.die_count as int
        },
        None => forall|i: int|
            0 <= i < r.dice_results@.len() ==> (#[trigger] r.dice_results@[i]).keep,
    }
}

/// Applying a selection policy to in-range draws keeps every outcome's die
/// and value in range and its length unchanged.
proof fn lemma_apply_operation_outcomes(g: DiceRoll, raw: Seq<DieRollResult>)
    requires
        raw_draws_ok(g, raw),
    ensures
        apply_operation(raw, g.operation).len() == raw.len(),
        forall|i: int|
            0 <= i < apply_operation(raw, g.operation).len() ==> (#[trigger] apply_operation(
                raw,
                g.operation,
            )[i]).die == g.die && 1 <= apply_operation(raw, g.operation)[i].result <= g.die.sides,
        match g.operation {
            Some(op) => selection::kept_count(apply_operation(raw, g.operation)) == if op.keep_n()
                <= raw.len() {
                op.keep_n() as int
            } else {
                raw.len() as int
            },
            None => true,
        },
{
    match g.operation {
        None => {},
        Some(op) => {
            let sorted = selection::stable_sorted(raw, op.is_descending());
            selection::lemma_stable_sorted_props(raw, op.is_descending());
            selection::lemma_mark_keep_props(sorted, op.keep_n() as int);
            let out = apply_operation(raw, g.operation);
            assert forall|i: int| 0 <= i < out.len() implies (#[trigger] out[i]).die == g.die && 1
                <= out[i].result <= g.die.sides by {
                assert(out[i].die == sorted[i].die && out[i].result == sorted[i].result);
                assert(raw.contains(sorted[i]));
                let j = choose|j: int| 0 <= j < raw.len() && raw[j] == sorted[i];
                assert(raw_outcome_ok(g, raw[j]));
            }
        },
    }
}

} // verus!
