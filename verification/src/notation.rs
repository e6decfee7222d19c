//! The simple dice notation: `[count]d<sides>[(+|-)modifier]`, with the
//! count defaulting to 1 and whitespace ignored anywhere in the string. No
//! selection policy: every die counts.

use crate::dice_roll_result::mod_annotation;
use crate::text;
use vstd::prelude::*;

verus! {

/// A dice roll in the simple notation (e.g. `2d6+3`): a number of identical
/// dice and a signed modifier.
#[derive(Clone, Copy, Debug)]
pub struct DiceRoll {
    /// Number of dice to roll.
    pub count: u32,
    /// Number of sides on each die.
    pub sides: u32,
    /// Modifier to add to the result.
    pub modifier: i32,
}

/// The result of a roll in the simple notation: each die's value and the
/// total with the modifier folded in.
#[derive(Clone, Debug)]
pub struct RollResult {
    /// The roll this result came from.
    pub dice_roll: DiceRoll,
    /// Individual values of each die rolled, in roll order.
    pub individual_rolls: Vec<u32>,
    /// Total result including the modifier.
    pub total: i32,
}

/// The sum of a sequence of die values.
pub open spec fn sum_values(s: Seq<u32>) -> int
    decreases s.len(),
{
    if s.len() == 0 {
        0
    } else {
        sum_values(s.drop_last()) + s.last()
    }
}

/// When every value lies in `1..=m`, the sum lies between `len` and
/// `len * m`.
pub proof fn lemma_sum_values_bounds(s: Seq<u32>, m: int)
    requires
        forall|i: int| 0 <= i < s.len() ==> 1 <= #[trigger] s[i] <= m,
    ensures
        s.len() <= sum_values(s) <= s.len() * m,
    decreases s.len(),
{
    if s.len() > 0 {
        assert(forall|i: int| 0 <= i < s.drop_last().len() ==> 1 <= #[trigger] s.drop_last()[i] <= m);
        lemma_sum_values_bounds(s.drop_last(), m);
        assert((s.len() - 1) * m + m == s.len() * m) by (nonlinear_arith);
    }
}

impl DiceRoll {
    /// Builds a roll with the given parameters, unchecked: validation
    /// belongs to the caller, and rolling asks for a rollable die.
    pub fn new(count: u32, sides: u32, modifier: i32) -> (r: DiceRoll)
        ensures
            r.count == count,
            r.sides == sides,
            r.modifier == modifier,
    {
        DiceRoll { count, sides, modifier }
    }

    /// The largest total this roll can produce: every die at its maximum,
    /// plus a positive modifier.
    pub open spec fn max_total(self) -> int {
        self.count * self.sides + if self.modifier > 0 {
            self.modifier as int
        } else {
            0
        }
    }

    /// A roll is executable when its die has a face to land on (or there is
    /// nothing to roll) and its worst case fits a 32-bit total.
    pub open spec fn rollable(self) -> bool {
        (self.count == 0 || self.sides >= 1) && self.max_total() <= i32::MAX
    }

    /// Rolls the dice and returns each die's value along with the total.
    ///
    /// The values are random; everything after the draws is pinned: one
    /// value per die, each on the die's faces, and the total is their sum
    /// plus the modifier.
    pub fn roll_with_details(&self) -> (r: RollResult)
        requires
            self.rollable(),
        ensures
            r.dice_roll == *self,
            r.individual_rolls@.len() == self.count,
            forall|i: int|
                0 <= i < r.individual_rolls@.len() ==> 1 <= #[trigger] r.individual_rolls@[i]
                    <= self.sides,
            r.total == self.modifier + sum_values(r.individual_rolls@),
            self.modifier + self.count <= r.total <= self.modifier + self.count * self.sides,
    {
        let die = crate::die::Die { sides: self.sides };
        let count: usize = self.count as usize;
        let mut values: Vec<u32> = Vec::new();
        let mut acc: i64 = 0;
        let mut i: usize = 0;
        while i < count
            invariant
                self.rollable(),
                count == self.count,
                die.sides == self.sides,
                i <= count,
                values@.len() == i,
                forall|k: int| 0 <= k < i ==> 1 <= #[trigger] values@[k] <= self.sides,
                acc == sum_values(values@),
                (i as int) <= acc <= (i as int) * (self.sides as int),
            decreases count - i,
        {
            let value = die.roll();
            proof {
                assert(values@.push(value).drop_last() =~= values@);
                assert((i as int) * (self.sides as int) + self.sides == (i + 1) * (
                self.sides as int)) by (nonlinear_arith);
                assert((i + 1) * (self.sides as int) <= (count as int) * (self.sides as int))
                    by (nonlinear_arith)
                    requires
                        i + 1 <= count,
                        self.sides >= 0,
                ;
            }
            values.push(value);
            acc = acc + (value as i64);
            i = i + 1;
        }
        proof {
            assert((count as int) * (self.sides as int) == self.count * self.sides);
        }
        let total: i64 = acc + (self.modifier as i64);
        RollResult { dice_roll: *self, individual_rolls: values, total: total as i32 }
    }

    /// Rolls the dice and returns the total alone.
    pub fn roll(&self) -> (r: i32)
        requires
            self.rollable(),
        ensures
            exists|values: Seq<u32>|
                {
                    &&& values.len() == self.count
                    &&& (forall|i: int| 0 <= i < values.len() ==> 1 <= #[trigger] values[i]
                        <= self.sides)
                    &&& r == self.modifier + sum_values(values)
                },
            self.modifier + self.count <= r <= self.modifier + self.count * self.sides,
    {
        let details = self.roll_with_details();
        proof {
            assert({
                &&& details.individual_rolls@.len() == self.count
                &&& (forall|i: int|
                    0 <= i < details.individual_rolls@.len() ==> 1
                        <= #[trigger] details.individual_rolls@[i] <= self.sides)
                &&& details.total == self.modifier + sum_values(details.individual_rolls@)
            });
        }
        details.total
    }

    /// The canonical text of the roll: `{count}d{sides}`, then the signed
    /// modifier when it is nonzero.
    pub open spec fn notation_spec(self) -> Seq<char> {
        text::dec_chars(self.count as nat) + seq!['d'] + text::dec_chars(self.sides as nat)
            + sign_suffix_spec(self.modifier)
    }

    /// Writes the roll in its canonical notation, e.g. `2d6+3`.
    pub fn to_notation(&self) -> (s: String)
        ensures
            s@ == self.notation_spec(),
    {
        let mut v: Vec<char> = Vec::new();
        let count_digits = text::u64_to_chars(self.count as u64);
        text::push_chars(&mut v, &count_digits);
        v.push('d');
        let sides_digits = text::u64_to_chars(self.sides as u64);
        text::push_chars(&mut v, &sides_digits);
        if self.modifier > 0 {
            v.push('+');
            let mod_digits = text::u64_to_chars(self.modifier as u64);
            text::push_chars(&mut v, &mod_digits);
        } else if self.modifier < 0 {
            v.push('-');
            let magnitude: i64 = -(self.modifier as i64);
            let mod_digits = text::u64_to_chars(magnitude as u64);
            text::push_chars(&mut v, &mod_digits);
        }
        proof {
            assert(v@ =~= self.notation_spec());
        }
        text::chars_to_string(&v)
    }

    /// Parses the simple notation: an optional count (default 1), a `d`, the
    /// sides, and an optional signed modifier, with whitespace ignored
    /// anywhere.
    /// A die with no sides, or an explicit count of zero, is refused: every
    /// parsed roll satisfies the dice-group bounds.
    pub fn from_notation(notation: &str) -> (r: Option<DiceRoll>)
        ensures
            r == parse_notation_spec(notation@),
    {
        let all = text::str_to_chars(notation);
        let cs = text::strip_spaces(&all);
        let n: usize = cs.len();
        let p = text::scan_for(&cs, 'd', 0);
        if p == n {
            return None;
        }
        let second_d = text::scan_for(&cs, 'd', p + 1);
        if second_d != n {
            return None;
        }
        let count: u32 = if p == 0 {
            1
        } else {
            let run = text::scan_digits(&cs, 0);
            proof {
                text::lemma_digit_run_end_bounds(cs@, 0);
            }
            if run < p {
                return None;
            }
            let v: u32 = match text::parse_u32_digits(&cs, 0, p) {
                Some(v) => v,
                None => {
                    return None;
                },
            };
            if v == 0 {
                return None;
            }
            v
        };
        let q = text::scan_for(&cs, '+', p + 1);
        if q < n {
            let second_plus = text::scan_for(&cs, '+', q + 1);
            if second_plus != n {
                return None;
            }
            let sides = match Self::parse_segment_u32(&cs, p + 1, q) {
                Some(v) => v,
                None => {
                    return None;
                },
            };
            if sides == 0 {
                return None;
            }
            let magnitude = match Self::parse_segment_i32(&cs, q + 1, n) {
                Some(v) => v,
                None => {
                    return None;
                },
            };
            Some(DiceRoll { count, sides, modifier: magnitude })
        } else {
            let w = text::scan_for(&cs, '-', p + 1);
            if w < n {
                let second_minus = text::scan_for(&cs, '-', w + 1);
                if second_minus != n {
                    return None;
                }
                let sides = match Self::parse_segment_u32(&cs, p + 1, w) {
                    Some(v) => v,
                    None => {
                        return None;
                    },
                };
                if sides == 0 {
                    return None;
                }
                let magnitude = match Self::parse_segment_i32(&cs, w + 1, n) {
                    Some(v) => v,
                    None => {
                        return None;
                    },
                };
                Some(DiceRoll { count, sides, modifier: -magnitude })
            } else {
                let sides = match Self::parse_segment_u32(&cs, p + 1, n) {
                    Some(v) => v,
                    None => {
                        return None;
                    },
                };
                if sides == 0 {
                    return None;
                }
                Some(DiceRoll { count, sides, modifier: 0 })
            }
        }
    }

    /// Reads `cs[a..b]` as an unsigned 32-bit decimal segment.
    fn parse_segment_u32(cs: &Vec<char>, a: usize, b: usize) -> (r: Option<u32>)
        requires
            a <= b <= cs@.len(),
        ensures
            match r {
                Some(v) => seg_u32(cs@, a as int, b as int) && v == text::digits_val(
                    cs@.subrange(a as int, b as int),
                ),
                None => !seg_u32(cs@, a as int, b as int),
            },
    {
        if a == b {
            return None;
        }
        let run = text::scan_digits(&cs, a);
        proof {
            text::lemma_digit_run_end_bounds(cs@, a as int);
        }
        if run < b {
            return None;
        }
        text::parse_u32_digits(cs, a, b)
    }

    /// Reads `cs[a..b]` as a decimal segment whose value fits an `i32`.
    fn parse_segment_i32(cs: &Vec<char>, a: usize, b: usize) -> (r: Option<i32>)
        requires
            a <= b <= cs@.len(),
        ensures
            match r {
                Some(v) => seg_i32(cs@, a as int, b as int) && v == text::digits_val(
                    cs@.subrange(a as int, b as int),
                ),
                None => !seg_i32(cs@, a as int, b as int),
            },
    {
        if a == b {
            return None;
        }
        let run = text::scan_digits(&cs, a);
        proof {
            text::lemma_digit_run_end_bounds(cs@, a as int);
        }
        if run < b {
            return None;
        }
        match text::parse_u32_digits(cs, a, b) {
            Some(v) => {
                if v <= 0x7fffffffu32 {
                    Some(v as i32)
                } else {
                    None
                }
            },
            None => None,
        }
    }
}

/// The notation suffix of a signed modifier: sign and magnitude, or nothing
/// for zero.
pub open spec fn sign_suffix_spec(m: i32) -> Seq<char> {
    if m > 0 {
        seq!['+'] + text::dec_chars(m as nat)
    } else if m < 0 {
        seq!['-'] + text::dec_chars((-m) as nat)
    } else {
        Seq::empty()
    }
}

/// `cs[a..b]` is a nonempty run of digits whose value fits a `u32`.
pub open spec fn seg_u32(s: Seq<char>, a: int, b: int) -> bool {
    &&& a < b
    &&& forall|k: int| a <= k < b ==> text::is_digit(#[trigger] s[k])
    &&& text::digits_val(s.subrange(a, b)) <= u32::MAX
}

/// `cs[a..b]` is a nonempty run of digits whose value fits an `i32`.
pub open spec fn seg_i32(s: Seq<char>, a: int, b: int) -> bool {
    &&& a < b
    &&& forall|k: int| a <= k < b ==> text::is_digit(#[trigger] s[k])
    &&& text::digits_val(s.subrange(a, b)) <= i32::MAX
}

/// `cs[a..b]` is a nonempty run of digits whose value fits a `u32` and is at
/// least 1: what a count or a sides field must read as.
pub open spec fn seg_pos_u32(s: Seq<char>, a: int, b: int) -> bool {
    seg_u32(s, a, b) && text::digits_val(s.subrange(a, b)) >= 1
}

/// The grammar of the simple notation, applied to the input with its
/// whitespace removed: an optional count before the single `d` (default 1), the sides,
/// and optionally a single `+` or `-` with a magnitude. A zero sides field
/// or an explicit zero count is refused: every parsed roll describes a die
/// with at least one side and a batch of at least one die.
pub open spec fn parse_notation_spec(raw: Seq<char>) -> Option<DiceRoll> {
    let s = text::despaced(raw);
    let p = text::find_from(s, 'd', 0);
    if p == s.len() {
        None
    } else if text::find_from(s, 'd', p + 1) != s.len() {
        None
    } else if p > 0 && !seg_pos_u32(s, 0, p) {
        None
    } else {
        let count = if p == 0 {
            1nat
        } else {
            text::digits_val(s.subrange(0, p))
        };
        let q = text::find_from(s, '+', p + 1);
        if q < s.len() {
            if text::find_from(s, '+', q + 1) != s.len() {
                None
            } else if !seg_pos_u32(s, p + 1, q) || !seg_i32(s, q + 1, s.len() as int) {
                None
            } else {
                Some(
                    DiceRoll {
                        count: count as u32,
                        sides: text::digits_val(s.subrange(p + 1, q)) as u32,
                        modifier: text::digits_val(s.subrange(q + 1, s.len() as int)) as i32,
                    },
                )
            }
        } else {
            let w = text::find_from(s, '-', p + 1);
            if w < s.len() {
                if text::find_from(s, '-', w + 1) != s.len() {
                    None
                } else if !seg_pos_u32(s, p + 1, w) || !seg_i32(s, w + 1, s.len() as int) {
                    None
                } else {
                    Some(
                        DiceRoll {
                            count: count as u32,
                            sides: text::digits_val(s.subrange(p + 1, w)) as u32,
                            modifier: (-text::digits_val(
                                s.subrange(w + 1, s.len() as int),
                            )) as i32,
                        },
                    )
                }
            } else {
                if !seg_pos_u32(s, p + 1, s.len() as int) {
                    None
                } else {
                    Some(
                        DiceRoll {
                            count: count as u32,
                            sides: text::digits_val(s.subrange(p + 1, s.len() as int)) as u32,
                            modifier: 0,
                        },
                    )
                }
            }
        }
    }
}

/// The round-trip law of the simple notation: parsing the canonical text of
/// any roll that satisfies the dice-group bounds yields the roll back
/// exactly — same count, same sides, same modifier.
///
/// The bound on the modifier only excludes the one value whose magnitude no
/// parsed roll can carry; the parser itself never produces it.
#[verifier::rlimit(30)]
pub proof fn lemma_notation_roundtrip(g: DiceRoll)
    requires
        g.count >= 1,
        g.sides >= 1,
        g.modifier > i32::MIN,
    ensures
        parse_notation_spec(g.notation_spec()) == Some(g),
{
    let s = g.notation_spec();
    let (a1, a2) = lemma_notation_chars(g);
    lemma_notation_no_blanks(g, a1, a2);
    lemma_notation_d_finds(g, a1, a2);
    lemma_notation_sign_finds(g, a1, a2);
    lemma_notation_eval(g, s, a1, a2);
}

/// Reading the canonical text back, given which character stands where and
/// where its landmarks sit: the grammar takes the branch the modifier's
/// sign dictates and rebuilds the roll field by field.
proof fn lemma_notation_eval(g: DiceRoll, s: Seq<char>, a1: int, a2: int)
    requires
        g.count >= 1,
        g.sides >= 1,
        g.modifier > i32::MIN,
        text::despaced(s) == s,
        1 <= a1 && a1 + 1 < a2 <= s.len(),
        text::find_from(s, 'd', 0) == a1,
        text::find_from(s, 'd', a1 + 1) == s.len(),
        forall|k: int| 0 <= k < a1 ==> text::is_digit(#[trigger] s[k]),
        forall|k: int| a1 + 1 <= k < a2 ==> text::is_digit(#[trigger] s[k]),
        text::digits_val(s.subrange(0, a1)) == g.count,
        text::digits_val(s.subrange(a1 + 1, a2)) == g.sides,
        g.modifier != 0 ==> {
            &&& a2 + 1 < s.len()
            &&& (forall|k: int| a2 + 1 <= k < s.len() ==> text::is_digit(#[trigger] s[k]))
            &&& text::digits_val(s.subrange(a2 + 1, s.len() as int)) == (if g.modifier > 0 {
                g.modifier as int
            } else {
                -(g.modifier as int)
            })
        },
        g.modifier > 0 ==> text::find_from(s, '+', a1 + 1) == a2 && text::find_from(s, '+', a2 + 1)
            == s.len(),
        g.modifier < 0 ==> text::find_from(s, '+', a1 + 1) == s.len() && text::find_from(
            s,
            '-',
            a1 + 1,
        ) == a2 && text::find_from(s, '-', a2 + 1) == s.len(),
        g.modifier == 0 ==> a2 == s.len() && text::find_from(s, '+', a1 + 1) == s.len()
            && text::find_from(s, '-', a1 + 1) == s.len(),
    ensures
        parse_notation_spec(s) == Some(g),
{
    let t = text::despaced(s);
    assert(t == s);
    let e = t.len() as int;
    let p = text::find_from(t, 'd', 0);
    assert(p == a1);
    assert(seg_pos_u32(t, 0, p));
    if g.modifier > 0 {
        let q = text::find_from(t, '+', p + 1);
        assert(q == a2);
        assert(seg_pos_u32(t, p + 1, q));
        assert(seg_i32(t, q + 1, e));
    } else if g.modifier < 0 {
        let w = text::find_from(t, '-', p + 1);
        assert(w == a2);
        assert(seg_pos_u32(t, p + 1, w));
        assert(seg_i32(t, w + 1, e));
        assert((-text::digits_val(t.subrange(w + 1, e))) as i32 == g.modifier);
    } else {
        assert(seg_pos_u32(t, p + 1, e));
    }
}

/// Which character stands at each index of the canonical text: the count
/// digits up to `a1`, the `d` at `a1`, the sides digits up to `a2`, and —
/// for a nonzero modifier — the sign at `a2` with its digits to the end.
proof fn lemma_notation_chars(g: DiceRoll) -> (r: (int, int))
    requires
        g.modifier > i32::MIN,
    ensures
        ({
            let (a1, a2) = r;
            let s = g.notation_spec();
            let m = g.modifier as int;
            &&& 1 <= a1 && a1 + 1 < a2 <= s.len()
            &&& forall|k: int| 0 <= k < a1 ==> text::is_digit(#[trigger] s[k])
            &&& s[a1] == 'd'
            &&& forall|k: int| a1 + 1 <= k < a2 ==> text::is_digit(#[trigger] s[k])
            &&& text::digits_val(s.subrange(0, a1)) == g.count
            &&& text::digits_val(s.subrange(a1 + 1, a2)) == g.sides
            &&& (m != 0 ==> {
                &&& a2 + 1 < s.len()
                &&& s[a2] == (if m > 0 {
                    '+'
                } else {
                    '-'
                })
                &&& (forall|k: int| a2 + 1 <= k < s.len() ==> text::is_digit(#[trigger] s[k]))
                &&& text::digits_val(s.subrange(a2 + 1, s.len() as int)) == (if m > 0 {
                    m
                } else {
                    -m
                })
            })
            &&& (m == 0 ==> a2 == s.len())
        }),
{
    let s = g.notation_spec();
    let cd = text::dec_chars(g.count as nat);
    let sd = text::dec_chars(g.sides as nat);
    let mods = sign_suffix_spec(g.modifier);
    text::lemma_dec_chars_digits(g.count as nat);
    text::lemma_dec_chars_digits(g.sides as nat);
    text::lemma_dec_chars_val(g.count as nat);
    text::lemma_dec_chars_val(g.sides as nat);
    let a1 = cd.len() as int;
    let a2 = a1 + 1 + sd.len();
    let e = s.len() as int;
    assert(s =~= cd + seq!['d'] + sd + mods);
    assert(e == a2 + mods.len());
    assert forall|k: int| 0 <= k < a1 implies text::is_digit(#[trigger] s[k]) by {
        assert(s[k] == cd[k]);
    }
    assert(s[a1] == 'd');
    assert forall|k: int| a1 + 1 <= k < a2 implies text::is_digit(#[trigger] s[k]) by {
        assert(s[k] == sd[k - (a1 + 1)]);
    }
    assert(s.subrange(0, a1) =~= cd);
    assert(s.subrange(a1 + 1, a2) =~= sd);
    let m = g.modifier as int;
    if m != 0 {
        let md = text::dec_chars((if m > 0 {
            m
        } else {
            -m
        }) as nat);
        text::lemma_dec_chars_digits((if m > 0 {
            m
        } else {
            -m
        }) as nat);
        text::lemma_dec_chars_val((if m > 0 {
            m
        } else {
            -m
        }) as nat);
        assert(mods.len() == 1 + md.len());
        assert(s[a2] == if m > 0 {
            '+'
        } else {
            '-'
        });
        assert forall|k: int| a2 + 1 <= k < e implies text::is_digit(#[trigger] s[k]) by {
            assert(s[k] == mods[k - a2]);
            assert(mods[k - a2] == md[k - a2 - 1]);
        }
        assert(s.subrange(a2 + 1, e) =~= md);
    } else {
        assert(mods.len() == 0);
    }
    (a1, a2)
}

/// No character of the canonical text is a space, so stripping spaces
/// changes nothing.
proof fn lemma_notation_no_blanks(g: DiceRoll, a1: int, a2: int)
    requires
        ({
            let s = g.notation_spec();
            let m = g.modifier as int;
            &&& 1 <= a1 && a1 + 1 < a2 <= s.len()
            &&& forall|k: int| 0 <= k < a1 ==> text::is_digit(#[trigger] s[k])
            &&& s[a1] == 'd'
            &&& forall|k: int| a1 + 1 <= k < a2 ==> text::is_digit(#[trigger] s[k])
            &&& (m != 0 ==> s[a2] == (if m > 0 {
                '+'
            } else {
                '-'
            }) && (forall|k: int| a2 + 1 <= k < s.len() ==> text::is_digit(#[trigger] s[k])))
            &&& (m == 0 ==> a2 == s.len())
        }),
    ensures
        text::despaced(g.notation_spec()) == g.notation_spec(),
{
    let s = g.notation_spec();
    let m = g.modifier as int;
    assert forall|i: int| 0 <= i < s.len() implies text::not_blank(#[trigger] s[i]) by {
        if i < a1 || (a1 + 1 <= i < a2) {
        } else if i == a1 {
        } else if m != 0 && i == a2 {
        } else {
            assert(text::is_digit(s[i]));
        }
    }
    text::lemma_despaced_keeps_all(s);
}

/// The single `d` of the canonical text sits at `a1`, and none follows.
proof fn lemma_notation_d_finds(g: DiceRoll, a1: int, a2: int)
    requires
        ({
            let s = g.notation_spec();
            let m = g.modifier as int;
            &&& 1 <= a1 && a1 + 1 < a2 <= s.len()
            &&& forall|k: int| 0 <= k < a1 ==> text::is_digit(#[trigger] s[k])
            &&& s[a1] == 'd'
            &&& forall|k: int| a1 + 1 <= k < a2 ==> text::is_digit(#[trigger] s[k])
            &&& (m != 0 ==> s[a2] == (if m > 0 {
                '+'
            } else {
                '-'
            }) && (forall|k: int| a2 + 1 <= k < s.len() ==> text::is_digit(#[trigger] s[k])))
            &&& (m == 0 ==> a2 == s.len())
        }),
    ensures
        text::find_from(g.notation_spec(), 'd', 0) == a1,
        text::find_from(g.notation_spec(), 'd', a1 + 1) == g.notation_spec().len(),
{
    let s = g.notation_spec();
    let e = s.len() as int;
    let m = g.modifier as int;
    assert forall|k: int| 0 <= k < a1 implies #[trigger] s[k] != 'd' by {
        assert(text::is_digit(s[k]));
    }
    text::lemma_find_from_is(s, 'd', 0, a1);
    assert forall|k: int| a1 + 1 <= k < e implies #[trigger] s[k] != 'd' by {
        if k < a2 || (m != 0 && k > a2) {
            assert(text::is_digit(s[k]));
        }
    }
    text::lemma_find_from_is(s, 'd', a1 + 1, e);
}

/// Where the first `+` and `-` of the canonical text sit, given which
/// character stands at each index: a nonzero modifier's sign at `a2`, and
/// no sign anywhere else after the `d`.
proof fn lemma_notation_sign_finds(g: DiceRoll, a1: int, a2: int)
    requires
        ({
            let s = g.notation_spec();
            let m = g.modifier as int;
            &&& 1 <= a1 && a1 + 1 < a2 <= s.len()
            &&& forall|k: int| a1 + 1 <= k < a2 ==> text::is_digit(#[trigger] s[k])
            &&& (m != 0 ==> {
                &&& a2 + 1 < s.len()
                &&& s[a2] == (if m > 0 {
                    '+'
                } else {
                    '-'
                })
                &&& (forall|k: int| a2 + 1 <= k < s.len() ==> text::is_digit(#[trigger] s[k]))
            })
            &&& (m == 0 ==> a2 == s.len())
        }),
    ensures
        ({
            let s = g.notation_spec();
            let m = g.modifier as int;
            &&& (m > 0 ==> text::find_from(s, '+', a1 + 1) == a2 && text::find_from(s, '+', a2 + 1)
                == s.len())
            &&& (m < 0 ==> text::find_from(s, '+', a1 + 1) == s.len() && text::find_from(
                s,
                '-',
                a1 + 1,
            ) == a2 && text::find_from(s, '-', a2 + 1) == s.len())
            &&& (m == 0 ==> text::find_from(s, '+', a1 + 1) == s.len() && text::find_from(
                s,
                '-',
                a1 + 1,
            ) == s.len())
        }),
{
    let s = g.notation_spec();
    let e = s.len() as int;
    let m = g.modifier as int;
    if m > 0 {
        assert forall|k: int| a1 + 1 <= k < a2 implies #[trigger] s[k] != '+' by {
            assert(text::is_digit(s[k]));
        }
        text::lemma_find_from_is(s, '+', a1 + 1, a2);
        assert forall|k: int| a2 + 1 <= k < e implies #[trigger] s[k] != '+' by {
            assert(text::is_digit(s[k]));
        }
        text::lemma_find_from_is(s, '+', a2 + 1, e);
    } else if m < 0 {
        assert forall|k: int| a1 + 1 <= k < e implies #[trigger] s[k] != '+' by {
            if k != a2 {
                assert(text::is_digit(s[k]));
            }
        }
        text::lemma_find_from_is(s, '+', a1 + 1, e);
        assert forall|k: int| a1 + 1 <= k < a2 implies #[trigger] s[k] != '-' by {
            assert(text::is_digit(s[k]));
        }
        text::lemma_find_from_is(s, '-', a1 + 1, a2);
        assert forall|k: int| a2 + 1 <= k < e implies #[trigger] s[k] != '-' by {
            assert(text::is_digit(s[k]));
        }
        text::lemma_find_from_is(s, '-', a2 + 1, e);
    } else {
        assert forall|k: int| a1 + 1 <= k < e implies #[trigger] s[k] != '+' && #[trigger] s[k]
            != '-' by {
            assert(text::is_digit(s[k]));
        }
        text::lemma_find_from_is(s, '+', a1 + 1, e);
        text::lemma_find_from_is(s, '-', a1 + 1, e);
    }
}

impl RollResult {
    /// The trace text of a roll: the notation, each die's value, the
    /// modifier annotation, and the total.
    pub open spec fn render_spec(self) -> Seq<char> {
        self.dice_roll.notation_spec() + seq![' ', '→', ' ', '['] + join_values(
            self.individual_rolls@,
        ) + seq![']'] + mod_annotation(Some(self.dice_roll.modifier)) + seq![' ', '=', ' ']
            + text::int_chars(
            self.total as int,
        )
    }

    /// Writes the roll as trace text, e.g. `2d6+3 → [4, 5] + 3 = 12`.
    pub fn render(&self) -> (s: String)
        ensures
            s@ == self.render_spec(),
    {
        let notation = self.dice_roll.to_notation();
        let mut v: Vec<char> = text::str_to_chars(notation.as_str());
        v.push(' ');
        v.push('→');
        v.push(' ');
        v.push('[');
        let len: usize = self.individual_rolls.len();
        let mut i: usize = 0;
        while i < len
            invariant
                len == self.individual_rolls@.len(),
                i <= len,
                v@ =~= self.dice_roll.notation_spec() + seq![' ', '→', ' ', '['] + join_values(
                    self.individual_rolls@.take(i as int),
                ),
            decreases len - i,
        {
            if i > 0 {
                v.push(',');
                v.push(' ');
            }
            let digits = text::u64_to_chars(self.individual_rolls[i] as u64);
            text::push_chars(&mut v, &digits);
            proof {
                let pre = self.individual_rolls@.take(i as int);
                let now = self.individual_rolls@.take(i + 1);
                assert(now.drop_last() =~= pre);
                assert(now.last() == self.individual_rolls@[i as int]);
                assert(v@ =~= self.dice_roll.notation_spec() + seq![' ', '→', ' ', '[']
                    + join_values(now));
            }
            i = i + 1;
        }
        proof {
            assert(self.individual_rolls@.take(len as int) =~= self.individual_rolls@);
        }
        v.push(']');
        if self.dice_roll.modifier > 0 {
            v.push(' ');
            v.push('+');
            v.push(' ');
            let digits = text::u64_to_chars(self.dice_roll.modifier as u64);
            text::push_chars(&mut v, &digits);
        } else if self.dice_roll.modifier < 0 {
            v.push(' ');
            v.push('-');
            v.push(' ');
            let magnitude: i64 = -(self.dice_roll.modifier as i64);
            let digits = text::u64_to_chars(magnitude as u64);
            text::push_chars(&mut v, &digits);
        }
        proof {
            assert(v@ =~= self.dice_roll.notation_spec() + seq![' ', '→', ' ', '['] + join_values(
                self.individual_rolls@,
            ) + seq![']'] + mod_annotation(Some(self.dice_roll.modifier)));
        }
        v.push(' ');
        v.push('=');
        v.push(' ');
        let total = text::i64_to_chars(self.total as i64);
        text::push_chars(&mut v, &total);
        proof {
            assert(v@ =~= self.render_spec());
        }
        text::chars_to_string(&v)
    }
}

/// Die values written in decimal, joined by `", "`.
pub open spec fn join_values(s: Seq<u32>) -> Seq<char>
    decreases s.len(),
{
    if s.len() == 0 {
        Seq::empty()
    } else if s.len() == 1 {
        text::dec_chars(s[0] as nat)
    } else {
        join_values(s.drop_last()) + seq![',', ' '] + text::dec_chars(s.last() as nat)
    }
}

/// Returns a d4 dice roll (1d4).
pub fn d4() -> (r: DiceRoll)
    ensures
        r == (DiceRoll { count: 1, sides: 4, modifier: 0 }),
{
    DiceRoll::new(1, 4, 0)
}

/// Returns a d6 dice roll (1d6).
pub fn d6() -> (r: DiceRoll)
    ensures
        r == (DiceRoll { count: 1, sides: 6, modifier: 0 }),
{
    DiceRoll::new(1, 6, 0)
}

/// Returns a d8 dice roll (1d8).
pub fn d8() -> (r: DiceRoll)
    ensures
        r == (DiceRoll { count: 1, sides: 8, modifier: 0 }),
{
    DiceRoll::new(1, 8, 0)
}

/// Returns a d10 dice roll (1d10).
pub fn d10() -> (r: DiceRoll)
    ensures
        r == (DiceRoll { count: 1, sides: 10, modifier: 0 }),
{
    DiceRoll::new(1, 10, 0)
}

/// Returns a d12 dice roll (1d12).
pub fn d12() -> (r: DiceRoll)
    ensures
        r == (DiceRoll { count: 1, sides: 12, modifier: 0 }),
{
    DiceRoll::new(1, 12, 0)
}

/// Returns a d20 dice roll (1d20).
pub fn d20() -> (r: DiceRoll)
    ensures
        r == (DiceRoll { count: 1, sides: 20, modifier: 0 }),
{
    DiceRoll::new(1, 20, 0)
}

/// Returns a d100 dice roll (1d100).
pub fn d100() -> (r: DiceRoll)
    ensures
        r == (DiceRoll { count: 1, sides: 100, modifier: 0 }),
{
    DiceRoll::new(1, 100, 0)
}

/// The message shown for an input that does not parse: it carries the
/// offending input verbatim.
pub fn invalid_notation_message(input: &str) -> (r: String)
    ensures
        r@ == "Invalid dice notation: "@ + input@,
{
    let prefix = <String as vstd::string::StringExecFns>::from_str("Invalid dice notation: ");
    vstd::string::StringExecFns::concat(prefix, input)
}

} // verus!
