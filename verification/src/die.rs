//! A single die and the outcome of rolling it once.

use crate::rng;
use crate::text;
use vstd::prelude::*;

verus! {

/// A single die, described by its number of sides.
#[derive(Clone, Copy, Debug, PartialEq, Eq, Structural)]
pub struct Die {
    pub sides: u32,
}

impl Die {
    /// A die is well formed when it has at least one side.
    pub open spec fn wf(self) -> bool {
        self.sides >= 1
    }
    /// Rolls the die once: the outcome is somewhere in `1..=sides`, uniformly
    /// drawn from the thread-local random source.
    pub fn roll(&self) -> (r: u32)
        requires
            self.wf(),
        ensures
            1 <= r <= self.sides,
    {
        let mut source = rng::fresh_rng();
        rng::sample_range(&mut source, self.sides)
    }

    /// The notation that names this die, `d` followed by its side count.
    pub open spec fn notation_spec(self) -> Seq<char> {
        seq!['d'] + text::dec_chars(self.sides as nat)
    }

    /// Writes the die in notation form, e.g. `d20`.
    pub fn to_notation(&self) -> (s: String)
        ensures
            s@ == self.notation_spec(),
    {
        let mut v: Vec<char> = Vec::new();
        v.push('d');
        let digits = text::u64_to_chars(self.sides as u64);
        text::push_chars(&mut v, &digits);
        proof {
            assert(v@ =~= self.notation_spec());
        }
        text::chars_to_string(&v)
    }
}

/// The result of rolling one die: the die, the value it showed, and whether
/// the value is still counted after selection.
#[derive(Clone, Copy, Debug, PartialEq, Eq, Structural)]
pub struct DieRollResult {
    pub die: Die,
    pub result: u32,
    pub keep: bool,
}

impl DieRollResult {
    /// An outcome is well formed when its value lies within its die's faces.
    pub open spec fn wf(self) -> bool {
        self.die.wf() && 1 <= self.result <= self.die.sides
    }

    /// The trace text of one outcome: `[v]` when kept, `(v: discarded)` when
    /// not.
    pub open spec fn render_spec(self) -> Seq<char> {
        if self.keep {
            seq!['['] + text::dec_chars(self.result as nat) + seq![']']
        } else {
            seq!['('] + text::dec_chars(self.result as nat) + seq![
                ':',
                ' ',
                'd',
                'i',
                's',
                'c',
                'a',
                'r',
                'd',
                'e',
                'd',
                ')',
            ]
        }
    }

    /// Writes the outcome as trace text, as characters.
    pub fn render_chars(&self) -> (v: Vec<char>)
        ensures
            v@ == self.render_spec(),
    {
        let mut v: Vec<char> = Vec::new();
        let digits = text::u64_to_chars(self.result as u64);
        if self.keep {
            v.push('[');
            text::push_chars(&mut v, &digits);
            v.push(']');
        } else {
            v.push('(');
            text::push_chars(&mut v, &digits);
            v.push(':');
            v.push(' ');
            v.push('d');
            v.push('i');
            v.push('s');
            v.push('c');
            v.push('a');
            v.push('r');
            v.push('d');
            v.push('e');
            v.push('d');
            v.push(')');
        }
        proof {
            assert(v@ =~= self.render_spec());
        }
        v
    }

    /// Writes the outcome as trace text.
    pub fn render(&self) -> (s: String)
        ensures
            s@ == self.render_spec(),
    {
        let v = self.render_chars();
        text::chars_to_string(&v)
    }
}

} // verus!
