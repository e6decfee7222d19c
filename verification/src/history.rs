//! A bounded roll history: an owned, append-and-truncate store that keeps
//! the ten most recent entries, most recent first, and hands out a read-only
//! view.

use crate::dice_roll_result::DiceRollResult;
use crate::text;
use vstd::prelude::*;

verus! {

/// How many entries the history retains; older ones are silently evicted.
pub const HISTORY_LIMIT: usize = 10;

/// One entry of the roll history: the outcomes of one user action, stamped
/// with the time they were rolled.
#[derive(Clone, Debug)]
pub struct DiceHistoryEntry {
    /// Seconds since the Unix epoch at the time of the roll.
    pub timestamp: i64,
    /// The outcomes rolled in this action.
    pub roll_results: Vec<DiceRollResult>,
}

/// Relies on `chrono::Utc::now` (read through `DateTime::timestamp`): the
/// seconds since the Unix epoch. The clock's value is left entirely open.
/// `Utc::now` itself panics if the system clock reads before the epoch — an
/// environmental fault, independent of any input.
#[verifier::external_body]
fn unix_time_seconds() -> i64 {
    chrono::Utc::now().timestamp()
}

impl DiceHistoryEntry {
    /// Stamps the given outcomes with the current time.
    pub fn new(roll_results: Vec<DiceRollResult>) -> (r: DiceHistoryEntry)
        ensures
            r.roll_results == roll_results,
    {
        DiceHistoryEntry { timestamp: unix_time_seconds(), roll_results }
    }

    /// The clock reading of the entry, `hhH:mm:ss` within its day; an entry
    /// stamped before the epoch reads as the epoch itself.
    pub open spec fn clock_spec(self) -> Seq<char> {
        clock_of(self.timestamp)
    }

    /// The trace text of the entry: the clock in brackets, then each
    /// outcome's trace, joined by `", "`.
    pub open spec fn render_spec(self) -> Seq<char> {
        seq!['['] + self.clock_spec() + seq![']', ' '] + join_results(self.roll_results@)
    }

    /// Writes the entry as trace text.
    pub fn render(&self) -> (s: String)
        ensures
            s@ == self.render_spec(),
    {
        let mut v: Vec<char> = Vec::new();
        v.push('[');
        push_clock(&mut v, self.timestamp);
        v.push(']');
        v.push(' ');
        proof {
            assert(v@ =~= seq!['['] + self.clock_spec() + seq![']', ' ']);
        }
        let len: usize = self.roll_results.len();
        let mut i: usize = 0;
        while i < len
            invariant
                len == self.roll_results@.len(),
                i <= len,
                v@ =~= seq!['['] + self.clock_spec() + seq![']', ' '] + join_results(
                    self.roll_results@.take(i as int),
                ),
            decreases len - i,
        {
            if i > 0 {
                v.push(',');
                v.push(' ');
            }
            let rendered = self.roll_results[i].render();
            let chars = text::str_to_chars(rendered.as_str());
            text::push_chars(&mut v, &chars);
            proof {
                let pre = self.roll_results@.take(i as int);
                let now = self.roll_results@.take(i + 1);
                assert(now.drop_last() =~= pre);
                assert(now.last() == self.roll_results@[i as int]);
                assert(v@ =~= seq!['['] + self.clock_spec() + seq![']', ' '] + join_results(now));
            }
            i = i + 1;
        }
        proof {
            assert(self.roll_results@.take(len as int) =~= self.roll_results@);
        }
        text::chars_to_string(&v)
    }
}

/// The clock reading of a timestamp, `hhH:mm:ss` within its day; a reading
/// before the epoch reads as the epoch itself.
pub open spec fn clock_of(timestamp: i64) -> Seq<char> {
    let t = if timestamp < 0 {
        0
    } else {
        timestamp as int
    };
    pad2_spec((t / 3600) % 24) + seq!['H', ':'] + pad2_spec((t / 60) % 60) + seq![':'] + pad2_spec(
        t % 60,
    )
}

/// Appends the clock reading of `timestamp` to `v`.
fn push_clock(v: &mut Vec<char>, timestamp: i64) -> (r: ())
    ensures
        final(v)@ == old(v)@ + clock_of(timestamp),
{
    let t: i64 = if timestamp < 0 {
        0
    } else {
        timestamp
    };
    let hours = pad2((t / 3600) % 24);
    text::push_chars(v, &hours);
    v.push('H');
    v.push(':');
    let minutes = pad2((t / 60) % 60);
    text::push_chars(v, &minutes);
    v.push(':');
    let seconds = pad2(t % 60);
    text::push_chars(v, &seconds);
    proof {
        assert(v@ =~= old(v)@ + clock_of(timestamp));
    }
}

/// A clock field written with two digits, zero-padded.
pub open spec fn pad2_spec(n: int) -> Seq<char> {
    if 0 <= n < 10 {
        seq!['0'] + text::dec_chars(n as nat)
    } else if n >= 0 {
        text::dec_chars(n as nat)
    } else {
        Seq::empty()
    }
}

fn pad2(n: i64) -> (v: Vec<char>)
    requires
        0 <= n < 100,
    ensures
        v@ == pad2_spec(n as int),
{
    let digits = text::u64_to_chars(n as u64);
    if n < 10 {
        let mut v: Vec<char> = Vec::new();
        v.push('0');
        text::push_chars(&mut v, &digits);
        proof {
            assert(v@ =~= pad2_spec(n as int));
        }
        v
    } else {
        digits
    }
}

/// The entries' outcome traces, joined by `", "`.
pub open spec fn join_results(s: Seq<DiceRollResult>) -> Seq<char>
    decreases s.len(),
{
    if s.len() == 0 {
        Seq::empty()
    } else if s.len() == 1 {
        s[0].render_spec()
    } else {
        join_results(s.drop_last()) + seq![',', ' '] + s.last().render_spec()
    }
}

/// The owned store of past rolls: a single handle appends and truncates, and
/// readers get an immutable view. Entries sit most recent first, and only
/// the newest [`HISTORY_LIMIT`] survive.
#[derive(Clone, Debug)]
pub struct DiceHistoryStore {
    history: Vec<DiceHistoryEntry>,
}

impl DiceHistoryStore {
    /// The entries of the store, newest first.
    pub closed spec fn entries(self) -> Seq<DiceHistoryEntry> {
        self.history@
    }

    /// The store never holds more than [`HISTORY_LIMIT`] entries.
    pub open spec fn wf(self) -> bool {
        self.entries().len() <= HISTORY_LIMIT
    }

    /// An empty history.
    pub fn new() -> (r: DiceHistoryStore)
        ensures
            r.entries() == Seq::<DiceHistoryEntry>::empty(),
            r.wf(),
    {
        DiceHistoryStore { history: Vec::new() }
    }

    /// Prepends a new entry holding the given outcomes and evicts everything
    /// beyond the newest [`HISTORY_LIMIT`] entries, in one step.
    pub fn add_roll(&mut self, results: Vec<DiceRollResult>)
        ensures
            final(self).entries().len() == if old(self).entries().len() + 1 <= HISTORY_LIMIT {
                old(self).entries().len() + 1
            } else {
                HISTORY_LIMIT as nat
            },
            final(self).entries()[0].roll_results == results,
            forall|i: int|
                1 <= i < final(self).entries().len() ==> #[trigger] final(self).entries()[i] == old(
                    self,
                ).entries()[i - 1],
            final(self).wf(),
    {
        let entry = DiceHistoryEntry::new(results);
        self.history.insert(0, entry);
        if self.history.len() > HISTORY_LIMIT {
            self.history.truncate(HISTORY_LIMIT);
        }
    }

    /// Empties the history.
    pub fn clear(&mut self)
        ensures
            final(self).entries() == Seq::<DiceHistoryEntry>::empty(),
            final(self).wf(),
    {
        self.history.clear();
    }

    /// A read-only view of the history, newest entry first.
    pub fn get_history(&self) -> (r: &Vec<DiceHistoryEntry>)
        ensures
            r@ == self.entries(),
    {
        &self.history
    }
}

} // verus!
