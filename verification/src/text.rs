//! Character-level helpers shared by the notation parsers and formatters:
//! digit runs, decimal values, decimal rendering, whitespace handling, and
//! conversions between `str`, `Vec<char>` and `String`.

use vstd::prelude::*;
use vstd::string::StrSliceExecFns;

verus! {

/// The decimal digits, `'0'` through `'9'`.
pub open spec fn is_digit(c: char) -> bool {
    '0' <= c && c <= '9'
}

/// The numeric value of one decimal digit.
pub open spec fn digit_val(c: char) -> nat
    recommends
        is_digit(c),
{
    (c as nat - '0' as nat) as nat
}

/// Every character of `s` is a decimal digit.
pub open spec fn all_digits(s: Seq<char>) -> bool {
    forall|i: int| 0 <= i < s.len() ==> is_digit(#[trigger] s[i])
}

/// The value of a digit string read in base ten; the empty string reads as 0.
pub open spec fn digits_val(s: Seq<char>) -> nat
    decreases s.len(),
{
    if s.len() == 0 {
        0
    } else {
        digits_val(s.drop_last()) * 10 + digit_val(s.last())
    }
}

/// The index of the first character at or after `from` that is not a decimal
/// digit, or `s.len()` when digits run to the end.
pub open spec fn digit_run_end(s: Seq<char>, from: int) -> int
    recommends
        0 <= from <= s.len(),
    decreases s.len() - from when 0 <= from <= s.len()
{
    if from >= s.len() || !is_digit(s[from]) {
        from
    } else {
        digit_run_end(s, from + 1)
    }
}

/// The index of the first occurrence of `c` at or after `from`, or `s.len()`
/// when `c` does not occur there.
pub open spec fn find_from(s: Seq<char>, c: char, from: int) -> int
    recommends
        0 <= from <= s.len(),
    decreases s.len() - from when 0 <= from <= s.len()
{
    if from >= s.len() {
        from
    } else if s[from] == c {
        from
    } else {
        find_from(s, c, from + 1)
    }
}

pub proof fn lemma_digit_run_end_bounds(s: Seq<char>, from: int)
    requires
        0 <= from <= s.len(),
    ensures
        from <= digit_run_end(s, from) <= s.len(),
        forall|k: int| from <= k < digit_run_end(s, from) ==> is_digit(#[trigger] s[k]),
        digit_run_end(s, from) < s.len() ==> !is_digit(s[digit_run_end(s, from)]),
    decreases s.len() - from,
{
    if from < s.len() && is_digit(s[from]) {
        lemma_digit_run_end_bounds(s, from + 1);
    }
}

fn is_digit_char(c: char) -> (r: bool)
    ensures
        r == is_digit(c),
{
    c >= '0' && c <= '9'
}

/// Finds the end of the digit run that starts at `from`.
pub fn scan_digits(cs: &Vec<char>, from: usize) -> (end: usize)
    requires
        from <= cs@.len(),
    ensures
        end == digit_run_end(cs@, from as int),
        from <= end <= cs@.len(),
{
    let n: usize = cs.len();
    let mut i: usize = from;
    while i < n && is_digit_char(cs[i])
        invariant
            from <= i <= n == cs@.len(),
            forall|k: int| from <= k < i ==> is_digit(#[trigger] cs@[k]),
        decreases n - i,
    {
        i = i + 1;
    }
    proof {
        lemma_digit_run_end_is(cs@, from as int, i as int);
    }
    i
}

/// Finds the first occurrence of `c` at or after `from`, or the length when
/// there is none.
pub fn scan_for(cs: &Vec<char>, c: char, from: usize) -> (at: usize)
    requires
        from <= cs@.len(),
    ensures
        at == find_from(cs@, c, from as int),
        from <= at <= cs@.len(),
{
    let n: usize = cs.len();
    let mut i: usize = from;
    while i < n && cs[i] != c
        invariant
            from <= i <= n == cs@.len(),
            forall|k: int| from <= k < i ==> #[trigger] cs@[k] != c,
        decreases n - i,
    {
        i = i + 1;
    }
    proof {
        lemma_find_from_is(cs@, c, from as int, i as int);
    }
    i
}

/// Reading one more digit can only grow the value of a digit run.
pub proof fn lemma_digits_val_monotone(s: Seq<char>, from: int, k1: int, k2: int)
    requires
        0 <= from <= k1 <= k2 <= s.len(),
    ensures
        digits_val(s.subrange(from, k1)) <= digits_val(s.subrange(from, k2)),
    decreases k2 - k1,
{
    if k1 < k2 {
        lemma_digits_val_monotone(s, from, k1 + 1, k2);
        assert(s.subrange(from, k1 + 1).drop_last() =~= s.subrange(from, k1));
        assert(digits_val(s.subrange(from, k1 + 1)) == digits_val(s.subrange(from, k1)) * 10
            + digit_val(s.subrange(from, k1 + 1).last()));
    }
}

/// Reads the digit run `cs[start..end]` as an unsigned 32-bit value, or
/// reports that its value does not fit.
pub fn parse_u32_digits(cs: &Vec<char>, start: usize, end: usize) -> (r: Option<u32>)
    requires
        start <= end <= cs@.len(),
        forall|k: int| start <= k < end ==> is_digit(#[trigger] cs@[k]),
    ensures
        match r {
            Some(v) => v == digits_val(cs@.subrange(start as int, end as int)),
            None => digits_val(cs@.subrange(start as int, end as int)) > u32::MAX,
        },
{
    let mut val: u32 = 0;
    let mut i: usize = start;
    while i < end
        invariant
            start <= i <= end <= cs@.len(),
            forall|k: int| start <= k < end ==> is_digit(#[trigger] cs@[k]),
            val == digits_val(cs@.subrange(start as int, i as int)),
        decreases end - i,
    {
        let c = cs[i];
        let d: u32 = (c as u32) - 48;
        proof {
            assert(cs@.subrange(start as int, i + 1).drop_last() =~= cs@.subrange(
                start as int,
                i as int,
            ));
            assert(cs@.subrange(start as int, i + 1).last() == cs@[i as int]);
            assert(d == digit_val(cs@[i as int]));
        }
        let stepped: Option<u32> = match val.checked_mul(10) {
            Some(v10) => v10.checked_add(d),
            None => None,
        };
        match stepped {
            Some(v) => {
                val = v;
            },
            None => {
                proof {
                    lemma_digits_val_monotone(cs@, start as int, i + 1, end as int);
                }
                return None;
            },
        }
        i = i + 1;
    }
    Some(val)
}

/// The character that writes one decimal digit.
pub open spec fn digit_char(d: nat) -> char
    recommends
        d < 10,
{
    if d == 0 {
        '0'
    } else if d == 1 {
        '1'
    } else if d == 2 {
        '2'
    } else if d == 3 {
        '3'
    } else if d == 4 {
        '4'
    } else if d == 5 {
        '5'
    } else if d == 6 {
        '6'
    } else if d == 7 {
        '7'
    } else if d == 8 {
        '8'
    } else {
        '9'
    }
}

/// The canonical decimal writing of `n`: no sign, no leading zero (except for
/// the single digit `0` itself).
pub open spec fn dec_chars(n: nat) -> Seq<char>
    decreases n,
{
    if n < 10 {
        seq![digit_char(n)]
    } else {
        dec_chars(n / 10).push(digit_char(n % 10))
    }
}

/// The decimal writing of a signed value: a leading `'-'` for negatives.
pub open spec fn int_chars(n: int) -> Seq<char> {
    if n < 0 {
        seq!['-'] + dec_chars((-n) as nat)
    } else {
        dec_chars(n as nat)
    }
}

/// The decimal writing of `n` consists of digits, is nonempty, and starts
/// with `'0'` only when `n` is zero.
pub proof fn lemma_dec_chars_digits(n: nat)
    ensures
        dec_chars(n).len() >= 1,
        all_digits(dec_chars(n)),
        n >= 1 ==> dec_chars(n)[0] != '0',
        n == 0 ==> dec_chars(n) =~= seq!['0'],
    decreases n,
{
    if n >= 10 {
        lemma_dec_chars_digits(n / 10);
    }
}

/// Writing a digit and reading it back gives the digit.
pub proof fn lemma_digit_char_val(d: nat)
    requires
        d < 10,
    ensures
        digit_val(digit_char(d)) == d,
{
}

/// Reading the decimal writing of `n` back as a digit string gives `n`.
pub proof fn lemma_dec_chars_val(n: nat)
    ensures
        digits_val(dec_chars(n)) == n,
    decreases n,
{
    if n < 10 {
        lemma_digit_char_val(n);
        assert(dec_chars(n).drop_last() =~= Seq::<char>::empty());
        assert(dec_chars(n).last() == digit_char(n));
        assert(digits_val(dec_chars(n)) == digits_val(Seq::<char>::empty()) * 10 + digit_val(
            digit_char(n),
        ));
    } else {
        lemma_dec_chars_val(n / 10);
        lemma_digit_char_val(n % 10);
        assert(dec_chars(n).drop_last() =~= dec_chars(n / 10));
        assert(dec_chars(n).last() == digit_char(n % 10));
        assert(digits_val(dec_chars(n)) == digits_val(dec_chars(n / 10)) * 10 + digit_val(
            digit_char(n % 10),
        ));
    }
}

/// A digit run that is followed by a non-digit (or by the end of the string)
/// is exactly where `digit_run_end` stops.
pub proof fn lemma_digit_run_end_is(s: Seq<char>, from: int, stop: int)
    requires
        0 <= from <= stop <= s.len(),
        forall|k: int| from <= k < stop ==> is_digit(#[trigger] s[k]),
        stop < s.len() ==> !is_digit(s[stop]),
    ensures
        digit_run_end(s, from) == stop,
    decreases stop - from,
{
    if from < stop {
        lemma_digit_run_end_is(s, from + 1, stop);
    }
}

/// The first occurrence of `c` at or after `from` is exactly where
/// `find_from` stops.
pub proof fn lemma_find_from_is(s: Seq<char>, c: char, from: int, stop: int)
    requires
        0 <= from <= stop <= s.len(),
        forall|k: int| from <= k < stop ==> #[trigger] s[k] != c,
        stop < s.len() ==> s[stop] == c,
    ensures
        find_from(s, c, from) == stop,
    decreases stop - from,
{
    if from < stop {
        lemma_find_from_is(s, c, from + 1, stop);
    }
}

fn digit_to_char(d: u64) -> (c: char)
    requires
        d < 10,
    ensures
        c == digit_char(d as nat),
{
    if d == 0 {
        '0'
    } else if d == 1 {
        '1'
    } else if d == 2 {
        '2'
    } else if d == 3 {
        '3'
    } else if d == 4 {
        '4'
    } else if d == 5 {
        '5'
    } else if d == 6 {
        '6'
    } else if d == 7 {
        '7'
    } else if d == 8 {
        '8'
    } else {
        '9'
    }
}

/// Writes `n` in decimal.
pub fn u64_to_chars(n: u64) -> (v: Vec<char>)
    ensures
        v@ == dec_chars(n as nat),
{
    let mut m: u64 = n;
    let mut tmp: Vec<char> = Vec::new();
    while m >= 10
        invariant
            dec_chars(n as nat) =~= dec_chars(m as nat) + tmp@.reverse(),
        decreases m,
    {
        let c = digit_to_char(m % 10);
        proof {
            assert((dec_chars((m / 10) as nat).push(c)) + tmp@.reverse() =~= dec_chars(
                (m / 10) as nat,
            ) + tmp@.push(c).reverse());
        }
        tmp.push(c);
        m = m / 10;
    }
    let c = digit_to_char(m);
    proof {
        assert(seq![c] + tmp@.reverse() =~= tmp@.push(c).reverse());
    }
    tmp.push(c);
    let ghost goal = dec_chars(n as nat);
    let mut v: Vec<char> = Vec::new();
    let len: usize = tmp.len();
    let mut i: usize = 0;
    while i < len
        invariant
            len == tmp@.len(),
            i <= len,
            goal == tmp@.reverse(),
            v@ =~= goal.take(i as int),
        decreases len - i,
    {
        let c = tmp[len - 1 - i];
        v.push(c);
        proof {
            assert(v@ =~= goal.take(i + 1));
        }
        i = i + 1;
    }
    proof {
        assert(goal.take(len as int) =~= goal);
    }
    v
}

/// Writes `n` in decimal, with a leading `'-'` when it is negative.
pub fn i64_to_chars(n: i64) -> (v: Vec<char>)
    requires
        n > i64::MIN,
    ensures
        v@ == int_chars(n as int),
{
    if n < 0 {
        let mut v: Vec<char> = Vec::new();
        v.push('-');
        let mut digits = u64_to_chars((-n) as u64);
        let dn: usize = digits.len();
        let mut i: usize = 0;
        while i < dn
            invariant
                dn == digits@.len(),
                i <= dn,
                v@ =~= seq!['-'] + digits@.take(i as int),
            decreases dn - i,
        {
            let c = digits[i];
            v.push(c);
            proof {
                assert(v@ =~= seq!['-'] + digits@.take(i + 1));
            }
            i = i + 1;
        }
        proof {
            assert(digits@.take(dn as int) =~= digits@);
        }
        v
    } else {
        u64_to_chars(n as u64)
    }
}

/// The whitespace characters stripped or trimmed around an expression
/// before parsing: Unicode's White_Space set.
pub open spec fn is_space(c: char) -> bool {
    ||| ('\u{9}' <= c && c <= '\u{d}')
    ||| c == ' '
    ||| c == '\u{85}'
    ||| c == '\u{a0}'
    ||| c == '\u{1680}'
    ||| ('\u{2000}' <= c && c <= '\u{200a}')
    ||| c == '\u{2028}'
    ||| c == '\u{2029}'
    ||| c == '\u{202f}'
    ||| c == '\u{205f}'
    ||| c == '\u{3000}'
}

/// The index of the first character at or after `from` that is not blank, or
/// `s.len()` when blanks run to the end.
pub open spec fn skip_spaces(s: Seq<char>, from: int) -> int
    recommends
        0 <= from <= s.len(),
    decreases s.len() - from when 0 <= from <= s.len()
{
    if from >= s.len() || !is_space(s[from]) {
        from
    } else {
        skip_spaces(s, from + 1)
    }
}

/// The index just past the last character before `upto` that is not blank, or
/// 0 when blanks run to the front.
pub open spec fn rskip_spaces(s: Seq<char>, upto: int) -> int
    recommends
        0 <= upto <= s.len(),
    decreases upto when 0 <= upto <= s.len()
{
    if upto <= 0 || !is_space(s[upto - 1]) {
        upto
    } else {
        rskip_spaces(s, upto - 1)
    }
}

/// `s` with leading and trailing blanks removed.
pub open spec fn trim_spec(s: Seq<char>) -> Seq<char> {
    let a = skip_spaces(s, 0);
    if a == s.len() {
        Seq::empty()
    } else {
        s.subrange(a, rskip_spaces(s, s.len() as int))
    }
}

fn is_space_char(c: char) -> (r: bool)
    ensures
        r == is_space(c),
{
    ('\u{9}' <= c && c <= '\u{d}') || c == ' ' || c == '\u{85}' || c == '\u{a0}' || c
        == '\u{1680}' || ('\u{2000}' <= c && c <= '\u{200a}') || c == '\u{2028}' || c
        == '\u{2029}' || c == '\u{202f}' || c == '\u{205f}' || c == '\u{3000}'
}

/// Copies `cs` with its leading and trailing blanks removed.
pub fn trim_chars(cs: &Vec<char>) -> (v: Vec<char>)
    ensures
        v@ == trim_spec(cs@),
{
    let n: usize = cs.len();
    let mut a: usize = 0;
    while a < n && is_space_char(cs[a])
        invariant
            n == cs@.len(),
            a <= n,
            forall|k: int| 0 <= k < a ==> is_space(#[trigger] cs@[k]),
        decreases n - a,
    {
        a = a + 1;
    }
    proof {
        lemma_skip_spaces_is(cs@, 0, a as int);
    }
    if a == n {
        let v: Vec<char> = Vec::new();
        proof {
            assert(v@ =~= trim_spec(cs@));
        }
        return v;
    }
    let mut b: usize = n;
    while b > a && is_space_char(cs[b - 1])
        invariant
            n == cs@.len(),
            a < n,
            a <= b <= n,
            !is_space(cs@[a as int]),
            forall|k: int| b <= k < n ==> is_space(#[trigger] cs@[k]),
        decreases b,
    {
        b = b - 1;
    }
    proof {
        lemma_rskip_spaces_is(cs@, b as int, n as int);
    }
    let mut v: Vec<char> = Vec::new();
    let mut i: usize = a;
    while i < b
        invariant
            n == cs@.len(),
            a <= i <= b <= n,
            v@ =~= cs@.subrange(a as int, i as int),
        decreases b - i,
    {
        let c = cs[i];
        v.push(c);
        proof {
            assert(v@ =~= cs@.subrange(a as int, i + 1));
        }
        i = i + 1;
    }
    v
}

proof fn lemma_skip_spaces_is(s: Seq<char>, from: int, stop: int)
    requires
        0 <= from <= stop <= s.len(),
        forall|k: int| from <= k < stop ==> is_space(#[trigger] s[k]),
        stop < s.len() ==> !is_space(s[stop]),
    ensures
        skip_spaces(s, from) == stop,
    decreases stop - from,
{
    if from < stop {
        lemma_skip_spaces_is(s, from + 1, stop);
    }
}

proof fn lemma_rskip_spaces_is(s: Seq<char>, stop: int, upto: int)
    requires
        0 <= stop <= upto <= s.len(),
        forall|k: int| stop <= k < upto ==> is_space(#[trigger] s[k]),
        stop > 0 ==> !is_space(s[stop - 1]),
    ensures
        rskip_spaces(s, upto) == stop,
    decreases upto - stop,
{
    if stop < upto {
        lemma_rskip_spaces_is(s, stop, upto - 1);
    }
}

/// The predicate kept by [`strip_spaces`]: everything but whitespace.
pub open spec fn not_blank(c: char) -> bool {
    !is_space(c)
}

/// `s` with every whitespace character removed.
pub open spec fn despaced(s: Seq<char>) -> Seq<char> {
    s.filter(|c: char| not_blank(c))
}

/// Removing whitespace from a string without any changes nothing.
pub proof fn lemma_despaced_keeps_all(s: Seq<char>)
    requires
        forall|i: int| 0 <= i < s.len() ==> not_blank(#[trigger] s[i]),
    ensures
        despaced(s) == s,
    decreases s.len(),
{
    reveal_with_fuel(Seq::filter, 2);
    if s.len() > 0 {
        assert(forall|i: int|
            0 <= i < s.drop_last().len() ==> not_blank(#[trigger] s.drop_last()[i]));
        lemma_despaced_keeps_all(s.drop_last());
        assert(s.drop_last().push(s.last()) =~= s);
    }
}

/// Copies `cs` with every whitespace character removed.
pub fn strip_spaces(cs: &Vec<char>) -> (v: Vec<char>)
    ensures
        v@ == despaced(cs@),
{
    let n: usize = cs.len();
    let mut v: Vec<char> = Vec::new();
    let mut i: usize = 0;
    while i < n
        invariant
            n == cs@.len(),
            i <= n,
            v@ == despaced(cs@.take(i as int)),
        decreases n - i,
    {
        let c = cs[i];
        proof {
            reveal_with_fuel(Seq::filter, 2);
            assert(cs@.take(i + 1).drop_last() =~= cs@.take(i as int));
            assert(cs@.take(i + 1).last() == cs@[i as int]);
            assert(despaced(cs@.take(i + 1)) == if not_blank(cs@[i as int]) {
                despaced(cs@.take(i as int)).push(cs@[i as int])
            } else {
                despaced(cs@.take(i as int))
            });
        }
        if !is_space_char(c) {
            v.push(c);
        }
        i = i + 1;
    }
    proof {
        assert(cs@.take(n as int) =~= cs@);
    }
    v
}

/// Copies the characters of a string slice into a vector.
pub fn str_to_chars(s: &str) -> (v: Vec<char>)
    ensures
        v@ == s@,
{
    let n: usize = s.unicode_len();
    let mut v: Vec<char> = Vec::new();
    let mut i: usize = 0;
    while i < n
        invariant
            n == s@.len(),
            i <= n,
            v@ == s@.take(i as int),
        decreases n - i,
    {
        let c = s.get_char(i);
        v.push(c);
        proof {
            assert(v@ =~= s@.take(i + 1));
        }
        i = i + 1;
    }
    proof {
        assert(s@.take(n as int) =~= s@);
    }
    v
}

/// Appends every character of `w` to `v`, in order.
pub fn push_chars(v: &mut Vec<char>, w: &Vec<char>) -> (r: ())
    ensures
        final(v)@ == old(v)@ + w@,
{
    let n: usize = w.len();
    let mut i: usize = 0;
    while i < n
        invariant
            n == w@.len(),
            i <= n,
            v@ =~= old(v)@ + w@.take(i as int),
        decreases n - i,
    {
        let c = w[i];
        v.push(c);
        proof {
            assert(v@ =~= old(v)@ + w@.take(i + 1));
        }
        i = i + 1;
    }
    proof {
        assert(w@.take(n as int) =~= w@);
    }
}

/// Relies on `String`'s `FromIterator<char>` implementation: collecting the
/// characters of a vector yields the string with exactly those characters.
#[verifier::external_body]
pub(crate) fn chars_to_string(v: &Vec<char>) -> (s: String)
    ensures
        s@ == v@,
{
    v.iter().collect()
}

} // verus!
