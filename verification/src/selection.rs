//! Ordering and selection of rolled dice: a stable sort by shown value (the
//! tie-break policy: dice showing equal values stay in roll order), positional
//! keep-marking, and the sums the totals are built from.

use crate::die::DieRollResult;
use vstd::prelude::*;

verus! {

/// In a stable sort in direction `desc`, an element `a` already placed stays
/// in front of a newly inserted `b`.
pub open spec fn stays_before(a: DieRollResult, b: DieRollResult, desc: bool) -> bool {
    if desc {
        a.result >= b.result
    } else {
        a.result <= b.result
    }
}

/// `s` is ordered by shown value, descending when `desc`, ascending otherwise.
pub open spec fn sorted_dir(s: Seq<DieRollResult>, desc: bool) -> bool {
    forall|i: int, j: int|
        0 <= i < j < s.len() ==> stays_before(#[trigger] s[i], #[trigger] s[j], desc)
}

/// Inserts `x` behind every element that stays before it — behind equal
/// values in particular, which is what makes the sort stable.
pub open spec fn insert_sorted(x: DieRollResult, s: Seq<DieRollResult>, desc: bool) -> Seq<
    DieRollResult,
>
    decreases s.len(),
{
    if s.len() == 0 {
        seq![x]
    } else if stays_before(s[0], x, desc) {
        seq![s[0]] + insert_sorted(x, s.drop_first(), desc)
    } else {
        seq![x] + s
    }
}

/// The stable sort of `s` by shown value: elements are inserted left to
/// right, so dice with equal values keep their roll order.
pub open spec fn stable_sorted(s: Seq<DieRollResult>, desc: bool) -> Seq<DieRollResult>
    decreases s.len(),
{
    if s.len() == 0 {
        s
    } else {
        insert_sorted(s.last(), stable_sorted(s.drop_last(), desc), desc)
    }
}

/// The subsequence of outcomes showing exactly the value `v`, in order.
pub open spec fn with_value(s: Seq<DieRollResult>, v: u32) -> Seq<DieRollResult>
    decreases s.len(),
{
    if s.len() == 0 {
        s
    } else if s[0].result == v {
        seq![s[0]] + with_value(s.drop_first(), v)
    } else {
        with_value(s.drop_first(), v)
    }
}

/// `s` with the first `n` outcomes marked kept and the rest discarded.
pub open spec fn mark_keep(s: Seq<DieRollResult>, n: int) -> Seq<DieRollResult> {
    Seq::new(s.len(), |i: int| DieRollResult { die: s[i].die, result: s[i].result, keep: i < n })
}

/// How many outcomes of `s` are marked kept.
pub open spec fn kept_count(s: Seq<DieRollResult>) -> nat
    decreases s.len(),
{
    if s.len() == 0 {
        0
    } else {
        (if s[0].keep {
            1nat
        } else {
            0nat
        }) + kept_count(s.drop_first())
    }
}

/// The sum of every shown value of `s`, kept or not.
pub open spec fn sum_all(s: Seq<DieRollResult>) -> int
    decreases s.len(),
{
    if s.len() == 0 {
        0
    } else {
        s[0].result + sum_all(s.drop_first())
    }
}

/// The sum of the kept values of `s`.
pub open spec fn sum_kept(s: Seq<DieRollResult>) -> int
    decreases s.len(),
{
    if s.len() == 0 {
        0
    } else {
        (if s[0].keep {
            s[0].result as int
        } else {
            0
        }) + sum_kept(s.drop_first())
    }
}

pub proof fn lemma_sums_bounds(s: Seq<DieRollResult>)
    ensures
        0 <= sum_kept(s) <= sum_all(s),
    decreases s.len(),
{
    if s.len() > 0 {
        lemma_sums_bounds(s.drop_first());
    }
}

/// Appending one outcome adds its value to the sums.
pub proof fn lemma_sums_push(s: Seq<DieRollResult>, x: DieRollResult)
    ensures
        sum_all(s.push(x)) == sum_all(s) + x.result,
        sum_kept(s.push(x)) == sum_kept(s) + if x.keep {
            x.result as int
        } else {
            0
        },
        kept_count(s.push(x)) == kept_count(s) + if x.keep {
            1nat
        } else {
            0nat
        },
    decreases s.len(),
{
    if s.len() == 0 {
        assert(s.push(x)[0] == x);
        assert(s.push(x).drop_first() =~= Seq::<DieRollResult>::empty());
        assert(sum_all(s.push(x).drop_first()) == 0);
        assert(sum_kept(s.push(x).drop_first()) == 0);
        assert(kept_count(s.push(x).drop_first()) == 0);
    } else {
        assert(s.push(x)[0] == s[0]);
        assert(s.push(x).drop_first() =~= s.drop_first().push(x));
        lemma_sums_push(s.drop_first(), x);
    }
}

/// When every shown value is at most `m`, the values sum to at most
/// `len * m`.
pub proof fn lemma_sum_all_bounded(s: Seq<DieRollResult>, m: int)
    requires
        forall|i: int| 0 <= i < s.len() ==> (#[trigger] s[i]).result <= m,
    ensures
        sum_all(s) <= s.len() * m,
    decreases s.len(),
{
    if s.len() == 0 {
    } else {
        assert(forall|i: int|
            0 <= i < s.drop_first().len() ==> (#[trigger] s.drop_first()[i]).result <= m);
        lemma_sum_all_bounded(s.drop_first(), m);
        assert((s.len() - 1) * m + m == s.len() * m) by (nonlinear_arith);
    }
}

/// The values of a prefix sum to no more than the values of the whole.
pub proof fn lemma_sum_all_take_le(s: Seq<DieRollResult>, i: int)
    requires
        0 <= i <= s.len(),
    ensures
        sum_all(s.take(i)) <= sum_all(s),
    decreases s.len() - i,
{
    if i == s.len() {
        assert(s.take(i) =~= s);
    } else {
        lemma_sum_all_take_le(s, i + 1);
        assert(s.take(i + 1).drop_last() =~= s.take(i));
        assert(s.take(i + 1) =~= s.take(i).push(s[i]));
        lemma_sums_push(s.take(i), s[i]);
    }
}

/// Where `insert_sorted` puts the new element: at the first index whose
/// element does not stay before it.
pub proof fn lemma_insert_sorted_at(x: DieRollResult, s: Seq<DieRollResult>, desc: bool, p: int)
    requires
        0 <= p <= s.len(),
        forall|k: int| 0 <= k < p ==> stays_before(#[trigger] s[k], x, desc),
        p < s.len() ==> !stays_before(s[p], x, desc),
    ensures
        insert_sorted(x, s, desc) =~= s.subrange(0, p) + seq![x] + s.subrange(p, s.len() as int),
    decreases s.len(),
{
    if s.len() == 0 {
    } else if p == 0 {
    } else {
        lemma_insert_sorted_at(x, s.drop_first(), desc, p - 1);
    }
}

pub proof fn lemma_insert_sorted_len(x: DieRollResult, s: Seq<DieRollResult>, desc: bool)
    ensures
        insert_sorted(x, s, desc).len() == s.len() + 1,
    decreases s.len(),
{
    if s.len() > 0 && stays_before(s[0], x, desc) {
        lemma_insert_sorted_len(x, s.drop_first(), desc);
    }
}

/// Every element of an insertion is the inserted one or one of the old ones,
/// and the sums grow by exactly the inserted value.
pub proof fn lemma_insert_sorted_elems(x: DieRollResult, s: Seq<DieRollResult>, desc: bool)
    ensures
        forall|i: int|
            0 <= i < insert_sorted(x, s, desc).len() ==> (#[trigger] insert_sorted(x, s, desc)[i]
                == x || s.contains(insert_sorted(x, s, desc)[i])),
        sum_all(insert_sorted(x, s, desc)) == sum_all(s) + x.result,
    decreases s.len(),
{
    lemma_insert_sorted_len(x, s, desc);
    if s.len() == 0 {
        assert(insert_sorted(x, s, desc)[0] == x);
        assert(insert_sorted(x, s, desc).drop_first() =~= Seq::<DieRollResult>::empty());
        assert(sum_all(insert_sorted(x, s, desc).drop_first()) == 0);
    } else if stays_before(s[0], x, desc) {
        lemma_insert_sorted_elems(x, s.drop_first(), desc);
        let out = insert_sorted(x, s, desc);
        assert(out[0] == s[0]);
        assert(out.drop_first() =~= insert_sorted(x, s.drop_first(), desc));
        assert(sum_all(out) == s[0].result + sum_all(insert_sorted(x, s.drop_first(), desc)));
        assert forall|i: int| 0 <= i < out.len() implies (#[trigger] out[i] == x || s.contains(
            out[i],
        )) by {
            if i > 0 {
                let inner = insert_sorted(x, s.drop_first(), desc);
                assert(out[i] == inner[i - 1]);
                if inner[i - 1] != x {
                    let j = choose|j: int|
                        0 <= j < s.drop_first().len() && s.drop_first()[j] == inner[i - 1];
                    assert(s[j + 1] == inner[i - 1]);
                }
            }
        }
    } else {
        let out = insert_sorted(x, s, desc);
        assert(out[0] == x);
        assert(out.drop_first() =~= s);
        assert(sum_all(out) == x.result + sum_all(s));
        assert forall|i: int| 0 <= i < out.len() implies (#[trigger] out[i] == x || s.contains(
            out[i],
        )) by {
            if i > 0 {
                assert(s[i - 1] == out[i]);
            }
        }
    }
}

/// Inserting into an ordered sequence keeps it ordered.
pub proof fn lemma_insert_sorted_sorted(x: DieRollResult, s: Seq<DieRollResult>, desc: bool)
    requires
        sorted_dir(s, desc),
    ensures
        sorted_dir(insert_sorted(x, s, desc), desc),
    decreases s.len(),
{
    lemma_insert_sorted_len(x, s, desc);
    if s.len() == 0 {
    } else if stays_before(s[0], x, desc) {
        assert(sorted_dir(s.drop_first(), desc)) by {
            assert(forall|i: int, j: int|
                0 <= i < j < s.drop_first().len() ==> stays_before(
                    #[trigger] s.drop_first()[i],
                    #[trigger] s.drop_first()[j],
                    desc,
                ));
        }
        lemma_insert_sorted_sorted(x, s.drop_first(), desc);
        let out = insert_sorted(x, s, desc);
        let inner = insert_sorted(x, s.drop_first(), desc);
        lemma_insert_sorted_elems(x, s.drop_first(), desc);
        assert forall|i: int, j: int| 0 <= i < j < out.len() implies stays_before(
            #[trigger] out[i],
            #[trigger] out[j],
            desc,
        ) by {
            if i == 0 {
                assert(out[j] == inner[j - 1]);
                if inner[j - 1] == x {
                } else {
                    assert(s.drop_first().contains(inner[j - 1]));
                    let k = choose|k: int|
                        0 <= k < s.drop_first().len() && s.drop_first()[k] == inner[j - 1];
                    assert(stays_before(s[0], s[k + 1], desc));
                }
            } else {
                assert(out[i] == inner[i - 1] && out[j] == inner[j - 1]);
            }
        }
    } else {
        let out = insert_sorted(x, s, desc);
        assert forall|i: int, j: int| 0 <= i < j < out.len() implies stays_before(
            #[trigger] out[i],
            #[trigger] out[j],
            desc,
        ) by {
            if i == 0 {
                assert(out[j] == s[j - 1]);
                if j == 1 {
                } else {
                    assert(stays_before(s[0], s[j - 1], desc));
                    assert(!stays_before(s[0], x, desc));
                }
            } else {
                assert(out[i] == s[i - 1] && out[j] == s[j - 1]);
            }
        }
    }
}

proof fn lemma_with_value_push(s: Seq<DieRollResult>, x: DieRollResult, v: u32)
    ensures
        with_value(s.push(x), v) == if x.result == v {
            with_value(s, v).push(x)
        } else {
            with_value(s, v)
        },
    decreases s.len(),
{
    if s.len() == 0 {
        assert(s.push(x)[0] == x);
        assert(s.push(x).drop_first() =~= Seq::<DieRollResult>::empty());
        assert(with_value(Seq::<DieRollResult>::empty(), v) =~= Seq::<DieRollResult>::empty());
        assert(with_value(s, v) =~= Seq::<DieRollResult>::empty());
        if x.result == v {
            assert(with_value(s.push(x), v) =~= seq![x] + Seq::<DieRollResult>::empty());
            assert(with_value(s, v).push(x) =~= seq![x] + Seq::<DieRollResult>::empty());
        } else {
            assert(with_value(s.push(x), v) =~= Seq::<DieRollResult>::empty());
        }
    } else {
        assert(s.push(x)[0] == s[0]);
        assert(s.push(x).drop_first() =~= s.drop_first().push(x));
        lemma_with_value_push(s.drop_first(), x, v);
        if s[0].result == v && x.result == v {
            assert(seq![s[0]] + with_value(s.drop_first(), v).push(x) =~= (seq![s[0]] + with_value(
                s.drop_first(),
                v,
            )).push(x));
        }
    }
}

proof fn lemma_with_value_absent(s: Seq<DieRollResult>, v: u32)
    requires
        forall|j: int| 0 <= j < s.len() ==> (#[trigger] s[j]).result != v,
    ensures
        with_value(s, v) == Seq::<DieRollResult>::empty(),
    decreases s.len(),
{
    if s.len() > 0 {
        lemma_with_value_absent(s.drop_first(), v);
    }
}

proof fn lemma_insert_sorted_with_value(x: DieRollResult, s: Seq<DieRollResult>, desc: bool, v: u32)
    requires
        sorted_dir(s, desc),
    ensures
        with_value(insert_sorted(x, s, desc), v) == if x.result == v {
            with_value(s, v).push(x)
        } else {
            with_value(s, v)
        },
    decreases s.len(),
{
    if s.len() == 0 {
        assert(insert_sorted(x, s, desc)[0] == x);
        assert(insert_sorted(x, s, desc).drop_first() =~= Seq::<DieRollResult>::empty());
        assert(with_value(Seq::<DieRollResult>::empty(), v) =~= Seq::<DieRollResult>::empty());
        assert(with_value(s, v) =~= Seq::<DieRollResult>::empty());
        if x.result == v {
            assert(with_value(insert_sorted(x, s, desc), v) =~= seq![x] + Seq::<
                DieRollResult,
            >::empty());
            assert(with_value(s, v).push(x) =~= seq![x] + Seq::<DieRollResult>::empty());
        } else {
            assert(with_value(insert_sorted(x, s, desc), v) =~= Seq::<DieRollResult>::empty());
        }
    } else if stays_before(s[0], x, desc) {
        assert(sorted_dir(s.drop_first(), desc)) by {
            assert(forall|i: int, j: int|
                0 <= i < j < s.drop_first().len() ==> stays_before(
                    #[trigger] s.drop_first()[i],
                    #[trigger] s.drop_first()[j],
                    desc,
                ));
        }
        lemma_insert_sorted_with_value(x, s.drop_first(), desc, v);
        let out = insert_sorted(x, s, desc);
        let inner = insert_sorted(x, s.drop_first(), desc);
        assert(out[0] == s[0]);
        assert(out.drop_first() =~= inner);
        if s[0].result == v && x.result == v {
            assert(seq![s[0]] + with_value(s.drop_first(), v).push(x) =~= (seq![s[0]] + with_value(
                s.drop_first(),
                v,
            )).push(x));
        }
    } else {
        let out = insert_sorted(x, s, desc);
        assert(out[0] == x);
        assert(out.drop_first() =~= s);
        if x.result == v {
            assert forall|j: int| 0 <= j < s.len() implies (#[trigger] s[j]).result != v by {
                if j > 0 {
                    assert(stays_before(s[0], s[j], desc));
                }
            }
            lemma_with_value_absent(s, v);
            assert(with_value(out, v) =~= with_value(s, v).push(x));
        }
    }
}

/// The tie-break law of the stable sort: the outcomes showing any one value
/// come out in exactly the order they were rolled in.
pub proof fn lemma_stable_sorted_tiebreak(s: Seq<DieRollResult>, desc: bool, v: u32)
    ensures
        with_value(stable_sorted(s, desc), v) == with_value(s, v),
    decreases s.len(),
{
    if s.len() > 0 {
        let t = s.drop_last();
        lemma_stable_sorted_tiebreak(t, desc, v);
        lemma_stable_sorted_props(t, desc);
        lemma_insert_sorted_with_value(s.last(), stable_sorted(t, desc), desc, v);
        assert(t.push(s.last()) =~= s);
        lemma_with_value_push(t, s.last(), v);
    }
}

/// Die `j` beats die `i` for the keep order: it shows a strictly better
/// value (higher when `desc`, lower otherwise), or the same value from an
/// earlier roll.
pub open spec fn beats(s: Seq<DieRollResult>, j: int, i: int, desc: bool) -> bool {
    ||| (if desc {
        s[j].result > s[i].result
    } else {
        s[j].result < s[i].result
    })
    ||| (s[j].result == s[i].result && j < i)
}

/// How many of the first `upto` dice beat die `i`.
pub open spec fn beats_upto(s: Seq<DieRollResult>, i: int, desc: bool, upto: int) -> int
    decreases upto when upto >= 0
{
    if upto <= 0 {
        0
    } else {
        beats_upto(s, i, desc, upto - 1) + if beats(s, upto - 1, i, desc) {
            1int
        } else {
            0
        }
    }
}

/// The keep rank of die `i`: how many dice of the whole roll beat it. The
/// stable sort puts die `i` at exactly this position.
pub open spec fn keep_rank(s: Seq<DieRollResult>, i: int, desc: bool) -> int {
    beats_upto(s, i, desc, s.len() as int)
}

/// How many of the first `upto` dice stay in front of a newly inserted `x`.
pub open spec fn stays_upto(s: Seq<DieRollResult>, x: DieRollResult, desc: bool, upto: int) -> int
    decreases upto when upto >= 0
{
    if upto <= 0 {
        0
    } else {
        stays_upto(s, x, desc, upto - 1) + if stays_before(s[upto - 1], x, desc) {
            1int
        } else {
            0
        }
    }
}

/// How many dice of `s` stay in front of a newly inserted `x`.
pub open spec fn stays_count(s: Seq<DieRollResult>, x: DieRollResult, desc: bool) -> int
    decreases s.len(),
{
    if s.len() == 0 {
        0
    } else {
        (if stays_before(s[0], x, desc) {
            1int
        } else {
            0
        }) + stays_count(s.drop_first(), x, desc)
    }
}

/// Where `insert_sorted` puts the new element.
pub open spec fn insert_point(x: DieRollResult, s: Seq<DieRollResult>, desc: bool) -> int
    decreases s.len(),
{
    if s.len() == 0 {
        0
    } else if stays_before(s[0], x, desc) {
        1 + insert_point(x, s.drop_first(), desc)
    } else {
        0
    }
}

proof fn lemma_beats_upto_bounds(s: Seq<DieRollResult>, i: int, desc: bool, n: int)
    requires
        0 <= n,
    ensures
        0 <= beats_upto(s, i, desc, n) <= n,
        0 <= i < n ==> beats_upto(s, i, desc, n) <= n - 1,
    decreases n,
{
    if n > 0 {
        lemma_beats_upto_bounds(s, i, desc, n - 1);
    }
}

proof fn lemma_stays_upto_shift(s: Seq<DieRollResult>, x: DieRollResult, desc: bool, k: int)
    requires
        1 <= k <= s.len(),
    ensures
        stays_upto(s, x, desc, k) == (if stays_before(s[0], x, desc) {
            1int
        } else {
            0
        }) + stays_upto(s.drop_first(), x, desc, k - 1),
    decreases k,
{
    if k == 1 {
        assert(stays_upto(s, x, desc, 0) == 0);
        assert(stays_upto(s.drop_first(), x, desc, 0) == 0);
    } else {
        lemma_stays_upto_shift(s, x, desc, k - 1);
        assert(s.drop_first()[k - 2] == s[k - 1]);
        assert(stays_upto(s.drop_first(), x, desc, k - 1) == stays_upto(
            s.drop_first(),
            x,
            desc,
            k - 2,
        ) + if stays_before(s.drop_first()[k - 2], x, desc) {
            1int
        } else {
            0
        });
    }
}

proof fn lemma_stays_count_vs_upto(s: Seq<DieRollResult>, x: DieRollResult, desc: bool)
    ensures
        stays_count(s, x, desc) == stays_upto(s, x, desc, s.len() as int),
    decreases s.len(),
{
    if s.len() > 0 {
        lemma_stays_count_vs_upto(s.drop_first(), x, desc);
        lemma_stays_upto_shift(s, x, desc, s.len() as int);
    }
}

proof fn lemma_stays_count_zero(s: Seq<DieRollResult>, x: DieRollResult, desc: bool)
    requires
        forall|j: int| 0 <= j < s.len() ==> !stays_before(#[trigger] s[j], x, desc),
    ensures
        stays_count(s, x, desc) == 0,
    decreases s.len(),
{
    if s.len() > 0 {
        lemma_stays_count_zero(s.drop_first(), x, desc);
    }
}

/// In an ordered sequence, the insertion point is exactly the number of
/// elements that stay in front of the inserted one, and the insertion
/// splits the sequence there.
proof fn lemma_insert_point_props(x: DieRollResult, s: Seq<DieRollResult>, desc: bool)
    requires
        sorted_dir(s, desc),
    ensures
        ({
            let ip = insert_point(x, s, desc);
            &&& 0 <= ip <= s.len()
            &&& ip == stays_count(s, x, desc)
            &&& insert_sorted(x, s, desc) =~= s.subrange(0, ip) + seq![x] + s.subrange(
                ip,
                s.len() as int,
            )
        }),
    decreases s.len(),
{
    let ip = insert_point(x, s, desc);
    if s.len() == 0 {
    } else if stays_before(s[0], x, desc) {
        assert(sorted_dir(s.drop_first(), desc)) by {
            assert(forall|i: int, j: int|
                0 <= i < j < s.drop_first().len() ==> stays_before(
                    #[trigger] s.drop_first()[i],
                    #[trigger] s.drop_first()[j],
                    desc,
                ));
        }
        lemma_insert_point_props(x, s.drop_first(), desc);
        let inner_ip = insert_point(x, s.drop_first(), desc);
        assert(insert_sorted(x, s, desc) =~= s.subrange(0, ip) + seq![x] + s.subrange(
            ip,
            s.len() as int,
        )) by {
            assert(insert_sorted(x, s, desc) == seq![s[0]] + insert_sorted(
                x,
                s.drop_first(),
                desc,
            ));
            assert(insert_sorted(x, s.drop_first(), desc) =~= s.drop_first().subrange(0, inner_ip)
                + seq![x] + s.drop_first().subrange(inner_ip, s.len() - 1));
        }
    } else {
        // Nothing stays in front: the head does not, and order puts every
        // later element behind the head.
        assert forall|j: int| 0 <= j < s.len() implies !stays_before(
            #[trigger] s[j],
            x,
            desc,
        ) by {
            if j > 0 {
                assert(stays_before(s[0], s[j], desc));
            }
        }
        lemma_stays_count_zero(s, x, desc);
        assert(insert_sorted(x, s, desc) =~= s.subrange(0, 0) + seq![x] + s.subrange(
            0,
            s.len() as int,
        ));
    }
}

proof fn lemma_stays_count_insert(
    y: DieRollResult,
    s: Seq<DieRollResult>,
    x: DieRollResult,
    desc: bool,
)
    ensures
        stays_count(insert_sorted(y, s, desc), x, desc) == stays_count(s, x, desc) + if
        stays_before(y, x, desc) {
            1int
        } else {
            0
        },
    decreases s.len(),
{
    let out = insert_sorted(y, s, desc);
    if s.len() == 0 {
        assert(out[0] == y);
        assert(out.drop_first() =~= Seq::<DieRollResult>::empty());
        assert(stays_count(out.drop_first(), x, desc) == 0);
    } else if stays_before(s[0], y, desc) {
        lemma_stays_count_insert(y, s.drop_first(), x, desc);
        assert(out[0] == s[0]);
        assert(out.drop_first() =~= insert_sorted(y, s.drop_first(), desc));
    } else {
        assert(out[0] == y);
        assert(out.drop_first() =~= s);
    }
}

proof fn lemma_stays_count_push(
    s: Seq<DieRollResult>,
    y: DieRollResult,
    x: DieRollResult,
    desc: bool,
)
    ensures
        stays_count(s.push(y), x, desc) == stays_count(s, x, desc) + if stays_before(
            y,
            x,
            desc,
        ) {
            1int
        } else {
            0
        },
    decreases s.len(),
{
    if s.len() == 0 {
        assert(s.push(y)[0] == y);
        assert(s.push(y).drop_first() =~= Seq::<DieRollResult>::empty());
        assert(stays_count(s.push(y).drop_first(), x, desc) == 0);
    } else {
        assert(s.push(y)[0] == s[0]);
        assert(s.push(y).drop_first() =~= s.drop_first().push(y));
        lemma_stays_count_push(s.drop_first(), y, x, desc);
    }
}

proof fn lemma_stable_sorted_stays_count(s: Seq<DieRollResult>, x: DieRollResult, desc: bool)
    ensures
        stays_count(stable_sorted(s, desc), x, desc) == stays_count(s, x, desc),
    decreases s.len(),
{
    if s.len() > 0 {
        let t = s.drop_last();
        lemma_stable_sorted_stays_count(t, x, desc);
        lemma_stays_count_insert(s.last(), stable_sorted(t, desc), x, desc);
        lemma_stays_count_push(t, s.last(), x, desc);
        assert(t.push(s.last()) =~= s);
    }
}

/// When `x` strictly beats die `i`'s value, everything that stays in front
/// of `x` also beats die `i`.
proof fn lemma_counts_le(t: Seq<DieRollResult>, x: DieRollResult, i: int, desc: bool, n: int)
    requires
        0 <= i < t.len(),
        0 <= n <= t.len(),
        if desc {
            x.result > t[i].result
        } else {
            x.result < t[i].result
        },
    ensures
        stays_upto(t, x, desc, n) <= beats_upto(t, i, desc, n),
    decreases n,
{
    if n > 0 {
        lemma_counts_le(t, x, i, desc, n - 1);
    }
}

/// When die `i` itself stays in front of `x`, everything that beats die `i`
/// stays in front of `x` — and so does die `i`, which beats nobody's count
/// of itself: the beat count is strictly below the stay count.
proof fn lemma_counts_lt(t: Seq<DieRollResult>, x: DieRollResult, i: int, desc: bool, n: int)
    requires
        0 <= i < t.len(),
        0 <= n <= t.len(),
        stays_before(t[i], x, desc),
    ensures
        beats_upto(t, i, desc, n) + (if i < n {
            1int
        } else {
            0
        }) <= stays_upto(t, x, desc, n),
    decreases n,
{
    if n > 0 {
        lemma_counts_lt(t, x, i, desc, n - 1);
    }
}

/// Dropping the last die does not change who beats whom among the rest.
proof fn lemma_beats_upto_drop_last(s: Seq<DieRollResult>, i: int, desc: bool, n: int)
    requires
        0 <= i < s.len() - 1,
        0 <= n <= s.len() - 1,
    ensures
        beats_upto(s, i, desc, n) == beats_upto(s.drop_last(), i, desc, n),
    decreases n,
{
    if n > 0 {
        lemma_beats_upto_drop_last(s, i, desc, n - 1);
        assert(s.drop_last()[n - 1] == s[n - 1]);
        assert(s.drop_last()[i] == s[i]);
    }
}

/// The rank of the last-rolled die is the number of earlier dice that stay
/// in front of it: an earlier die beats it exactly when it would sort
/// before it.
proof fn lemma_rank_of_last(s: Seq<DieRollResult>, desc: bool, n: int)
    requires
        s.len() >= 1,
        0 <= n <= s.len() - 1,
    ensures
        beats_upto(s, s.len() - 1, desc, n) == stays_upto(s.drop_last(), s.last(), desc, n),
    decreases n,
{
    if n > 0 {
        lemma_rank_of_last(s, desc, n - 1);
        assert(s.drop_last()[n - 1] == s[n - 1]);
    }
}

/// The stable sort sends the die rolled at position `i` to exactly its keep
/// rank: the number of dice that beat it (a strictly better value, or the
/// same value rolled earlier).
pub proof fn lemma_stable_sorted_rank(s: Seq<DieRollResult>, desc: bool, i: int)
    requires
        0 <= i < s.len(),
    ensures
        0 <= keep_rank(s, i, desc) < s.len(),
        stable_sorted(s, desc)[keep_rank(s, i, desc)] == s[i],
    decreases s.len(),
{
    let n = s.len() as int;
    let t = s.drop_last();
    let x = s.last();
    let st = stable_sorted(t, desc);
    lemma_stable_sorted_props(t, desc);
    lemma_insert_point_props(x, st, desc);
    let ip = insert_point(x, st, desc);
    lemma_stable_sorted_stays_count(t, x, desc);
    lemma_stays_count_vs_upto(st, x, desc);
    lemma_stays_count_vs_upto(t, x, desc);
    assert(ip == stays_upto(t, x, desc, n - 1));
    let out = stable_sorted(s, desc);
    assert(out == insert_sorted(x, st, desc));
    assert(out =~= st.subrange(0, ip) + seq![x] + st.subrange(ip, n - 1));
    lemma_beats_upto_bounds(s, i, desc, n);
    if i == n - 1 {
        lemma_rank_of_last(s, desc, n - 1);
        assert(keep_rank(s, i, desc) == beats_upto(s, n - 1, desc, n - 1) + 0);
        assert(keep_rank(s, i, desc) == ip);
        assert(out[ip] == x);
    } else {
        lemma_stable_sorted_rank(t, desc, i);
        let rt = keep_rank(t, i, desc);
        lemma_beats_upto_drop_last(s, i, desc, n - 1);
        assert(keep_rank(s, i, desc) == rt + if beats(s, n - 1, i, desc) {
            1int
        } else {
            0
        });
        assert(t[i] == s[i]);
        if beats(s, n - 1, i, desc) {
            // The new die strictly beats die i (a tie from the later roll
            // does not count), so it is inserted at or before die i's old
            // position, which shifts right by one.
            assert(if desc {
                x.result > s[i].result
            } else {
                x.result < s[i].result
            });
            lemma_counts_le(t, x, i, desc, n - 1);
            assert(ip <= rt);
            assert(out[rt + 1] == st[rt]);
        } else {
            // Die i stays in front of the new die, which is inserted
            // strictly behind it: its position is unchanged.
            assert(stays_before(t[i], x, desc));
            lemma_counts_lt(t, x, i, desc, n - 1);
            assert(rt < ip);
            assert(out[rt] == st[rt]);
        }
    }
}

/// The positional form of the tie-break policy: under keep-highest or
/// keep-lowest, the die rolled at position `i` comes out at its keep rank —
/// the number of dice beating it, where a die beats another by a strictly
/// better value or by the same value from an earlier roll — and it is kept
/// exactly when that rank is below `n`: on a tie at the cutoff, the
/// earliest-rolled die wins.
pub proof fn lemma_selection_rank(
    s: Seq<DieRollResult>,
    op: crate::dice_roll_op::DiceRollOp,
    i: int,
)
    requires
        0 <= i < s.len(),
    ensures
        ({
            let desc = op.is_descending();
            let out = crate::dice_roll_result::apply_operation(s, Some(op));
            &&& 0 <= keep_rank(s, i, desc) < out.len()
            &&& out[keep_rank(s, i, desc)] == (DieRollResult {
                die: s[i].die,
                result: s[i].result,
                keep: keep_rank(s, i, desc) < op.keep_n(),
            })
        }),
{
    let desc = op.is_descending();
    lemma_stable_sorted_rank(s, desc, i);
    lemma_stable_sorted_props(s, desc);
    lemma_mark_keep_props(stable_sorted(s, desc), op.keep_n() as int);
}

/// The dice (by identity) of the outcomes showing exactly the value `v`, in
/// order; the keep marks play no part.
pub open spec fn dies_with_value(s: Seq<DieRollResult>, v: u32) -> Seq<crate::die::Die>
    decreases s.len(),
{
    if s.len() == 0 {
        Seq::empty()
    } else if s[0].result == v {
        seq![s[0].die] + dies_with_value(s.drop_first(), v)
    } else {
        dies_with_value(s.drop_first(), v)
    }
}

/// The dice of a sequence of outcomes, in order.
pub open spec fn dies_of(s: Seq<DieRollResult>) -> Seq<crate::die::Die>
    decreases s.len(),
{
    if s.len() == 0 {
        Seq::empty()
    } else {
        seq![s[0].die] + dies_of(s.drop_first())
    }
}

proof fn lemma_dies_of_cons(x: DieRollResult, t: Seq<DieRollResult>)
    ensures
        dies_of(seq![x] + t) == seq![x.die] + dies_of(t),
{
    assert((seq![x] + t)[0] == x);
    assert((seq![x] + t).drop_first() =~= t);
}

proof fn lemma_dies_with_value_strips(s: Seq<DieRollResult>, v: u32)
    ensures
        dies_with_value(s, v) == dies_of(with_value(s, v)),
    decreases s.len(),
{
    if s.len() == 0 {
        assert(dies_of(with_value(s, v)) == Seq::<crate::die::Die>::empty());
    } else {
        lemma_dies_with_value_strips(s.drop_first(), v);
        if s[0].result == v {
            lemma_dies_of_cons(s[0], with_value(s.drop_first(), v));
        }
    }
}

proof fn lemma_dies_with_value_mark(s: Seq<DieRollResult>, n: int, v: u32)
    ensures
        dies_with_value(mark_keep(s, n), v) == dies_with_value(s, v),
    decreases s.len(),
{
    if s.len() > 0 {
        lemma_dies_with_value_mark(s.drop_first(), n - 1, v);
        assert(mark_keep(s, n).drop_first() =~= mark_keep(s.drop_first(), n - 1));
        assert(mark_keep(s, n)[0].die == s[0].die && mark_keep(s, n)[0].result == s[0].result);
    }
}

/// The tie-break law at the selection level: whichever policy is applied,
/// the dice showing any one value come out in exactly the order they were
/// rolled in. The keep marks are positional after the sort, so among dice
/// showing the boundary value, the earliest-rolled ones win the keep.
pub proof fn lemma_selection_tiebreak(
    s: Seq<DieRollResult>,
    operation: Option<crate::dice_roll_op::DiceRollOp>,
    v: u32,
)
    ensures
        dies_with_value(crate::dice_roll_result::apply_operation(s, operation), v)
            == dies_with_value(s, v),
{
    match operation {
        None => {},
        Some(op) => {
            let sorted = stable_sorted(s, op.is_descending());
            lemma_dies_with_value_mark(sorted, op.keep_n() as int, v);
            lemma_dies_with_value_strips(sorted, v);
            lemma_stable_sorted_tiebreak(s, op.is_descending(), v);
            lemma_dies_with_value_strips(s, v);
        },
    }
}

/// Marking keeps the dice and their values, flips only the `keep` flags, and
/// keeps exactly `min(n, len)` outcomes (for `n >= 0`).
pub proof fn lemma_mark_keep_props(s: Seq<DieRollResult>, n: int)
    ensures
        mark_keep(s, n).len() == s.len(),
        sum_all(mark_keep(s, n)) == sum_all(s),
        kept_count(mark_keep(s, n)) == if n <= 0 {
            0
        } else if n >= s.len() {
            s.len() as int
        } else {
            n
        },
    decreases s.len(),
{
    if s.len() > 0 {
        lemma_mark_keep_props(s.drop_first(), n - 1);
        assert(mark_keep(s, n).drop_first() =~= mark_keep(s.drop_first(), n - 1));
        assert(mark_keep(s, n)[0] == DieRollResult {
            die: s[0].die,
            result: s[0].result,
            keep: 0 < n,
        });
    }
}

fn stays_before_exec(a: &DieRollResult, b: &DieRollResult, desc: bool) -> (r: bool)
    ensures
        r == stays_before(*a, *b, desc),
{
    if desc {
        a.result >= b.result
    } else {
        a.result <= b.result
    }
}

/// Sorts the outcomes by shown value, descending when `desc` and ascending
/// otherwise; the sort is stable, so equal values stay in roll order.
pub fn sort_outcomes(v: Vec<DieRollResult>, desc: bool) -> (r: Vec<DieRollResult>)
    ensures
        r@ == stable_sorted(v@, desc),
{
    let n: usize = v.len();
    let mut out: Vec<DieRollResult> = Vec::new();
    let mut i: usize = 0;
    while i < n
        invariant
            n == v@.len(),
            i <= n,
            out@ == stable_sorted(v@.take(i as int), desc),
        decreases n - i,
    {
        let x = v[i];
        let mut p: usize = 0;
        while p < out.len() && stays_before_exec(&out[p], &x, desc)
            invariant
                p <= out@.len(),
                forall|k: int| 0 <= k < p ==> stays_before(#[trigger] out@[k], x, desc),
            decreases out@.len() - p,
        {
            p = p + 1;
        }
        proof {
            lemma_insert_sorted_at(x, out@, desc, p as int);
            assert(v@.take(i + 1).drop_last() =~= v@.take(i as int));
            assert(v@.take(i + 1).last() == v@[i as int]);
        }
        out.insert(p, x);
        proof {
            assert(out@ =~= stable_sorted(v@.take(i + 1), desc));
        }
        i = i + 1;
    }
    proof {
        assert(v@.take(n as int) =~= v@);
    }
    out
}

/// The stable sort keeps the length, the elements and the total of values.
pub proof fn lemma_stable_sorted_props(s: Seq<DieRollResult>, desc: bool)
    ensures
        stable_sorted(s, desc).len() == s.len(),
        sorted_dir(stable_sorted(s, desc), desc),
        forall|i: int|
            0 <= i < s.len() ==> s.contains(#[trigger] stable_sorted(s, desc)[i]),
        sum_all(stable_sorted(s, desc)) == sum_all(s),
    decreases s.len(),
{
    if s.len() > 0 {
        let t = s.drop_last();
        lemma_stable_sorted_props(t, desc);
        lemma_insert_sorted_len(s.last(), stable_sorted(t, desc), desc);
        lemma_insert_sorted_sorted(s.last(), stable_sorted(t, desc), desc);
        lemma_insert_sorted_elems(s.last(), stable_sorted(t, desc), desc);
        lemma_sums_push(t, s.last());
        assert(t.push(s.last()) =~= s);
        assert forall|i: int| 0 <= i < s.len() implies s.contains(
            #[trigger] stable_sorted(s, desc)[i],
        ) by {
            let out = stable_sorted(s, desc);
            if out[i] == s.last() {
                assert(s[s.len() - 1] == s.last());
            } else {
                assert(stable_sorted(t, desc).contains(out[i]));
                let j = choose|j: int|
                    0 <= j < stable_sorted(t, desc).len() && stable_sorted(t, desc)[j] == out[i];
                assert(t.contains(out[i]));
                let k = choose|k: int| 0 <= k < t.len() && t[k] == out[i];
                assert(s[k] == out[i]);
            }
        }
    }
}

} // verus!
