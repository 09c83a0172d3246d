use vstd::prelude::*;

use crate::bit_array::{full_range, is_greatest_in, is_least_in, is_walk, lists_members, resume_at, toggled};
use crate::handle::{Handle, entry};
use crate::handle_map::{self, HandleMap};
use crate::handle_range::HandleRange;
use crate::inline_bit_set::{InlineBitSet, InlineBitSetIterator};
use crate::static_array_list::StaticArrayList;
use crate::static_bit_set::{StaticBitSet, StaticBitSetIterator};
use crate::word::Word;
use crate::packed_option::{PackedOption, ReservedValue, unpacked};
use crate::side_handle_map::{self, SideHandleMap, present_keys, present_values, resized, slot_value, with_value};

verus! {

// ---------------------------------------------------------------- bit sets

/// Toggling the same position twice gives back the set it started from.
pub proof fn law_toggle_twice(s: Set<int>, b: int)
    ensures
        toggled(toggled(s, b), b) == s,
{
    if s.contains(b) {
        assert(s.remove(b).insert(b) =~= s);
    } else {
        assert(s.insert(b).remove(b) =~= s);
    }
}

/// Adding a position makes it present; removing it makes it absent; neither touches
/// any other position.
pub proof fn law_add_remove_membership(s: Set<int>, b: int, other: int)
    requires
        other != b,
    ensures
        s.insert(b).contains(b),
        !s.remove(b).contains(b),
        s.insert(b).contains(other) == s.contains(other),
        s.remove(b).contains(other) == s.contains(other),
{
}

/// Adding a position and then removing it restores a set that did not hold it.
pub proof fn law_add_then_remove(s: Set<int>, b: int)
    requires
        !s.contains(b),
    ensures
        s.insert(b).remove(b) == s,
{
    assert(s.insert(b).remove(b) =~= s);
}

/// Complementing twice within the capacity gives back any set of positions below it.
pub proof fn law_complement_twice(s: Set<int>, cap: int)
    requires
        forall|i: int| #[trigger] s.contains(i) ==> 0 <= i < cap,
    ensures
        full_range(cap).difference(full_range(cap).difference(s)) == s,
{
    assert(full_range(cap).difference(full_range(cap).difference(s)) =~= s);
}

/// A search answers `None` exactly when no position of its range qualifies, and an
/// answer `Some(i)` is the least qualifying position.
pub proof fn law_least_is_minimum(p: spec_fn(int) -> bool, lo: int, hi: int, r: Option<usize>, x: int)
    requires
        is_least_in(p, lo, hi, r),
        lo <= x < hi,
        p(x),
    ensures
        r matches Some(i) && lo <= i <= x,
{
}

/// A backward search answers the greatest qualifying position at or below any
/// qualifying position of its range.
pub proof fn law_greatest_is_maximum(
    p: spec_fn(int) -> bool,
    lo: int,
    hi: int,
    r: Option<usize>,
    x: int,
)
    requires
        is_greatest_in(p, lo, hi, r),
        lo <= x < hi,
        p(x),
    ensures
        r matches Some(i) && x <= i < hi,
{
}

/// A search has one right answer: two answers that both meet `is_least_in`, or both
/// `is_greatest_in`, for the same predicate and range are the same answer. So a contract
/// stated with them fixes the result, and two functions whose contracts ask the same
/// search answer alike.
pub proof fn law_search_answer_unique(
    p: spec_fn(int) -> bool,
    lo: int,
    hi: int,
    r1: Option<usize>,
    r2: Option<usize>,
)
    ensures
        is_least_in(p, lo, hi, r1) && is_least_in(p, lo, hi, r2) ==> r1 == r2,
        is_greatest_in(p, lo, hi, r1) && is_greatest_in(p, lo, hi, r2) ==> r1 == r2,
{
    if is_least_in(p, lo, hi, r1) && is_least_in(p, lo, hi, r2) {
        match (r1, r2) {
            (Some(a), Some(b)) => {
                if a < b {
                    assert(p(a as int));
                } else if b < a {
                    assert(p(b as int));
                }
            },
            (Some(a), None) => {
                assert(p(a as int));
            },
            (None, Some(b)) => {
                assert(p(b as int));
            },
            (None, None) => {},
        }
    }
    if is_greatest_in(p, lo, hi, r1) && is_greatest_in(p, lo, hi, r2) {
        match (r1, r2) {
            (Some(a), Some(b)) => {
                if a < b {
                    assert(p(b as int));
                } else if b < a {
                    assert(p(a as int));
                }
            },
            (Some(a), None) => {
                assert(p(a as int));
            },
            (None, Some(b)) => {
                assert(p(b as int));
            },
            (None, None) => {},
        }
    }
}

/// Walking a set from position `lo` with successive searches misses no element: the
/// answer is the next element, and the search after it, started just past it, still
/// reaches every later element.
pub proof fn law_walk_misses_nothing(
    s: Set<int>,
    cap: int,
    lo: int,
    r: Option<usize>,
    r_next: Option<usize>,
    x: int,
)
    requires
        is_least_in(|i: int| s.contains(i), lo, cap, r),
        r matches Some(i) && is_least_in(|i: int| s.contains(i), i + 1, cap, r_next),
        s.contains(x),
        lo <= x < cap,
    ensures
        r matches Some(i) && lo <= i <= x,
        r matches Some(i) && (x == i || (r_next matches Some(j) && i < j <= x)),
{
    let p = |i: int| s.contains(i);
    assert(p(x));
}

/// A set is empty exactly when the search for its least element answers `None`.
pub proof fn law_empty_iff_no_first(s: Set<int>, cap: int, r: Option<usize>)
    requires
        forall|i: int| #[trigger] s.contains(i) ==> 0 <= i < cap,
        is_least_in(|i: int| s.contains(i), 0, cap, r),
    ensures
        (r is None) <==> (s == Set::<int>::empty()),
{
    if r is None {
        assert(s =~= Set::<int>::empty()) by {
            assert forall|i: int| !#[trigger] s.contains(i) by {
                if s.contains(i) {
                    let p = |j: int| s.contains(j);
                    assert(p(i));
                }
            }
        }
    } else {
        let i = r->Some_0;
        assert(s.contains(i as int));
    }
}

/// A set is full exactly when the search for its least absent position answers `None`.
pub proof fn law_full_iff_no_first_unset(s: Set<int>, cap: int, r: Option<usize>)
    requires
        forall|i: int| #[trigger] s.contains(i) ==> 0 <= i < cap,
        is_least_in(|i: int| !s.contains(i), 0, cap, r),
    ensures
        (r is None) <==> (s == full_range(cap)),
{
    if r is None {
        assert(s =~= full_range(cap)) by {
            assert forall|i: int| 0 <= i < cap implies #[trigger] s.contains(i) by {
                let p = |j: int| !s.contains(j);
                assert(!p(i));
            }
        }
    } else {
        let i = r->Some_0;
        assert(full_range(cap).contains(i as int));
    }
}

/// The first `k` answers of a walk, as integers.
spec fn answers(rs: Seq<Option<usize>>, k: int) -> Seq<int> {
    Seq::new(k as nat, |j: int| rs[j]->Some_0 as int)
}

/// The start of the search that gives the answer at index `k` of a walk.
spec fn start_of(rs: Seq<Option<usize>>, k: int) -> int {
    resume_at(
        if k == 0 {
            None
        } else {
            rs[k - 1]
        },
    )
}

/// While a walk keeps answering `Some`, its answers rise, are members, and take in every
/// member below the point where it goes on.
proof fn walk_prefix(s: Set<int>, cap: int, rs: Seq<Option<usize>>, k: int)
    requires
        forall|i: int| #[trigger] s.contains(i) ==> 0 <= i < cap,
        is_walk(s, cap, rs),
        0 <= k <= rs.len(),
        forall|j: int| 0 <= j < k ==> #[trigger] rs[j] is Some,
    ensures
        forall|i: int, j: int| 0 <= i < j < k ==> (#[trigger] rs[i])->Some_0 < (#[trigger] rs[j])->Some_0,
        forall|j: int| 0 <= j < k ==> s.contains((#[trigger] rs[j])->Some_0 as int),
        k > 0 ==> start_of(rs, k) == rs[k - 1]->Some_0 + 1,
        forall|x: int| #[trigger] s.contains(x) && x < start_of(rs, k) ==> answers(rs, k).contains(x),
    decreases k,
{
    if k > 0 {
        let j = k - 1;
        walk_prefix(s, cap, rs, j);
        assert(rs[j] is Some);
        assert(is_least_in(|i: int| s.contains(i), start_of(rs, j), cap, rs[j]));
        let v = rs[j]->Some_0;
        assert forall|a: int, b: int| 0 <= a < b < k implies (#[trigger] rs[a])->Some_0 < (
        #[trigger] rs[b])->Some_0 by {
            if b == j && j > 0 {
                assert(rs[j - 1] is Some);
                if a < j - 1 {
                    assert(rs[a]->Some_0 < rs[j - 1]->Some_0);
                }
            }
        }
        assert forall|x: int| #[trigger] s.contains(x) && x < start_of(rs, k) implies answers(
            rs,
            k,
        ).contains(x) by {
            if x < start_of(rs, j) {
                assert(answers(rs, j).contains(x));
                let t = choose|t: int| 0 <= t < answers(rs, j).len() && answers(rs, j)[t] == x;
                assert(answers(rs, k)[t] == x);
            } else {
                let p = |i: int| s.contains(i);
                assert(p(x));
                assert(x == v);
                assert(answers(rs, k)[j] == x);
            }
        }
    }
}

/// A walk that answered `Some` `k` times found `k` different members.
proof fn walk_count_bound(s: Set<int>, cap: int, rs: Seq<Option<usize>>, k: int)
    requires
        forall|i: int| #[trigger] s.contains(i) ==> 0 <= i < cap,
        s.finite(),
        is_walk(s, cap, rs),
        0 <= k <= rs.len(),
        forall|j: int| 0 <= j < k ==> #[trigger] rs[j] is Some,
    ensures
        k <= s.len(),
        answers(rs, k).to_set().len() == k,
        answers(rs, k).to_set().subset_of(s),
{
    walk_prefix(s, cap, rs, k);
    let ys = answers(rs, k);
    assert(ys.no_duplicates()) by {
        assert forall|a: int, b: int| 0 <= a < ys.len() && 0 <= b < ys.len() && a != b implies ys[a]
            != ys[b] by {
            if a < b {
                assert(rs[a]->Some_0 < rs[b]->Some_0);
            } else {
                assert(rs[b]->Some_0 < rs[a]->Some_0);
            }
        }
    }
    ys.unique_seq_to_set();
    assert forall|x: int| ys.to_set().contains(x) implies s.contains(x) by {
        let t = choose|t: int| 0 <= t < ys.len() && ys[t] == x;
        assert(s.contains(rs[t]->Some_0 as int));
    }
    vstd::set_lib::lemma_len_subset(ys.to_set(), s);
}

/// A walk answers its first `None` after exactly as many answers as the set has members.
proof fn walk_none_ends(s: Set<int>, cap: int, rs: Seq<Option<usize>>, k: int)
    requires
        forall|i: int| #[trigger] s.contains(i) ==> 0 <= i < cap,
        s.finite(),
        is_walk(s, cap, rs),
        0 <= k < rs.len(),
        forall|j: int| 0 <= j < k ==> #[trigger] rs[j] is Some,
        rs[k] is None,
    ensures
        k == s.len(),
        s == answers(rs, k).to_set(),
{
    walk_prefix(s, cap, rs, k);
    walk_count_bound(s, cap, rs, k);
    assert(is_least_in(|i: int| s.contains(i), start_of(rs, k), cap, rs[k]));
    let ys = answers(rs, k);
    assert forall|x: int| s.contains(x) implies ys.to_set().contains(x) by {
        let p = |i: int| s.contains(i);
        assert(p(x));
        assert(x < start_of(rs, k));
    }
    assert(s =~= ys.to_set());
}

/// A walk keeps answering `Some` while it has answered fewer times than the set has
/// members.
proof fn walk_some_before(s: Set<int>, cap: int, rs: Seq<Option<usize>>, k: int)
    requires
        forall|i: int| #[trigger] s.contains(i) ==> 0 <= i < cap,
        s.finite(),
        is_walk(s, cap, rs),
        0 <= k < rs.len(),
        k < s.len(),
    ensures
        forall|j: int| 0 <= j <= k ==> #[trigger] rs[j] is Some,
    decreases k,
{
    if k > 0 {
        walk_some_before(s, cap, rs, k - 1);
    }
    assert forall|j: int| 0 <= j < k implies #[trigger] rs[j] is Some by {
        if k > 0 {
            assert(0 <= j <= k - 1);
        }
    }
    if rs[k] is None {
        walk_none_ends(s, cap, rs, k);
    }
}

/// Searching for members one after another, each search starting just past the answer
/// before, lists the members of a set in ascending order, each once, and then answers
/// `None`: it says `None` first after exactly as many answers as the set has members, and
/// its last answer before that is the greatest member.
pub proof fn law_set_walk(s: Set<int>, cap: int, rs: Seq<Option<usize>>)
    requires
        0 <= cap <= usize::MAX,
        forall|i: int| #[trigger] s.contains(i) ==> 0 <= i < cap,
        is_walk(s, cap, rs),
    ensures
        lists_members(s, cap, rs),
{
    law_count_within_capacity(s, cap);
    let m = s.len() as int;
    let k0 = if rs.len() < m {
        rs.len() as int
    } else {
        m
    };
    if k0 > 0 {
        walk_some_before(s, cap, rs, k0 - 1);
    }
    assert forall|j: int| 0 <= j < k0 implies #[trigger] rs[j] is Some by {
        assert(0 <= j <= k0 - 1);
    }
    walk_prefix(s, cap, rs, k0);
    assert forall|k: int| 0 <= k < rs.len() && k <= m implies (#[trigger] rs[k] is Some <==> k < m) by {
        if k < m {
            assert(rs[k] is Some);
        } else if rs[k] is Some {
            assert forall|j: int| 0 <= j < k + 1 implies #[trigger] rs[j] is Some by {
                if j < k {
                    assert(rs[j] is Some);
                }
            }
            walk_count_bound(s, cap, rs, k + 1);
        }
    }
    if rs.len() > m {
        assert(rs[m] is None);
        walk_none_ends(s, cap, rs, m);
        assert forall|x: int| #[trigger] s.contains(x) implies exists|k: int|
            0 <= k < m && #[trigger] rs[k] == Some(x as usize) by {
            assert(answers(rs, m).to_set().contains(x));
            let t = choose|t: int| 0 <= t < m && answers(rs, m)[t] == x;
            assert(rs[t] is Some);
            assert(rs[t] == Some(x as usize));
        }
        assert(is_least_in(|i: int| s.contains(i), start_of(rs, m), cap, rs[m]));
        let p = |i: int| s.contains(i);
        if m > 0 {
            let v = rs[m - 1]->Some_0;
            assert(s.contains(v as int));
            assert forall|j: int| v < j < cap implies !#[trigger] p(j) by {
                assert(start_of(rs, m) <= j);
            }
        }
    }
}

/// Before its `k`-th call of `next`, an iterator still walks the same set and remembers
/// the answer before.
proof fn static_walk_states<'a, W: Word, const WORDS: usize>(
    its: Seq<StaticBitSetIterator<'a, W, WORDS>>,
    rs: Seq<Option<usize>>,
    k: int,
)
    requires
        its.len() == rs.len() + 1,
        its[0].last_yielded() is None,
        forall|j: int| 0 <= j < rs.len() ==> #[trigger] its[j].next_step(rs[j], &its[j + 1]),
        0 <= k < its.len(),
    ensures
        its[k].set() == its[0].set(),
        its[k].last_yielded() == if k == 0 {
            None
        } else {
            rs[k - 1]
        },
    decreases k,
{
    if k > 0 {
        let j = k - 1;
        static_walk_states(its, rs, j);
        assert(its[j].next_step(rs[j], &its[j + 1]));
    }
}

/// Calling `next` on the iterator of a static bit set again and again hands out the
/// positions of the set in ascending order, each once, and then `None`: exactly as many
/// positions as `count` reports come before the first `None`, and the last of them is the
/// position `last_set` answers.
pub proof fn law_static_bit_set_walk<'a, W: Word, const WORDS: usize>(
    set: StaticBitSet<W, WORDS>,
    its: Seq<StaticBitSetIterator<'a, W, WORDS>>,
    rs: Seq<Option<usize>>,
)
    requires
        StaticBitSet::<W, WORDS>::capacity() <= usize::MAX,
        its.len() == rs.len() + 1,
        its[0].set() == set@,
        its[0].last_yielded() is None,
        forall|k: int| 0 <= k < rs.len() ==> #[trigger] its[k].next_step(rs[k], &its[k + 1]),
    ensures
        lists_members(set@, StaticBitSet::<W, WORDS>::capacity(), rs),
{
    let cap = StaticBitSet::<W, WORDS>::capacity();
    assert forall|k: int| 0 <= k < rs.len() implies is_least_in(
        |i: int| set@.contains(i),
        resume_at(
            if k == 0 {
                None
            } else {
                rs[k - 1]
            },
        ),
        cap,
        #[trigger] rs[k],
    ) by {
        static_walk_states(its, rs, k);
        assert(its[k].next_step(rs[k], &its[k + 1]));
    }
    assert(is_walk(set@, cap, rs));
    set.lemma_in_range();
    law_set_walk(set@, cap, rs);
}

/// Before its `k`-th call of `next`, an iterator still walks the same set and remembers
/// the answer before.
proof fn inline_walk_states<'a, const WORDS: usize, W: Word>(
    its: Seq<InlineBitSetIterator<'a, WORDS, W>>,
    rs: Seq<Option<usize>>,
    k: int,
)
    requires
        its.len() == rs.len() + 1,
        its[0].last_yielded() is None,
        forall|j: int| 0 <= j < rs.len() ==> #[trigger] its[j].next_step(rs[j], &its[j + 1]),
        0 <= k < its.len(),
    ensures
        its[k].set() == its[0].set(),
        its[k].last_yielded() == if k == 0 {
            None
        } else {
            rs[k - 1]
        },
    decreases k,
{
    if k > 0 {
        let j = k - 1;
        inline_walk_states(its, rs, j);
        assert(its[j].next_step(rs[j], &its[j + 1]));
    }
}

/// Calling `next` on the iterator of an inline bit set again and again hands out the
/// positions of the set in ascending order, each once, and then `None`: exactly as many
/// positions as `len` reports come before the first `None`, and the last of them is the
/// position `last_set` answers.
pub proof fn law_inline_bit_set_walk<'a, const WORDS: usize, W: Word>(
    set: InlineBitSet<WORDS, W>,
    its: Seq<InlineBitSetIterator<'a, WORDS, W>>,
    rs: Seq<Option<usize>>,
)
    requires
        InlineBitSet::<WORDS, W>::capacity() <= usize::MAX,
        its.len() == rs.len() + 1,
        its[0].set() == set@,
        its[0].last_yielded() is None,
        forall|k: int| 0 <= k < rs.len() ==> #[trigger] its[k].next_step(rs[k], &its[k + 1]),
    ensures
        lists_members(set@, InlineBitSet::<WORDS, W>::capacity(), rs),
{
    let cap = InlineBitSet::<WORDS, W>::capacity();
    assert forall|k: int| 0 <= k < rs.len() implies is_least_in(
        |i: int| set@.contains(i),
        resume_at(
            if k == 0 {
                None
            } else {
                rs[k - 1]
            },
        ),
        cap,
        #[trigger] rs[k],
    ) by {
        inline_walk_states(its, rs, k);
        assert(its[k].next_step(rs[k], &its[k + 1]));
    }
    assert(is_walk(set@, cap, rs));
    set.lemma_in_range();
    law_set_walk(set@, cap, rs);
}

/// A set of positions below the capacity never counts more elements than the capacity.
pub proof fn law_count_within_capacity(s: Set<int>, cap: int)
    requires
        0 <= cap,
        forall|i: int| #[trigger] s.contains(i) ==> 0 <= i < cap,
    ensures
        s.finite(),
        s.len() <= cap,
{
    let p = |i: int| true;
    crate::bit_array::lemma_count_true_set(p, cap);
    crate::bit_array::lemma_count_true_bound(p, cap);
    let full = Set::new(|i: int| 0 <= i < cap && p(i));
    assert(s.subset_of(full));
    vstd::set_lib::lemma_len_subset(s, full);
}

/// Adding a position counts one more member when it was absent and leaves the set as it
/// was when it was present; removing a position counts one fewer when it was present and
/// leaves the set as it was when it was absent.
pub proof fn law_count_after_add_remove(s: Set<int>, cap: int, b: int)
    requires
        forall|i: int| #[trigger] s.contains(i) ==> 0 <= i < cap,
        0 <= b < cap,
    ensures
        s.insert(b).len() == s.len() + if s.contains(b) {
            0int
        } else {
            1int
        },
        s.remove(b).len() == s.len() - if s.contains(b) {
            1int
        } else {
            0int
        },
        s.contains(b) ==> s.insert(b) == s,
        !s.contains(b) ==> s.remove(b) == s,
{
    law_count_within_capacity(s, cap);
    if s.contains(b) {
        assert(s.insert(b) =~= s);
    } else {
        assert(s.remove(b) =~= s);
    }
}

/// A cleared set has no member: it counts none, it is the set `new` makes, and both
/// searches for a member, from either end, answer `None`.
pub proof fn law_cleared_is_empty(s: Set<int>, cap: int, first: Option<usize>, last: Option<usize>)
    requires
        s == Set::<int>::empty(),
        is_least_in(|i: int| s.contains(i), 0, cap, first),
        is_greatest_in(|i: int| s.contains(i), 0, cap, last),
    ensures
        s.len() == 0,
        first is None,
        last is None,
{
    if first is Some {
        let i = first->Some_0;
        assert(s.contains(i as int));
    }
    if last is Some {
        let i = last->Some_0;
        assert(s.contains(i as int));
    }
}

/// A set built from a list of positions holds exactly the distinct positions listed, so
/// it counts as many members as the list has distinct values, whatever their order and
/// however often each is listed.
pub proof fn law_from_counts_distinct(bits: Seq<usize>, s: Set<int>)
    requires
        s == Set::new(|p: int| exists|i: int| 0 <= i < bits.len() && #[trigger] bits[i] == p),
    ensures
        s == bits.map_values(|b: usize| b as int).to_set(),
        s.len() == bits.map_values(|b: usize| b as int).to_set().len(),
{
    let ms = bits.map_values(|b: usize| b as int);
    assert forall|p: int| s.contains(p) <==> ms.to_set().contains(p) by {
        if s.contains(p) {
            let i = choose|i: int| 0 <= i < bits.len() && #[trigger] bits[i] == p;
            assert(ms[i] == p);
        }
        if ms.to_set().contains(p) {
            let i = choose|i: int| 0 <= i < ms.len() && ms[i] == p;
            assert(bits[i] == p);
        }
    }
    assert(s =~= ms.to_set());
}

// ---------------------------------------------------------------- handle maps

/// A value added to a handle map is what its new handle looks up; the values of all
/// earlier handles are unchanged.
pub proof fn law_get_after_add<V>(s: Seq<V>, v: V, j: int)
    requires
        0 <= j < s.len(),
    ensures
        entry(s.push(v), s.len() as int) == Some(v),
        entry(s.push(v), j) == entry(s, j),
{
}

/// Writing through a handle changes the value of that handle only.
pub proof fn law_write_then_get<V>(s: Seq<V>, i: int, v: V, j: int)
    requires
        0 <= i < s.len(),
        j != i,
    ensures
        entry(s.update(i, v), i) == Some(v),
        entry(s.update(i, v), j) == entry(s, j),
{
}

/// In a side map, giving a handle a value makes it look up that value, and leaves every
/// other handle as it was: a handle that never received a value stays absent, even when
/// the map grew past it.
pub proof fn law_side_add_keeps_others<V>(s: Seq<Option<V>>, i: int, v: V, j: int)
    requires
        0 <= i,
        j != i,
    ensures
        slot_value(with_value(s, i, v), i) == Some(v),
        slot_value(with_value(s, i, v), j) == slot_value(s, j),
{
}

/// Resizing a side map never makes a handle present: below the new size handles keep
/// their values, from it on they are absent.
pub proof fn law_side_resize_adds_nothing<V>(s: Seq<Option<V>>, n: nat, j: int)
    ensures
        slot_value(resized(s, n), j) == if j < n {
            slot_value(s, j)
        } else {
            None
        },
{
}

/// Giving handle `i` a value in a side map with `s.len()` slots leaves exactly
/// `max(s.len(), i + 1)` slots: the map grows just far enough to reach the handle, and
/// every slot it adds on the way, other than the handle's own, is absent.
pub proof fn law_side_add_grows_to_reach<V>(s: Seq<Option<V>>, i: int, v: V)
    requires
        0 <= i,
    ensures
        with_value(s, i, v).len() == if i < s.len() {
            s.len() as int
        } else {
            i + 1
        },
        with_value(s, i, v).len() >= s.len(),
        with_value(s, i, v).len() > i,
        forall|j: int| s.len() <= j < with_value(s, i, v).len() && j != i ==> #[trigger] with_value(s, i, v)[j] is None,
        forall|j: int| 0 <= j < s.len() && j != i ==> #[trigger] with_value(s, i, v)[j] == s[j],
{
}

/// Resizing a side map to `n` leaves exactly `n` slots: the first `min(s.len(), n)` as
/// they were, the rest absent.
pub proof fn law_side_resize_len<V>(s: Seq<Option<V>>, n: nat)
    ensures
        resized(s, n).len() == n,
        forall|j: int| 0 <= j < n && j < s.len() ==> #[trigger] resized(s, n)[j] == s[j],
        forall|j: int| s.len() <= j < n ==> #[trigger] resized(s, n)[j] is None,
{
}

/// After a removal the handle is absent, whatever it held.
pub proof fn law_side_remove_then_get<V>(s: Seq<Option<V>>, i: int)
    requires
        0 <= i < s.len(),
    ensures
        slot_value(s.update(i, None), i) is None,
{
}

/// Before its `k`-th call of `next`, an iterator over a handle map still walks the same
/// values and stands at index `k`, or at the end once it got there.
proof fn map_walk_states<'a, K: Handle, V>(
    its: Seq<handle_map::Iter<'a, K, V>>,
    rs: Seq<Option<(K, &'a V)>>,
    k: int,
)
    requires
        its.len() == rs.len() + 1,
        its[0].position() == 0,
        forall|j: int| 0 <= j < rs.len() ==> #[trigger] its[j].next_step(rs[j], &its[j + 1]),
        0 <= k < its.len(),
    ensures
        its[k].items() == its[0].items(),
        its[k].position() == if k < its[0].items().len() {
            k
        } else {
            its[0].items().len() as int
        },
    decreases k,
{
    if k > 0 {
        let j = k - 1;
        map_walk_states(its, rs, j);
        assert(its[j].next_step(rs[j], &its[j + 1]));
    }
}

/// Calling `next` on the iterator of a handle map again and again hands out, for each
/// index in order, the handle of that index with a reference to its value, and then
/// `None` on every later call: the handles come in the order `keys` lists them and the
/// values in the order `values` walks them.
pub proof fn law_handle_map_walk<'a, K: Handle, V>(
    m: HandleMap<K, V>,
    its: Seq<handle_map::Iter<'a, K, V>>,
    rs: Seq<Option<(K, &'a V)>>,
)
    requires
        its.len() == rs.len() + 1,
        its[0].items() == m@,
        its[0].position() == 0,
        forall|k: int| 0 <= k < rs.len() ==> #[trigger] its[k].next_step(rs[k], &its[k + 1]),
    ensures
        forall|k: int| 0 <= k < rs.len() ==> (#[trigger] rs[k] is Some <==> k < m@.len()),
        forall|k: int|
            0 <= k < rs.len() && k < m@.len() ==> (#[trigger] rs[k])->Some_0.0.spec_index() == k
                && *rs[k]->Some_0.1 == m@[k],
{
    assert forall|k: int| 0 <= k < rs.len() implies (#[trigger] rs[k] is Some <==> k < m@.len()) && (k
        < m@.len() ==> rs[k]->Some_0.0.spec_index() == k && *rs[k]->Some_0.1 == m@[k]) by {
        map_walk_states(its, rs, k);
        assert(its[k].next_step(rs[k], &its[k + 1]));
    }
}

/// Before its `k`-th call of `next`, a consuming iterator over a handle map has handed
/// out the first `k` values, or all of them.
proof fn map_into_walk_states<K: Handle, V>(
    its: Seq<handle_map::IntoIter<K, V>>,
    rs: Seq<Option<(K, V)>>,
    k: int,
)
    requires
        its.len() == rs.len() + 1,
        its[0].position() == 0,
        forall|j: int| 0 <= j < rs.len() ==> #[trigger] its[j].next_step(rs[j], &its[j + 1]),
        0 <= k < its.len(),
    ensures
        its[k].position() == if k < its[0].remaining().len() {
            k
        } else {
            its[0].remaining().len() as int
        },
        its[k].remaining() == its[0].remaining().skip(its[k].position() as int),
    decreases k,
{
    if k == 0 {
        assert(its[0].remaining().skip(0) =~= its[0].remaining());
    } else {
        let j = k - 1;
        map_into_walk_states(its, rs, j);
        assert(its[j].next_step(rs[j], &its[j + 1]));
        if rs[j] is Some {
            assert(its[0].remaining().skip(its[j].position() as int).drop_first() =~= its[0].remaining().skip(
                its[j].position() + 1 as int,
            ));
        }
    }
}

/// Calling `next` on the consuming iterator of a handle map again and again hands out,
/// for each index in order, the handle of that index with its value, and then `None` on
/// every later call.
pub proof fn law_handle_map_into_walk<K: Handle, V>(
    m: HandleMap<K, V>,
    its: Seq<handle_map::IntoIter<K, V>>,
    rs: Seq<Option<(K, V)>>,
)
    requires
        its.len() == rs.len() + 1,
        its[0].remaining() == m@,
        its[0].position() == 0,
        forall|k: int| 0 <= k < rs.len() ==> #[trigger] its[k].next_step(rs[k], &its[k + 1]),
    ensures
        forall|k: int| 0 <= k < rs.len() ==> (#[trigger] rs[k] is Some <==> k < m@.len()),
        forall|k: int|
            0 <= k < rs.len() && k < m@.len() ==> (#[trigger] rs[k])->Some_0.0.spec_index() == k
                && rs[k]->Some_0.1 == m@[k],
{
    assert forall|k: int| 0 <= k < rs.len() implies (#[trigger] rs[k] is Some <==> k < m@.len()) && (k
        < m@.len() ==> rs[k]->Some_0.0.spec_index() == k && rs[k]->Some_0.1 == m@[k]) by {
        map_into_walk_states(its, rs, k);
        assert(its[k].next_step(rs[k], &its[k + 1]));
    }
}

/// Before its `k`-th call of `next`, a mutable iterator over a handle map has handed out
/// the first `k` values, or all of them.
proof fn map_mut_walk_states<'a, K: Handle, V>(
    its: Seq<handle_map::IterMut<'a, K, V>>,
    rs: Seq<Option<(K, &'a mut V)>>,
    k: int,
)
    requires
        its.len() == rs.len() + 1,
        its[0].position() == 0,
        forall|j: int| 0 <= j < rs.len() ==> #[trigger] its[j].next_step(rs[j], &its[j + 1]),
        0 <= k < its.len(),
    ensures
        its[k].position() == if k < its[0].items().len() {
            k
        } else {
            its[0].items().len() as int
        },
        its[k].items() == its[0].items().skip(its[k].position() as int),
    decreases k,
{
    if k == 0 {
        assert(its[0].items().skip(0) =~= its[0].items());
    } else {
        let j = k - 1;
        map_mut_walk_states(its, rs, j);
        assert(its[j].next_step(rs[j], &its[j + 1]));
        if rs[j] is Some {
            assert(its[0].items().skip(its[j].position() as int).drop_first() =~= its[0].items().skip(
                its[j].position() + 1 as int,
            ));
        }
    }
}

/// Calling `next` on the mutable iterator of a handle map again and again hands out, for
/// each index in order, the handle of that index with a reference to its value, and then
/// `None` on every later call.
pub proof fn law_handle_map_mut_walk<'a, K: Handle, V>(
    m: HandleMap<K, V>,
    its: Seq<handle_map::IterMut<'a, K, V>>,
    rs: Seq<Option<(K, &'a mut V)>>,
)
    requires
        its.len() == rs.len() + 1,
        its[0].items() == m@,
        its[0].position() == 0,
        forall|k: int| 0 <= k < rs.len() ==> #[trigger] its[k].next_step(rs[k], &its[k + 1]),
    ensures
        forall|k: int| 0 <= k < rs.len() ==> (#[trigger] rs[k] is Some <==> k < m@.len()),
        forall|k: int|
            0 <= k < rs.len() && k < m@.len() ==> (#[trigger] rs[k])->Some_0.0.spec_index() == k
                && *rs[k]->Some_0.1 == m@[k],
{
    assert forall|k: int| 0 <= k < rs.len() implies (#[trigger] rs[k] is Some <==> k < m@.len()) && (k
        < m@.len() ==> rs[k]->Some_0.0.spec_index() == k && *rs[k]->Some_0.1 == m@[k]) by {
        map_mut_walk_states(its, rs, k);
        assert(its[k].next_step(rs[k], &its[k + 1]));
    }
}

/// The keys a side map lists are exactly the indices of its slots that hold a value,
/// each once and in ascending order, and the values it lists are the values of those
/// slots, in the same order.
pub proof fn law_present_keys<V>(s: Seq<Option<V>>, n: int)
    requires
        0 <= n <= s.len(),
    ensures
        present_keys(s, n).len() == present_values(s, n).len(),
        forall|i: int, j: int|
            0 <= i < j < present_keys(s, n).len() ==> #[trigger] present_keys(s, n)[i]
                < #[trigger] present_keys(s, n)[j],
        forall|k: int|
            0 <= k < present_keys(s, n).len() ==> 0 <= #[trigger] present_keys(s, n)[k] < n && s[present_keys(
                s,
                n,
            )[k]] == Some(present_values(s, n)[k]),
        forall|i: int|
            0 <= i < n && #[trigger] s[i] is Some ==> exists|k: int|
                0 <= k < present_keys(s, n).len() && #[trigger] present_keys(s, n)[k] == i,
    decreases n,
{
    if n > 0 {
        law_present_keys(s, n - 1);
        let pk = present_keys(s, n - 1);
        assert forall|i: int| 0 <= i < n && #[trigger] s[i] is Some implies exists|k: int|
            0 <= k < present_keys(s, n).len() && #[trigger] present_keys(s, n)[k] == i by {
            if i < n - 1 {
                let k = choose|k: int| 0 <= k < pk.len() && #[trigger] pk[k] == i;
                assert(present_keys(s, n)[k] == i);
            } else {
                assert(present_keys(s, n)[pk.len() as int] == i);
            }
        }
    }
}

/// Where an iterator over a side map stands before its `k`-th call of `next`: just past
/// the `k`-th slot that holds a value, or at the end once all were handed out.
spec fn side_position<V>(s: Seq<Option<V>>, k: int) -> int {
    if k == 0 {
        0
    } else if k <= present_keys(s, s.len() as int).len() {
        present_keys(s, s.len() as int)[k - 1] + 1
    } else {
        s.len() as int
    }
}

/// One call of `next` on a side map iterator standing where `side_position` says hands
/// out the next slot that holds a value, or `None` once all were handed out.
proof fn side_step<'a, K: Handle, V>(
    it: side_handle_map::Iter<'a, K, V>,
    r: Option<(K, &'a V)>,
    after: side_handle_map::Iter<'a, K, V>,
    k: int,
)
    requires
        0 <= k,
        it.position() == side_position(it.items(), k),
        it.next_step(r, &after),
    ensures
        after.items() == it.items(),
        after.position() == side_position(it.items(), k + 1),
        r is Some <==> k < present_keys(it.items(), it.items().len() as int).len(),
        k < present_keys(it.items(), it.items().len() as int).len() ==> r->Some_0.0.spec_index()
            == present_keys(it.items(), it.items().len() as int)[k] && *r->Some_0.1 == present_values(
            it.items(),
            it.items().len() as int,
        )[k],
{
    let s = it.items();
    let n = s.len() as int;
    law_present_keys(s, n);
    let pk = present_keys(s, n);
    let pv = present_values(s, n);
    let p = it.position();
    if k > 0 && k <= pk.len() {
        assert(s[pk[k - 1]] is Some);
    }
    assert(p <= n);
    assert forall|t: int| 0 <= t < pk.len() && p <= #[trigger] pk[t] implies t >= k by {
        if t < k {
            if t < k - 1 {
                assert(pk[t] < pk[k - 1]);
            }
        }
    }
    match r {
        Some(pair) => {
            let idx = pair.0.spec_index() as int;
            assert(s[idx] is Some);
            let t = choose|t: int| 0 <= t < pk.len() && #[trigger] pk[t] == idx;
            assert(t >= k);
            if t > k {
                assert(pk[k] < pk[t]);
                assert(s[pk[k]] is Some);
            }
            assert(t == k);
        },
        None => {
            if k < pk.len() {
                assert(pk[k] >= p) by {
                    if k > 0 {
                        assert(pk[k - 1] < pk[k]);
                    }
                }
                assert(s[pk[k]] is Some);
            }
        },
    }
}

/// Before its `k`-th call of `next`, an iterator over a side map still walks the same
/// slots and stands where `side_position` says.
proof fn side_walk_states<'a, K: Handle, V>(
    its: Seq<side_handle_map::Iter<'a, K, V>>,
    rs: Seq<Option<(K, &'a V)>>,
    k: int,
)
    requires
        its.len() == rs.len() + 1,
        its[0].position() == 0,
        forall|j: int| 0 <= j < rs.len() ==> #[trigger] its[j].next_step(rs[j], &its[j + 1]),
        0 <= k < its.len(),
    ensures
        its[k].items() == its[0].items(),
        its[k].position() == side_position(its[0].items(), k),
    decreases k,
{
    if k > 0 {
        let j = k - 1;
        side_walk_states(its, rs, j);
        assert(its[j].next_step(rs[j], &its[j + 1]));
        side_step(its[j], rs[j], its[j + 1], j);
    }
}

/// Calling `next` on the iterator of a side map again and again hands out the slots that
/// hold a value, in index order and each once, as the handle of the slot with a
/// reference to its value, skipping empty slots, and then `None` on every later call:
/// the handles come in the order `keys` lists them and the values in the order `values`
/// lists them.
pub proof fn law_side_map_walk<'a, K: Handle, V>(
    m: SideHandleMap<K, V>,
    its: Seq<side_handle_map::Iter<'a, K, V>>,
    rs: Seq<Option<(K, &'a V)>>,
)
    requires
        its.len() == rs.len() + 1,
        its[0].items() == m@,
        its[0].position() == 0,
        forall|k: int| 0 <= k < rs.len() ==> #[trigger] its[k].next_step(rs[k], &its[k + 1]),
    ensures
        forall|k: int|
            0 <= k < rs.len() ==> (#[trigger] rs[k] is Some <==> k < present_keys(m@, m@.len() as int).len()),
        forall|k: int|
            0 <= k < rs.len() && k < present_keys(m@, m@.len() as int).len() ==> (#[trigger] rs[k])->Some_0.0.spec_index()
                == present_keys(m@, m@.len() as int)[k] && *rs[k]->Some_0.1 == present_values(
                m@,
                m@.len() as int,
            )[k],
{
    assert forall|k: int| 0 <= k < rs.len() implies (#[trigger] rs[k] is Some <==> k < present_keys(
        m@,
        m@.len() as int,
    ).len()) && (k < present_keys(m@, m@.len() as int).len() ==> rs[k]->Some_0.0.spec_index()
        == present_keys(m@, m@.len() as int)[k] && *rs[k]->Some_0.1 == present_values(
        m@,
        m@.len() as int,
    )[k]) by {
        side_walk_states(its, rs, k);
        assert(its[k].next_step(rs[k], &its[k + 1]));
        side_step(its[k], rs[k], its[k + 1], k);
    }
}

/// One call of `next` on a consuming side map iterator that has dropped the slots before
/// where `side_position` says hands out the next slot that holds a value, or `None` once
/// all were handed out.
proof fn side_into_step<K: Handle, V>(
    s: Seq<Option<V>>,
    it: side_handle_map::IntoIter<K, V>,
    r: Option<(K, V)>,
    after: side_handle_map::IntoIter<K, V>,
    k: int,
)
    requires
        0 <= k,
        it.position() == side_position(s, k),
        it.items() == s.skip(it.position() as int),
        it.next_step(r, &after),
    ensures
        after.position() == side_position(s, k + 1),
        after.items() == s.skip(after.position() as int),
        r is Some <==> k < present_keys(s, s.len() as int).len(),
        k < present_keys(s, s.len() as int).len() ==> r->Some_0.0.spec_index() == present_keys(
            s,
            s.len() as int,
        )[k] && r->Some_0.1 == present_values(s, s.len() as int)[k],
{
    let n = s.len() as int;
    law_present_keys(s, n);
    let pk = present_keys(s, n);
    let pv = present_values(s, n);
    let p = it.position() as int;
    if k > 0 && k <= pk.len() {
        assert(s[pk[k - 1]] is Some);
    }
    assert(p <= n);
    assert forall|t: int| 0 <= t < pk.len() && p <= #[trigger] pk[t] implies t >= k by {
        if t < k {
            if t < k - 1 {
                assert(pk[t] < pk[k - 1]);
            }
        }
    }
    match r {
        Some(pair) => {
            let idx = pair.0.spec_index() as int;
            let d = idx - p;
            assert(it.items()[d] == s[idx]);
            assert(s[idx] is Some);
            let t = choose|t: int| 0 <= t < pk.len() && #[trigger] pk[t] == idx;
            assert(t >= k);
            if t > k {
                assert(pk[k] < pk[t]);
                assert(s[pk[k]] is Some);
                assert(it.items()[pk[k] - p] is None);
            }
            assert(t == k);
            assert(after.items() =~= s.skip(idx + 1));
        },
        None => {
            if k < pk.len() {
                assert(pk[k] >= p) by {
                    if k > 0 {
                        assert(pk[k - 1] < pk[k]);
                    }
                }
                assert(s[pk[k]] is Some);
                assert(it.items()[pk[k] - p] is None);
            }
            assert(after.items() =~= s.skip(n));
        },
    }
}

/// Before its `k`-th call of `next`, a consuming iterator over a side map has dropped the
/// slots before where `side_position` says.
proof fn side_into_walk_states<K: Handle, V>(
    s: Seq<Option<V>>,
    its: Seq<side_handle_map::IntoIter<K, V>>,
    rs: Seq<Option<(K, V)>>,
    k: int,
)
    requires
        its.len() == rs.len() + 1,
        its[0].items() == s,
        its[0].position() == 0,
        forall|j: int| 0 <= j < rs.len() ==> #[trigger] its[j].next_step(rs[j], &its[j + 1]),
        0 <= k < its.len(),
    ensures
        its[k].position() == side_position(s, k),
        its[k].items() == s.skip(its[k].position() as int),
    decreases k,
{
    if k == 0 {
        assert(s.skip(0) =~= s);
    } else {
        let j = k - 1;
        side_into_walk_states(s, its, rs, j);
        assert(its[j].next_step(rs[j], &its[j + 1]));
        side_into_step(s, its[j], rs[j], its[j + 1], j);
    }
}

/// Calling `next` on the consuming iterator of a side map again and again hands out the
/// slots that hold a value, in index order and each once, as the handle of the slot with
/// its value, skipping empty slots, and then `None` on every later call.
pub proof fn law_side_map_into_walk<K: Handle, V>(
    m: SideHandleMap<K, V>,
    its: Seq<side_handle_map::IntoIter<K, V>>,
    rs: Seq<Option<(K, V)>>,
)
    requires
        its.len() == rs.len() + 1,
        its[0].items() == m@,
        its[0].position() == 0,
        forall|k: int| 0 <= k < rs.len() ==> #[trigger] its[k].next_step(rs[k], &its[k + 1]),
    ensures
        forall|k: int|
            0 <= k < rs.len() ==> (#[trigger] rs[k] is Some <==> k < present_keys(m@, m@.len() as int).len()),
        forall|k: int|
            0 <= k < rs.len() && k < present_keys(m@, m@.len() as int).len() ==> (#[trigger] rs[k])->Some_0.0.spec_index()
                == present_keys(m@, m@.len() as int)[k] && rs[k]->Some_0.1 == present_values(
                m@,
                m@.len() as int,
            )[k],
{
    assert forall|k: int| 0 <= k < rs.len() implies (#[trigger] rs[k] is Some <==> k < present_keys(
        m@,
        m@.len() as int,
    ).len()) && (k < present_keys(m@, m@.len() as int).len() ==> rs[k]->Some_0.0.spec_index()
        == present_keys(m@, m@.len() as int)[k] && rs[k]->Some_0.1 == present_values(
        m@,
        m@.len() as int,
    )[k]) by {
        side_into_walk_states(m@, its, rs, k);
        assert(its[k].next_step(rs[k], &its[k + 1]));
        side_into_step(m@, its[k], rs[k], its[k + 1], k);
    }
}

/// One call of `next` on a mutable side map iterator that has passed the slots before
/// where `side_position` says hands out the next slot that holds a value, or `None` once
/// all were handed out.
proof fn side_mut_step<'a, K: Handle, V>(
    s: Seq<Option<V>>,
    it: side_handle_map::IterMut<'a, K, V>,
    r: Option<(K, &'a mut V)>,
    after: side_handle_map::IterMut<'a, K, V>,
    k: int,
)
    requires
        0 <= k,
        it.position() == side_position(s, k),
        it.items() == s.skip(it.position() as int),
        it.next_step(r, &after),
    ensures
        after.position() == side_position(s, k + 1),
        after.items() == s.skip(after.position() as int),
        r is Some <==> k < present_keys(s, s.len() as int).len(),
        k < present_keys(s, s.len() as int).len() ==> r->Some_0.0.spec_index() == present_keys(
            s,
            s.len() as int,
        )[k] && *r->Some_0.1 == present_values(s, s.len() as int)[k],
{
    let n = s.len() as int;
    law_present_keys(s, n);
    let pk = present_keys(s, n);
    let pv = present_values(s, n);
    let p = it.position() as int;
    if k > 0 && k <= pk.len() {
        assert(s[pk[k - 1]] is Some);
    }
    assert(p <= n);
    assert forall|t: int| 0 <= t < pk.len() && p <= #[trigger] pk[t] implies t >= k by {
        if t < k {
            if t < k - 1 {
                assert(pk[t] < pk[k - 1]);
            }
        }
    }
    match r {
        Some(pair) => {
            let idx = pair.0.spec_index() as int;
            let d = idx - p;
            assert(it.items()[d] == s[idx]);
            assert(s[idx] is Some);
            let t = choose|t: int| 0 <= t < pk.len() && #[trigger] pk[t] == idx;
            assert(t >= k);
            if t > k {
                assert(pk[k] < pk[t]);
                assert(s[pk[k]] is Some);
                assert(it.items()[pk[k] - p] is None);
            }
            assert(t == k);
            assert(after.items() =~= s.skip(idx + 1));
        },
        None => {
            if k < pk.len() {
                assert(pk[k] >= p) by {
                    if k > 0 {
                        assert(pk[k - 1] < pk[k]);
                    }
                }
                assert(s[pk[k]] is Some);
                assert(it.items()[pk[k] - p] is None);
            }
            assert(after.items() =~= s.skip(n));
        },
    }
}

/// Before its `k`-th call of `next`, a mutable iterator over a side map has passed the
/// slots before where `side_position` says.
proof fn side_mut_walk_states<'a, K: Handle, V>(
    s: Seq<Option<V>>,
    its: Seq<side_handle_map::IterMut<'a, K, V>>,
    rs: Seq<Option<(K, &'a mut V)>>,
    k: int,
)
    requires
        its.len() == rs.len() + 1,
        its[0].items() == s,
        its[0].position() == 0,
        forall|j: int| 0 <= j < rs.len() ==> #[trigger] its[j].next_step(rs[j], &its[j + 1]),
        0 <= k < its.len(),
    ensures
        its[k].position() == side_position(s, k),
        its[k].items() == s.skip(its[k].position() as int),
    decreases k,
{
    if k == 0 {
        assert(s.skip(0) =~= s);
    } else {
        let j = k - 1;
        side_mut_walk_states(s, its, rs, j);
        assert(its[j].next_step(rs[j], &its[j + 1]));
        side_mut_step(s, its[j], rs[j], its[j + 1], j);
    }
}

/// Calling `next` on the mutable iterator of a side map again and again hands out the
/// slots that hold a value, in index order and each once, as the handle of the slot with
/// a reference to its value, skipping empty slots, and then `None` on every later call.
pub proof fn law_side_map_mut_walk<'a, K: Handle, V>(
    m: SideHandleMap<K, V>,
    its: Seq<side_handle_map::IterMut<'a, K, V>>,
    rs: Seq<Option<(K, &'a mut V)>>,
)
    requires
        its.len() == rs.len() + 1,
        its[0].items() == m@,
        its[0].position() == 0,
        forall|k: int| 0 <= k < rs.len() ==> #[trigger] its[k].next_step(rs[k], &its[k + 1]),
    ensures
        forall|k: int|
            0 <= k < rs.len() ==> (#[trigger] rs[k] is Some <==> k < present_keys(m@, m@.len() as int).len()),
        forall|k: int|
            0 <= k < rs.len() && k < present_keys(m@, m@.len() as int).len() ==> (#[trigger] rs[k])->Some_0.0.spec_index()
                == present_keys(m@, m@.len() as int)[k] && *rs[k]->Some_0.1 == present_values(
                m@,
                m@.len() as int,
            )[k],
{
    assert forall|k: int| 0 <= k < rs.len() implies (#[trigger] rs[k] is Some <==> k < present_keys(
        m@,
        m@.len() as int,
    ).len()) && (k < present_keys(m@, m@.len() as int).len() ==> rs[k]->Some_0.0.spec_index()
        == present_keys(m@, m@.len() as int)[k] && *rs[k]->Some_0.1 == present_values(
        m@,
        m@.len() as int,
    )[k]) by {
        side_mut_walk_states(m@, its, rs, k);
        assert(its[k].next_step(rs[k], &its[k + 1]));
        side_mut_step(m@, its[k], rs[k], its[k + 1], k);
    }
}

// ---------------------------------------------------------------- handle ranges

/// After `k` calls of `next` on a range, its end has not moved and it holds `k` handles
/// fewer, or none once it ran out.
proof fn range_after_steps<K: Handle>(rs: Seq<HandleRange<K>>, ans: Seq<Option<K>>, k: int)
    requires
        rs.len() == ans.len() + 1,
        forall|j: int| 0 <= j < ans.len() ==> #[trigger] rs[j].next_step(ans[j], &rs[j + 1]),
        0 <= k < rs.len(),
    ensures
        rs[k].first_index() + rs[k].size() == rs[0].first_index() + rs[0].size(),
        rs[k].size() == if k < rs[0].size() {
            rs[0].size() - k
        } else {
            0
        },
    decreases k,
{
    if k > 0 {
        let j = k - 1;
        range_after_steps(rs, ans, j);
        assert(rs[j].next_step(ans[j], &rs[j + 1]));
    }
}

/// Calling `next` again and again on a range hands out its handles in index order, one
/// per call, and `None` on every call after the last one. Before the `k`-th call the end
/// of the range is where it was at the start and `max(size - k, 0)` handles are left, so
/// the range is empty exactly from the call that took its last handle on.
pub proof fn law_range_walk<K: Handle>(rs: Seq<HandleRange<K>>, ans: Seq<Option<K>>)
    requires
        rs.len() == ans.len() + 1,
        forall|k: int| 0 <= k < ans.len() ==> #[trigger] rs[k].next_step(ans[k], &rs[k + 1]),
    ensures
        forall|k: int|
            0 <= k < rs.len() ==> #[trigger] rs[k].first_index() + rs[k].size() == rs[0].first_index()
                + rs[0].size(),
        forall|k: int|
            0 <= k < rs.len() ==> #[trigger] rs[k].size() == if k < rs[0].size() {
                rs[0].size() - k
            } else {
                0
            },
        forall|k: int| 0 <= k < ans.len() ==> (#[trigger] ans[k] is Some <==> k < rs[0].size()),
        forall|k: int|
            0 <= k < ans.len() && k < rs[0].size() ==> (#[trigger] ans[k])->Some_0.spec_index()
                == rs[0].first_index() + k,
{
    assert forall|k: int| 0 <= k < rs.len() implies #[trigger] rs[k].first_index() + rs[k].size()
        == rs[0].first_index() + rs[0].size() by {
        range_after_steps(rs, ans, k);
    }
    assert forall|k: int| 0 <= k < rs.len() implies #[trigger] rs[k].size() == if k < rs[0].size() {
        rs[0].size() - k
    } else {
        0
    } by {
        range_after_steps(rs, ans, k);
    }
    assert forall|k: int| 0 <= k < ans.len() implies (#[trigger] ans[k] is Some <==> k < rs[0].size())
        && (k < rs[0].size() ==> ans[k]->Some_0.spec_index() == rs[0].first_index() + k) by {
        range_after_steps(rs, ans, k);
        assert(rs[k].next_step(ans[k], &rs[k + 1]));
    }
}

// ---------------------------------------------------------------- packed options

/// Packing an option and expanding it again gives the option back, as long as the value
/// it holds is not the reserved one.
pub proof fn law_pack_roundtrip<T: ReservedValue>(opt: Option<T>)
    requires
        opt matches Some(t) ==> !t.spec_is_reserved(),
    ensures
        match opt {
            Some(t) => unpacked(t),
            None => None,
        } == opt,
{
}

/// Packing again the value that `unwrap` (or `expand`) took out of a packed `Some` gives
/// that same packed option back: `p` held `t`, and `q` is what `from(t)` returned.
pub proof fn law_repack_unwrapped<T: ReservedValue>(p: PackedOption<T>, t: T, q: PackedOption<T>)
    requires
        p@ == Some(t),
        !t.spec_is_reserved() ==> q@ == Some(t),
    ensures
        !t.spec_is_reserved(),
        q == p,
{
    p.lemma_some_not_reserved();
    p.lemma_some_determines(&q);
}

// ---------------------------------------------------------------- array lists

/// Popping right after `add_last(e)` returns `e` and gives back the list as it was
/// before the append.
pub proof fn law_pop_after_add_last<E, const N: usize>(
    before: StaticArrayList<E, N>,
    added: StaticArrayList<E, N>,
    after: StaticArrayList<E, N>,
    e: E,
    popped: Option<E>,
)
    requires
        added@ == before@.push(e),
        added.pop_step(popped, &after),
    ensures
        popped == Some(e),
        after@ == before@,
{
    assert(before@.push(e).drop_last() =~= before@);
}

/// Removing at the index that `add(i, e)` just inserted at returns `e` and gives back the
/// list as it was before the insertion.
pub proof fn law_remove_after_add<E, const N: usize>(
    before: StaticArrayList<E, N>,
    added: StaticArrayList<E, N>,
    after: StaticArrayList<E, N>,
    i: int,
    e: E,
    removed: E,
)
    requires
        0 <= i <= before@.len(),
        added@ == before@.insert(i, e),
        removed == added@[i],
        after@ == added@.remove(i),
    ensures
        removed == e,
        after@ == before@,
{
    assert(before@.insert(i, e).remove(i) =~= before@);
}

} // verus!
