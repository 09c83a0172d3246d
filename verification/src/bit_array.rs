use vstd::prelude::*;

use crate::word::{Word, count_true};
use vstd::arithmetic::div_mod::{lemma_fundamental_div_mod, lemma_fundamental_div_mod_converse};

verus! {

/// The width of one word, as an integer.
pub open spec fn word_bits<W: Word>() -> int {
    W::spec_bits() as int
}

/// Bit `i` of the bit string held in `ws`: word `k` holds the positions
/// `k * bits .. (k + 1) * bits`, lowest position in bit 0.
pub open spec fn seq_bit<W: Word>(ws: Seq<W>, i: int) -> bool {
    0 <= i < ws.len() * word_bits::<W>() && ws[i / word_bits::<W>()].bit(i % word_bits::<W>())
}

/// The set of positions that are set in `ws`.
pub open spec fn bits_of<W: Word>(ws: Seq<W>) -> Set<int> {
    Set::new(|i: int| seq_bit(ws, i))
}

/// How `update_bit` changes one position.
#[derive(PartialEq, Eq, Structural, Clone, Copy)]
pub enum BitUpdate {
    Insert,
    Remove,
    Toggle,
}

/// How `combine` merges two bit strings position by position.
#[derive(PartialEq, Eq, Structural, Clone, Copy)]
pub enum Merge {
    Union,
    Intersection,
    SymmetricDifference,
}

/// The membership of a position after `update` when it was `was` before.
pub open spec fn updated(update: BitUpdate, was: bool) -> bool {
    match update {
        BitUpdate::Insert => true,
        BitUpdate::Remove => false,
        BitUpdate::Toggle => !was,
    }
}

/// The membership of a position after merging memberships `a` and `b` with `merge`.
pub open spec fn merged(merge: Merge, a: bool, b: bool) -> bool {
    match merge {
        Merge::Union => a || b,
        Merge::Intersection => a && b,
        Merge::SymmetricDifference => a != b,
    }
}

/// `s` with the membership of `b` flipped.
pub open spec fn toggled(s: Set<int>, b: int) -> Set<int> {
    if s.contains(b) {
        s.remove(b)
    } else {
        s.insert(b)
    }
}

/// The positions `0..n`.
pub open spec fn full_range(n: int) -> Set<int> {
    Set::new(|i: int| 0 <= i < n)
}

/// `r` is the least position `i` in `lo..hi` with `p(i)`, or `None` when no such position exists.
pub open spec fn is_least_in(p: spec_fn(int) -> bool, lo: int, hi: int, r: Option<usize>) -> bool {
    match r {
        Some(i) => lo <= i < hi && p(i as int) && forall|j: int| lo <= j < i ==> !#[trigger] p(j),
        None => forall|j: int| lo <= j < hi ==> !#[trigger] p(j),
    }
}

/// `r` is the greatest position `i` in `lo..hi` with `p(i)`, or `None` when no such position exists.
pub open spec fn is_greatest_in(p: spec_fn(int) -> bool, lo: int, hi: int, r: Option<usize>) -> bool {
    match r {
        Some(i) => lo <= i < hi && p(i as int) && forall|j: int| i < j < hi ==> !#[trigger] p(j),
        None => forall|j: int| lo <= j < hi ==> !#[trigger] p(j),
    }
}

/// Where a walk over positions goes on after the answer `prev`: just past it, or from 0
/// when there was none.
pub open spec fn resume_at(prev: Option<usize>) -> int {
    match prev {
        Some(p) => p + 1,
        None => 0,
    }
}

/// `rs` are the answers of searches run one after another for the members of `s` below
/// `cap`, each one starting where the one before left off.
pub open spec fn is_walk(s: Set<int>, cap: int, rs: Seq<Option<usize>>) -> bool {
    forall|k: int|
        0 <= k < rs.len() ==> is_least_in(
            |i: int| s.contains(i),
            resume_at(
                if k == 0 {
                    None
                } else {
                    rs[k - 1]
                },
            ),
            cap,
            #[trigger] rs[k],
        )
}

/// The answers `rs` list the members of `s`, below `cap`, in ascending order and each
/// once, and then say `None`: the answer at index `s.len()` is the first `None`, every
/// member is one of the answers before it, and the last of them is the greatest member.
pub open spec fn lists_members(s: Set<int>, cap: int, rs: Seq<Option<usize>>) -> bool {
    &&& forall|k: int| 0 <= k < rs.len() && k <= s.len() ==> (#[trigger] rs[k] is Some <==> k < s.len())
    &&& forall|i: int, j: int|
        0 <= i < j < rs.len() && j < s.len() ==> (#[trigger] rs[i])->Some_0 < (#[trigger] rs[j])->Some_0
    &&& forall|k: int| 0 <= k < rs.len() && k < s.len() ==> s.contains((#[trigger] rs[k])->Some_0 as int)
    &&& rs.len() > s.len() ==> forall|x: int|
        #[trigger] s.contains(x) ==> exists|k: int| 0 <= k < s.len() && #[trigger] rs[k] == Some(x as usize)
    &&& rs.len() > s.len() ==> is_greatest_in(
        |i: int| s.contains(i),
        0,
        cap,
        if s.len() == 0 {
            None
        } else {
            rs[s.len() - 1]
        },
    )
}

/// Positions `k * b + t` with `t < b` are laid out word after word.
pub proof fn lemma_word_layout(k: int, t: int, n: int, b: int)
    by (nonlinear_arith)
    requires
        0 <= k < n,
        0 <= t < b,
    ensures
        0 <= k * b <= k * b + t < k * b + b == (k + 1) * b <= n * b,
        k * b == b * k,
{
}

/// A position at or past `n * b` lies in word `n` or later.
pub proof fn lemma_beyond_words(i: int, n: int, b: int)
    requires
        i >= n * b,
        n >= 0,
        b > 0,
    ensures
        i / b >= n,
{
    lemma_fundamental_div_mod(i, b);
    assert(i / b >= n) by (nonlinear_arith)
        requires
            i >= n * b,
            i == b * (i / b) + i % b,
            0 <= i % b < b,
            b > 0,
    ;
}

/// Position `k * bits + t` is bit `t` of word `k`.
pub proof fn lemma_bit_at<W: Word>(ws: Seq<W>, k: int, t: int)
    requires
        0 <= k < ws.len(),
        0 <= t < word_bits::<W>(),
    ensures
        seq_bit(ws, k * word_bits::<W>() + t) == ws[k].bit(t),
        0 <= k * word_bits::<W>() + t < ws.len() * word_bits::<W>(),
{
    let b = word_bits::<W>();
    lemma_word_layout(k, t, ws.len() as int, b);
    lemma_fundamental_div_mod_converse(k * b + t, b, k, t);
}

/// Every position in range is bit `i % bits` of word `i / bits`.
pub proof fn lemma_split_position<W: Word>(ws: Seq<W>, i: int)
    requires
        0 <= i < ws.len() * word_bits::<W>(),
    ensures
        0 <= i / word_bits::<W>() < ws.len(),
        0 <= i % word_bits::<W>() < word_bits::<W>(),
        i == (i / word_bits::<W>()) * word_bits::<W>() + i % word_bits::<W>(),
{
    let b = word_bits::<W>();
    W::lemma_width();
    lemma_fundamental_div_mod(i, b);
    assert(0 <= i / b < ws.len()) by (nonlinear_arith)
        requires
            0 <= i < ws.len() * b,
            b > 0,
            i == b * (i / b) + i % b,
            0 <= i % b < b,
    ;
    assert(i == (i / b) * b + i % b) by (nonlinear_arith)
        requires
            i == b * (i / b) + i % b,
    ;
}

/// Replacing word `k` changes only the positions of word `k`.
pub proof fn lemma_update_word<W: Word>(ws: Seq<W>, k: int, w: W, i: int)
    requires
        0 <= k < ws.len(),
    ensures
        seq_bit(ws.update(k, w), i) == if 0 <= i < ws.len() * word_bits::<W>() && i
            / word_bits::<W>() == k {
            w.bit(i % word_bits::<W>())
        } else {
            seq_bit(ws, i)
        },
{
    if 0 <= i < ws.len() * word_bits::<W>() {
        lemma_split_position(ws, i);
    }
}

/// Two positions inside one word coincide exactly when their offsets do.
pub proof fn lemma_same_word<W: Word>(ws: Seq<W>, i: int, k: int, t: int)
    requires
        0 <= k < ws.len(),
        0 <= t < word_bits::<W>(),
        0 <= i < ws.len() * word_bits::<W>(),
        i / word_bits::<W>() == k,
    ensures
        (i % word_bits::<W>() == t) <==> (i == k * word_bits::<W>() + t),
{
    lemma_split_position(ws, i);
    lemma_bit_at(ws, k, t);
    if i == k * word_bits::<W>() + t {
        lemma_fundamental_div_mod_converse(i, word_bits::<W>(), k, t);
    }
}

/// The positions `0..m` satisfying `p` form a finite set of `count_true(p, m)` elements.
pub proof fn lemma_count_true_set(p: spec_fn(int) -> bool, m: int)
    requires
        m >= 0,
    ensures
        Set::new(|i: int| 0 <= i < m && p(i)).finite(),
        Set::new(|i: int| 0 <= i < m && p(i)).len() == count_true(p, m),
    decreases m,
{
    let s1 = Set::new(|i: int| 0 <= i < m && p(i));
    if m == 0 {
        assert(s1 =~= Set::empty());
    } else {
        lemma_count_true_set(p, m - 1);
        let s0 = Set::new(|i: int| 0 <= i < m - 1 && p(i));
        if p(m - 1) {
            assert(s1 =~= s0.insert(m - 1));
        } else {
            assert(s1 =~= s0);
        }
    }
}

/// `count_true` never exceeds the length of the range it counts over.
pub proof fn lemma_count_true_bound(p: spec_fn(int) -> bool, m: int)
    requires
        m >= 0,
    ensures
        count_true(p, m) <= m,
    decreases m,
{
    if m > 0 {
        lemma_count_true_bound(p, m - 1);
    }
}

/// Counting the positions of word `k` one offset at a time.
pub proof fn lemma_count_word<W: Word>(ws: Seq<W>, k: int, t: int)
    requires
        0 <= k < ws.len(),
        0 <= t <= word_bits::<W>(),
    ensures
        count_true(|i: int| seq_bit(ws, i), k * word_bits::<W>() + t) == count_true(
            |i: int| seq_bit(ws, i),
            k * word_bits::<W>(),
        ) + count_true(|i: int| ws[k].bit(i), t),
    decreases t,
{
    if t > 0 {
        lemma_count_word(ws, k, t - 1);
        lemma_bit_at(ws, k, t - 1);
        let b = word_bits::<W>();
        assert(k * b + t - 1 == k * b + (t - 1));
    }
}

/// The set of positions of `ws` has as many elements as `count_true` counts.
pub proof fn lemma_bits_len<W: Word>(ws: Seq<W>)
    ensures
        bits_of(ws).finite(),
        bits_of(ws).len() == count_true(|i: int| seq_bit(ws, i), ws.len() * word_bits::<W>()),
{
    let m = ws.len() * word_bits::<W>();
    let p = |i: int| seq_bit(ws, i);
    assert(m >= 0) by (nonlinear_arith)
        requires
            m == ws.len() * word_bits::<W>(),
            ws.len() >= 0,
            word_bits::<W>() >= 0,
    ;
    lemma_count_true_set(p, m);
    assert(Set::new(|i: int| 0 <= i < m && p(i)) =~= bits_of(ws));
}

/// Whether `bit` is set.
pub fn contains<W: Word, const N: usize>(data: &[W; N], bit: usize) -> (r: bool)
    requires
        bit < N * W::spec_bits(),
    ensures
        r == seq_bit(data@, bit as int),
{
    let b = W::bits();
    proof {
        W::lemma_width();
        lemma_split_position(data@, bit as int);
    }
    let word_idx = bit / b;
    let bit_index = (bit % b) as u32;
    let mask = W::one().shl(bit_index);
    let hit = data[word_idx].bit_and(mask);
    proof {
        assert(mask.bit(bit_index as int));
        assert(hit.bit(bit_index as int) == data@[word_idx as int].bit(bit_index as int));
        assert forall|j: int| #[trigger] hit.bit(j) implies j == bit_index by {
            assert(mask.bit(j));
        }
    }
    !hit.is_zero()
}

/// Inserts, removes or toggles the position `bit`.
pub fn update_bit<W: Word, const N: usize>(data: &mut [W; N], bit: usize, update: BitUpdate)
    requires
        bit < N * W::spec_bits(),
    ensures
        forall|i: int| #[trigger]
            seq_bit(final(data)@, i) == if i == bit {
                updated(update, seq_bit(old(data)@, i))
            } else {
                seq_bit(old(data)@, i)
            },
{
    let b = W::bits();
    proof {
        W::lemma_width();
        lemma_split_position(data@, bit as int);
    }
    let word_idx = bit / b;
    let bit_index = (bit % b) as u32;
    let mask = W::one().shl(bit_index);
    let old_word = data[word_idx];
    let new_word = match update {
        BitUpdate::Insert => old_word.bit_or(mask),
        BitUpdate::Remove => old_word.bit_and(mask.bit_not()),
        BitUpdate::Toggle => old_word.bit_xor(mask),
    };
    data[word_idx] = new_word;
    proof {
        let ws = old(data)@;
        assert(data@ == ws.update(word_idx as int, new_word));
        assert forall|i: int| #[trigger]
            seq_bit(data@, i) == if i == bit {
                updated(update, seq_bit(ws, i))
            } else {
                seq_bit(ws, i)
            } by {
            lemma_update_word(ws, word_idx as int, new_word, i);
            if 0 <= i < ws.len() * word_bits::<W>() && i / word_bits::<W>() == word_idx {
                lemma_same_word(ws, i, word_idx as int, bit_index as int);
                let t = i % word_bits::<W>();
                assert(mask.bit(t) == (t == bit_index));
            }
        }
    }
}


/// The word `w` as seen by a search for positions whose membership is `v`:
/// `w` itself when looking for set positions, its complement otherwise.
fn oriented<W: Word>(w: W, v: bool) -> (r: W)
    ensures
        forall|t: int| #[trigger] r.bit(t) == (0 <= t < word_bits::<W>() && (w.bit(t) == v)),
{
    proof {
        W::lemma_bit_range(w);
    }
    if v {
        w
    } else {
        w.bit_not()
    }
}

/// The least position whose membership is `v`.
pub fn first_match<W: Word, const N: usize>(data: &[W; N], v: bool) -> (r: Option<usize>)
    requires
        N * W::spec_bits() <= usize::MAX,
    ensures
        is_least_in(|i: int| seq_bit(data@, i) == v, 0, N * word_bits::<W>(), r),
{
    let b = W::bits();
    let ghost bb = word_bits::<W>();
    proof {
        W::lemma_width();
    }
    let mut k: usize = 0;
    while k < N
        invariant
            k <= N,
            b == bb,
            bb == word_bits::<W>(),
            8 <= bb <= 128,
            N * bb <= usize::MAX,
            forall|j: int| 0 <= j < k * bb ==> #[trigger] seq_bit(data@, j) != v,
        decreases N - k,
    {
        let w = oriented(data[k], v);
        let tz = w.trailing_zeros();
        proof {
            lemma_word_layout(k as int, 0, N as int, bb);
        }
        if (tz as usize) < b {
            proof {
                lemma_word_layout(k as int, tz as int, N as int, bb);
                lemma_bit_at(data@, k as int, tz as int);
                assert forall|j: int| 0 <= j < k * bb + tz implies #[trigger] seq_bit(data@, j) != v by {
                    if j >= k * bb {
                        lemma_bit_at(data@, k as int, j - k * bb);
                        assert(!w.bit(j - k * bb));
                    }
                }
            }
            return Some(b * k + tz as usize);
        }
        proof {
            assert forall|j: int| 0 <= j < (k + 1) * bb implies #[trigger] seq_bit(data@, j) != v by {
                if j >= k * bb {
                    lemma_bit_at(data@, k as int, j - k * bb);
                    assert(!w.bit(j - k * bb));
                }
            }
        }
        k = k + 1;
    }
    None
}

/// The greatest position whose membership is `v`.
pub fn last_match<W: Word, const N: usize>(data: &[W; N], v: bool) -> (r: Option<usize>)
    requires
        N * W::spec_bits() <= usize::MAX,
    ensures
        is_greatest_in(|i: int| seq_bit(data@, i) == v, 0, N * word_bits::<W>(), r),
{
    let b = W::bits();
    let ghost bb = word_bits::<W>();
    proof {
        W::lemma_width();
    }
    let mut k: usize = N;
    while k > 0
        invariant
            k <= N,
            b == bb,
            bb == word_bits::<W>(),
            8 <= bb <= 128,
            N * bb <= usize::MAX,
            forall|j: int| k * bb <= j < N * bb ==> #[trigger] seq_bit(data@, j) != v,
        decreases k,
    {
        let idx = k - 1;
        let w = oriented(data[idx], v);
        let lz = w.leading_zeros();
        proof {
            lemma_word_layout(idx as int, 0, N as int, bb);
        }
        if (lz as usize) < b {
            let local_pos = b - 1 - lz as usize;
            proof {
                lemma_word_layout(idx as int, local_pos as int, N as int, bb);
                lemma_bit_at(data@, idx as int, local_pos as int);
                assert forall|j: int| idx * bb + local_pos < j < N * bb implies #[trigger] seq_bit(
                    data@,
                    j,
                ) != v by {
                    if j < k * bb {
                        lemma_bit_at(data@, idx as int, j - idx * bb);
                        assert(!w.bit(j - idx * bb));
                    }
                }
            }
            return Some(b * idx + local_pos);
        }
        proof {
            assert forall|j: int| idx * bb <= j < N * bb implies #[trigger] seq_bit(data@, j) != v by {
                if j < k * bb {
                    lemma_bit_at(data@, idx as int, j - idx * bb);
                    assert(!w.bit(j - idx * bb));
                }
            }
        }
        k = idx;
    }
    None
}

/// The least position above `bit` whose membership is `v`.
pub fn first_match_after<W: Word, const N: usize>(data: &[W; N], bit: usize, v: bool) -> (r: Option<
    usize,
>)
    requires
        N * W::spec_bits() <= usize::MAX,
    ensures
        is_least_in(|i: int| seq_bit(data@, i) == v, bit + 1, N * word_bits::<W>(), r),
{
    let b = W::bits();
    let ghost bb = word_bits::<W>();
    proof {
        W::lemma_width();
        if bit < N * bb {
            lemma_split_position(data@, bit as int);
        } else {
            lemma_beyond_words(bit as int, N as int, bb);
        }
    }
    let boundary_idx = bit / b;
    let bit_index = (bit % b) as u32;
    if boundary_idx >= N {
        return None;
    }
    let mask = W::ones().checked_shl(bit_index + 1).unwrap_or(W::zero());
    let masked = oriented(data[boundary_idx], v).bit_and(mask);
    proof {
        assert forall|t: int| #[trigger] mask.bit(t) == (bit_index < t < bb) by {
            W::lemma_bit_range(mask);
        }
    }
    let tz = masked.trailing_zeros();
    proof {
        lemma_word_layout(boundary_idx as int, 0, N as int, bb);
    }
    if (tz as usize) < b {
        proof {
            lemma_word_layout(boundary_idx as int, tz as int, N as int, bb);
            lemma_bit_at(data@, boundary_idx as int, tz as int);
            assert(masked.bit(tz as int));
            assert forall|j: int| bit + 1 <= j < boundary_idx * bb + tz implies #[trigger] seq_bit(
                data@,
                j,
            ) != v by {
                lemma_bit_at(data@, boundary_idx as int, j - boundary_idx * bb);
                assert(!masked.bit(j - boundary_idx * bb));
            }
        }
        return Some(b * boundary_idx + tz as usize);
    }
    proof {
        assert forall|j: int| bit + 1 <= j < (boundary_idx + 1) * bb implies #[trigger] seq_bit(
            data@,
            j,
        ) != v by {
            lemma_bit_at(data@, boundary_idx as int, j - boundary_idx * bb);
            assert(!masked.bit(j - boundary_idx * bb));
        }
    }
    let mut k: usize = boundary_idx + 1;
    while k < N
        invariant
            boundary_idx < k <= N,
            b == bb,
            bb == word_bits::<W>(),
            8 <= bb <= 128,
            N * bb <= usize::MAX,
            bit < k * bb,
            forall|j: int| bit + 1 <= j < k * bb ==> #[trigger] seq_bit(data@, j) != v,
        decreases N - k,
    {
        let w = oriented(data[k], v);
        let tz = w.trailing_zeros();
        proof {
            lemma_word_layout(k as int, 0, N as int, bb);
        }
        if (tz as usize) < b {
            proof {
                lemma_word_layout(k as int, tz as int, N as int, bb);
                lemma_bit_at(data@, k as int, tz as int);
                assert forall|j: int| bit + 1 <= j < k * bb + tz implies #[trigger] seq_bit(data@, j)
                    != v by {
                    if j >= k * bb {
                        lemma_bit_at(data@, k as int, j - k * bb);
                        assert(!w.bit(j - k * bb));
                    }
                }
            }
            return Some(b * k + tz as usize);
        }
        proof {
            assert forall|j: int| bit + 1 <= j < (k + 1) * bb implies #[trigger] seq_bit(data@, j)
                != v by {
                if j >= k * bb {
                    lemma_bit_at(data@, k as int, j - k * bb);
                    assert(!w.bit(j - k * bb));
                }
            }
        }
        k = k + 1;
    }
    None
}

/// The greatest position below `bit` whose membership is `v`.
pub fn last_match_before<W: Word, const N: usize>(data: &[W; N], bit: usize, v: bool) -> (r: Option<
    usize,
>)
    requires
        N * W::spec_bits() <= usize::MAX,
    ensures
        is_greatest_in(
            |i: int| seq_bit(data@, i) == v,
            0,
            if bit < N * word_bits::<W>() {
                bit as int
            } else {
                N * word_bits::<W>()
            },
            r,
        ),
{
    let b = W::bits();
    let ghost bb = word_bits::<W>();
    let ghost hi = if bit < N * bb {
        bit as int
    } else {
        N * bb
    };
    proof {
        W::lemma_width();
        if bit < N * bb {
            lemma_split_position(data@, bit as int);
        } else {
            lemma_beyond_words(bit as int, N as int, bb);
        }
    }
    let word_of_bit = bit / b;
    let boundary_idx = if word_of_bit < N {
        word_of_bit
    } else {
        N
    };
    let bit_index = (bit % b) as u32;
    if boundary_idx < N {
        let mask = W::ones().checked_shr(b as u32 - bit_index).unwrap_or(W::zero());
        let masked = oriented(data[boundary_idx], v).bit_and(mask);
        proof {
            assert forall|t: int| #[trigger] mask.bit(t) == (0 <= t < bit_index) by {
                W::lemma_bit_range(mask);
            }
        }
        let lz = masked.leading_zeros();
        proof {
            lemma_word_layout(boundary_idx as int, 0, N as int, bb);
        }
        if (lz as usize) < b {
            let local_pos = b - 1 - lz as usize;
            proof {
                lemma_word_layout(boundary_idx as int, local_pos as int, N as int, bb);
                lemma_bit_at(data@, boundary_idx as int, local_pos as int);
                assert(masked.bit(local_pos as int));
                assert forall|j: int| boundary_idx * bb + local_pos < j < hi implies #[trigger] seq_bit(
                    data@,
                    j,
                ) != v by {
                    lemma_bit_at(data@, boundary_idx as int, j - boundary_idx * bb);
                    assert(!masked.bit(j - boundary_idx * bb));
                }
            }
            return Some(b * boundary_idx + local_pos);
        }
        proof {
            assert forall|j: int| boundary_idx * bb <= j < hi implies #[trigger] seq_bit(data@, j)
                != v by {
                lemma_bit_at(data@, boundary_idx as int, j - boundary_idx * bb);
                assert(!masked.bit(j - boundary_idx * bb));
            }
        }
    }
    proof {
        if boundary_idx < N {
            lemma_word_layout(boundary_idx as int, (bit % b) as int, N as int, bb);
        }
        assert(boundary_idx * bb <= hi);
    }
    let mut k: usize = boundary_idx;
    while k > 0
        invariant
            k <= boundary_idx <= N,
            b == bb,
            bb == word_bits::<W>(),
            8 <= bb <= 128,
            N * bb <= usize::MAX,
            hi == if bit < N * bb {
                bit as int
            } else {
                N * bb
            },
            k * bb <= hi,
            forall|j: int| k * bb <= j < hi ==> #[trigger] seq_bit(data@, j) != v,
        decreases k,
    {
        let idx = k - 1;
        let w = oriented(data[idx], v);
        let lz = w.leading_zeros();
        proof {
            lemma_word_layout(idx as int, 0, N as int, bb);
        }
        if (lz as usize) < b {
            let local_pos = b - 1 - lz as usize;
            proof {
                lemma_word_layout(idx as int, local_pos as int, N as int, bb);
                lemma_bit_at(data@, idx as int, local_pos as int);
                assert forall|j: int| idx * bb + local_pos < j < hi implies #[trigger] seq_bit(
                    data@,
                    j,
                ) != v by {
                    if j < k * bb {
                        lemma_bit_at(data@, idx as int, j - idx * bb);
                        assert(!w.bit(j - idx * bb));
                    }
                }
            }
            return Some(b * idx + local_pos);
        }
        proof {
            assert forall|j: int| idx * bb <= j < hi implies #[trigger] seq_bit(data@, j) != v by {
                if j < k * bb {
                    lemma_bit_at(data@, idx as int, j - idx * bb);
                    assert(!w.bit(j - idx * bb));
                }
            }
        }
        k = idx;
    }
    None
}


/// The number of set positions.
pub fn count<W: Word, const N: usize>(data: &[W; N]) -> (r: usize)
    requires
        N * W::spec_bits() <= usize::MAX,
    ensures
        r == bits_of(data@).len(),
{
    let ghost bb = word_bits::<W>();
    proof {
        W::lemma_width();
    }
    let mut total: usize = 0;
    let mut k: usize = 0;
    while k < N
        invariant
            k <= N,
            bb == word_bits::<W>(),
            8 <= bb <= 128,
            N * bb <= usize::MAX,
            total == count_true(|i: int| seq_bit(data@, i), k * bb),
            total <= k * bb,
        decreases N - k,
    {
        let w = data[k];
        let c = w.count_ones();
        proof {
            lemma_word_layout(k as int, 0, N as int, bb);
            lemma_count_word(data@, k as int, bb);
            assert((|i: int| data@[k as int].bit(i)) =~= (|i: int| w.bit(i)));
            lemma_count_true_bound(|i: int| w.bit(i), bb);
            assert(k * bb + bb == (k + 1) * bb);
        }
        total = total + c as usize;
        k = k + 1;
    }
    proof {
        lemma_bits_len(data@);
    }
    total
}

/// Whether positions `0..n * bits` all have membership `v`.
pub fn all_match<W: Word, const N: usize>(data: &[W; N], v: bool) -> (r: bool)
    ensures
        r == (forall|i: int| 0 <= i < N * word_bits::<W>() ==> #[trigger] seq_bit(data@, i) == v),
{
    let ghost bb = word_bits::<W>();
    proof {
        W::lemma_width();
    }
    let mut k: usize = 0;
    while k < N
        invariant
            k <= N,
            bb == word_bits::<W>(),
            8 <= bb <= 128,
            forall|j: int| 0 <= j < k * bb ==> #[trigger] seq_bit(data@, j) == v,
        decreases N - k,
    {
        let w = oriented(data[k], !v);
        proof {
            lemma_word_layout(k as int, 0, N as int, bb);
        }
        if !w.is_zero() {
            proof {
                let t = choose|t: int| #[trigger] w.bit(t);
                lemma_bit_at(data@, k as int, t);
                lemma_word_layout(k as int, t, N as int, bb);
            }
            return false;
        }
        proof {
            assert forall|j: int| 0 <= j < (k + 1) * bb implies #[trigger] seq_bit(data@, j) == v by {
                if j >= k * bb {
                    lemma_bit_at(data@, k as int, j - k * bb);
                    assert(!w.bit(j - k * bb));
                }
            }
        }
        k = k + 1;
    }
    true
}

/// Gives every position membership `v`.
pub fn set_all<W: Word, const N: usize>(data: &mut [W; N], v: bool)
    ensures
        forall|i: int| #[trigger]
            seq_bit(final(data)@, i) == (0 <= i < N * word_bits::<W>() && v),
{
    let fill = if v {
        W::ones()
    } else {
        W::zero()
    };
    let mut k: usize = 0;
    while k < N
        invariant
            k <= N,
            forall|t: int| #[trigger] fill.bit(t) == (0 <= t < word_bits::<W>() && v),
            forall|j: int| 0 <= j < k ==> #[trigger] data@[j] == fill,
        decreases N - k,
    {
        data[k] = fill;
        k = k + 1;
    }
    proof {
        assert forall|i: int| #[trigger]
            seq_bit(data@, i) == (0 <= i < N * word_bits::<W>() && v) by {
            if 0 <= i < N * word_bits::<W>() {
                lemma_split_position(data@, i);
            }
        }
    }
}

/// Merges `rhs` into `data` position by position: union, intersection or symmetric
/// difference.
pub fn combine<W: Word, const N: usize>(data: &mut [W; N], rhs: &[W; N], merge: Merge)
    ensures
        forall|i: int| #[trigger]
            seq_bit(final(data)@, i) == merged(merge, seq_bit(old(data)@, i), seq_bit(rhs@, i)),
{
    let ghost before = data@;
    let mut k: usize = 0;
    while k < N
        invariant
            k <= N,
            data@.len() == N,
            forall|j: int| k <= j < N ==> #[trigger] data@[j] == before[j],
            forall|j: int, t: int|
                0 <= j < k ==> #[trigger] data@[j].bit(t) == merged(
                    merge,
                    before[j].bit(t),
                    rhs@[j].bit(t),
                ),
        decreases N - k,
    {
        let w = data[k];
        let other = rhs[k];
        let combined = match merge {
            Merge::Union => w.bit_or(other),
            Merge::Intersection => w.bit_and(other),
            Merge::SymmetricDifference => w.bit_xor(other),
        };
        data[k] = combined;
        k = k + 1;
    }
    proof {
        assert forall|i: int| #[trigger]
            seq_bit(data@, i) == merged(merge, seq_bit(before, i), seq_bit(rhs@, i)) by {
            if 0 <= i < N * word_bits::<W>() {
                lemma_split_position(data@, i);
                let j = i / word_bits::<W>();
                let t = i % word_bits::<W>();
                assert(data@[j].bit(t) == merged(merge, before[j].bit(t), rhs@[j].bit(t)));
            }
        }
    }
}

/// Flips every position.
pub fn complement<W: Word, const N: usize>(data: &mut [W; N])
    ensures
        forall|i: int| #[trigger]
            seq_bit(final(data)@, i) == (0 <= i < N * word_bits::<W>() && !seq_bit(old(data)@, i)),
{
    let ghost before = data@;
    let mut k: usize = 0;
    while k < N
        invariant
            k <= N,
            data@.len() == N,
            forall|j: int| k <= j < N ==> #[trigger] data@[j] == before[j],
            forall|j: int, t: int|
                0 <= j < k ==> #[trigger] data@[j].bit(t) == (0 <= t < word_bits::<W>()
                    && !before[j].bit(t)),
        decreases N - k,
    {
        let w = data[k];
        data[k] = w.bit_not();
        k = k + 1;
    }
    proof {
        assert forall|i: int| #[trigger]
            seq_bit(data@, i) == (0 <= i < N * word_bits::<W>() && !seq_bit(before, i)) by {
            if 0 <= i < N * word_bits::<W>() {
                lemma_split_position(data@, i);
            }
        }
    }
}


/// Whether `a` and `b` hold the same positions.
pub fn same_bits<W: Word, const N: usize>(a: &[W; N], b: &[W; N]) -> (r: bool)
    ensures
        r == (forall|i: int| #[trigger] seq_bit(a@, i) == seq_bit(b@, i)),
{
    let ghost bb = word_bits::<W>();
    proof {
        W::lemma_width();
    }
    let mut k: usize = 0;
    while k < N
        invariant
            k <= N,
            bb == word_bits::<W>(),
            8 <= bb <= 128,
            forall|j: int, t: int| 0 <= j < k ==> #[trigger] a@[j].bit(t) == b@[j].bit(t),
        decreases N - k,
    {
        let diff = a[k].bit_xor(b[k]);
        if !diff.is_zero() {
            proof {
                let t = choose|t: int| #[trigger] diff.bit(t);
                W::lemma_bit_range(diff);
                lemma_bit_at(a@, k as int, t);
                lemma_bit_at(b@, k as int, t);
                assert(seq_bit(a@, k * bb + t) != seq_bit(b@, k * bb + t));
            }
            return false;
        }
        proof {
            assert forall|t: int| #[trigger] a@[k as int].bit(t) == b@[k as int].bit(t) by {
                assert(!diff.bit(t));
            }
        }
        k = k + 1;
    }
    proof {
        assert forall|i: int| #[trigger] seq_bit(a@, i) == seq_bit(b@, i) by {
            if 0 <= i < N * bb {
                lemma_split_position(a@, i);
                let j = i / bb;
                let t = i % bb;
                assert(a@[j].bit(t) == b@[j].bit(t));
            }
        }
    }
    true
}

} // verus!
