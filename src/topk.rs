//! Bounded top-k selection.
//!
//! Candidates are `(key, index)` pairs; smaller keys are better. Ties on the
//! key are broken by the index, so every call orders its result the same way.
//! The selection keeps a buffer of at most `k` candidates sorted by rank, and
//! a new candidate displaces the worst of a full buffer only when it ranks
//! strictly better.

use vstd::prelude::*;
use vstd::multiset::*;
use vstd::seq_lib::*;

verus! {

broadcast use group_to_multiset_ensures;

/// A candidate of a selection: an order key and the position it refers to.
#[derive(Clone, Copy, Debug, PartialEq, Eq, Structural)]
pub struct ScoreIndex {
    /// Order key of the candidate's score (see `score::order_key`).
    pub key: u32,
    /// Position of the candidate in the sequence it was scored from.
    pub index: usize,
}

/// The rank of a candidate: by key, then by index.
pub open spec fn rank(c: ScoreIndex) -> int {
    c.key as int * 0x1_0000_0000_0000_0000int + c.index as int
}

/// Ranks never decrease along the sequence.
pub open spec fn sorted_by_rank(s: Seq<ScoreIndex>) -> bool {
    forall|i: int, j: int| 0 <= i < j < s.len() ==> rank(s[i]) <= rank(s[j])
}

/// The smaller of two naturals.
pub open spec fn min_nat(a: nat, b: nat) -> nat {
    if a < b {
        a
    } else {
        b
    }
}

/// `r` is a top-k selection of `cands`: sorted by rank, of length
/// `min(k, |cands|)`, drawn from `cands` (as a multiset), and ranking no
/// worse than any candidate left out.
pub open spec fn is_top_k(r: Seq<ScoreIndex>, cands: Seq<ScoreIndex>, k: nat) -> bool {
    &&& sorted_by_rank(r)
    &&& r.len() == min_nat(k, cands.len())
    &&& r.to_multiset().subset_of(cands.to_multiset())
    &&& forall|i: int, y: ScoreIndex|
        0 <= i < r.len() && cands.to_multiset().count(y) > r.to_multiset().count(y) ==> rank(r[i])
            <= rank(y)
}

/// Whether `a` ranks strictly before `b`.
fn ranks_before(a: &ScoreIndex, b: &ScoreIndex) -> (r: bool)
    ensures
        r == (rank(*a) < rank(*b)),
{
    proof {
        let m = 0x1_0000_0000_0000_0000int;
        assert(a.index < m && b.index < m);
        if a.key < b.key {
            assert(a.key as int * m + m <= b.key as int * m) by (nonlinear_arith)
                requires
                    a.key < b.key,
                    m > 0,
            ;
        } else if a.key > b.key {
            assert(b.key as int * m + m <= a.key as int * m) by (nonlinear_arith)
                requires
                    b.key < a.key,
                    m > 0,
            ;
        }
    }
    a.key < b.key || (a.key == b.key && a.index < b.index)
}

/// Inserting `c` where everything before ranks no worse and everything after
/// ranks worse keeps a sequence sorted.
proof fn lemma_insert_sorted(s: Seq<ScoreIndex>, p: int, c: ScoreIndex)
    requires
        sorted_by_rank(s),
        0 <= p <= s.len(),
        forall|j: int| 0 <= j < p ==> rank(s[j]) <= rank(c),
        forall|j: int| p <= j < s.len() ==> rank(c) < rank(s[j]),
    ensures
        sorted_by_rank(s.insert(p, c)),
{
    let t = s.insert(p, c);
    assert forall|i: int, j: int| 0 <= i < j < t.len() implies rank(t[i]) <= rank(t[j]) by {
        if i < p && j < p {
        } else if i < p && j == p {
        } else if i < p {
            assert(t[j] == s[j - 1]);
        } else if i == p {
            assert(t[j] == s[j - 1]);
        } else {
            assert(t[i] == s[i - 1] && t[j] == s[j - 1]);
        }
    }
}

/// Inserts `c` into the sorted buffer, after every candidate of equal rank.
fn insert_sorted(buf: &mut Vec<ScoreIndex>, c: ScoreIndex)
    requires
        sorted_by_rank(old(buf)@),
    ensures
        sorted_by_rank(final(buf)@),
        final(buf)@.to_multiset() == old(buf)@.to_multiset().insert(c),
        final(buf)@.len() == old(buf)@.len() + 1,
        forall|j: int|
            0 <= j < final(buf)@.len() ==> final(buf)@[j] == c || old(buf)@.contains(
                #[trigger] final(buf)@[j],
            ),
{
    let mut p: usize = buf.len();
    while p > 0 && ranks_before(&c, &buf[p - 1])
        invariant
            0 <= p <= buf@.len(),
            buf@ == old(buf)@,
            sorted_by_rank(buf@),
            forall|j: int| p <= j < buf@.len() ==> rank(c) < rank(buf@[j]),
        decreases p,
    {
        p = p - 1;
    }
    proof {
        if p > 0 {
            assert forall|j: int| 0 <= j < p implies rank(buf@[j]) <= rank(c) by {
                assert(rank(buf@[j]) <= rank(buf@[p - 1]));
            }
        }
        lemma_insert_sorted(buf@, p as int, c);
        to_multiset_insert(buf@, p as int, c);
    }
    let ghost before = buf@;
    buf.insert(p, c);
    proof {
        assert forall|j: int| 0 <= j < buf@.len() implies buf@[j] == c || before.contains(
            #[trigger] buf@[j],
        ) by {
            if j < p {
                assert(buf@[j] == before[j]);
            } else if j > p {
                assert(buf@[j] == before[j - 1]);
            }
        }
    }
}

/// The `k` best candidates, best first (ties broken by index).
pub fn select_top_k(candidates: &Vec<ScoreIndex>, k: usize) -> (r: Vec<ScoreIndex>)
    ensures
        is_top_k(r@, candidates@, k as nat),
{
    let mut buf: Vec<ScoreIndex> = Vec::new();
    let ghost mut rest: Multiset<ScoreIndex> = Multiset::empty();
    let mut i: usize = 0;
    while i < candidates.len()
        invariant
            0 <= i <= candidates@.len(),
            sorted_by_rank(buf@),
            buf@.len() == min_nat(k as nat, i as nat),
            buf@.to_multiset().add(rest) == candidates@.subrange(0, i as int).to_multiset(),
            forall|y: ScoreIndex|
                rest.count(y) > 0 ==> forall|j: int|
                    0 <= j < buf@.len() ==> rank(#[trigger] buf@[j]) <= rank(y),
        decreases candidates@.len() - i,
    {
        let c = candidates[i];
        let ghost prefix = candidates@.subrange(0, i as int);
        assert(candidates@.subrange(0, i + 1) == prefix.push(c));
        let ghost old_buf = buf@;
        if buf.len() < k {
            proof {
                assert(rest.len() == 0) by {
                    lemma_multiset_empty_len(rest);
                    assert(buf@.to_multiset().add(rest).len() == prefix.len());
                }
                lemma_multiset_empty_len(rest);
            }
            insert_sorted(&mut buf, c);
            assert(buf@.to_multiset().add(rest) =~= prefix.push(c).to_multiset());
        } else if k > 0 && ranks_before(&c, &buf[buf.len() - 1]) {
            let ghost last = buf@[buf@.len() - 1];
            insert_sorted(&mut buf, c);
            let ghost inserted = buf@;
            let worst = buf.pop();
            proof {
                let w = inserted[inserted.len() - 1];
                assert(worst == Some(w));
                assert(buf@ == inserted.remove(inserted.len() - 1));
                to_multiset_remove(inserted, inserted.len() - 1);
                assert(inserted.to_multiset().count(w) > 0);
                assert forall|j: int| 0 <= j < buf@.len() implies rank(#[trigger] buf@[j])
                    <= rank(w) by {
                    assert(buf@[j] == inserted[j]);
                }
                // the displaced candidate ranks no better than the old worst
                assert(old_buf.contains(last));
                assert(inserted.to_multiset().count(last) > 0);
                let li = choose|li: int| 0 <= li < inserted.len() && inserted[li] == last;
                assert(rank(last) <= rank(w));
                assert forall|y: ScoreIndex| rest.count(y) > 0 implies forall|j: int|
                    0 <= j < buf@.len() ==> rank(#[trigger] buf@[j]) <= rank(y) by {
                    assert forall|j: int| 0 <= j < buf@.len() implies rank(
                        #[trigger] buf@[j],
                    ) <= rank(y) by {
                        assert(buf@[j] == inserted[j]);
                        if inserted[j] != c {
                            assert(old_buf.contains(inserted[j]));
                            let oj = choose|oj: int|
                                0 <= oj < old_buf.len() && old_buf[oj] == inserted[j];
                            assert(rank(old_buf[oj]) <= rank(y));
                        } else {
                            assert(rank(old_buf[old_buf.len() - 1]) <= rank(y));
                        }
                    }
                }
                rest = rest.insert(w);
                assert(buf@.to_multiset().add(rest) =~= prefix.push(c).to_multiset());
            }
        } else {
            proof {
                if k > 0 {
                    assert forall|j: int| 0 <= j < buf@.len() implies rank(#[trigger] buf@[j])
                        <= rank(c) by {
                        assert(rank(buf@[j]) <= rank(buf@[buf@.len() - 1]));
                    }
                }
                rest = rest.insert(c);
                assert(buf@.to_multiset().add(rest) =~= prefix.push(c).to_multiset());
            }
        }
        i = i + 1;
    }
    proof {
        assert(candidates@.subrange(0, i as int) == candidates@);
        let cm = candidates@.to_multiset();
        let bm = buf@.to_multiset();
        assert(bm.subset_of(cm));
        assert forall|j: int, y: ScoreIndex|
            0 <= j < buf@.len() && cm.count(y) > bm.count(y) implies rank(buf@[j]) <= rank(
            y,
        ) by {
            assert(rest.count(y) > 0);
        }
    }
    buf
}

/// A top-k selection, read by score: sorted ascending by key, and no
/// selected candidate has a key strictly greater than a candidate left out.
pub proof fn lemma_top_k_by_key(r: Seq<ScoreIndex>, cands: Seq<ScoreIndex>, k: nat)
    requires
        is_top_k(r, cands, k),
    ensures
        forall|i: int, j: int| 0 <= i < j < r.len() ==> r[i].key <= r[j].key,
        r.len() == min_nat(k, cands.len()),
        forall|i: int, y: ScoreIndex|
            0 <= i < r.len() && cands.to_multiset().count(y) > r.to_multiset().count(y)
                ==> r[i].key <= y.key,
{
    let m = 0x1_0000_0000_0000_0000int;
    assert forall|a: ScoreIndex, b: ScoreIndex| rank(a) <= rank(b) implies a.key <= b.key by {
        if a.key > b.key {
            assert(b.key as int * m + m <= a.key as int * m) by (nonlinear_arith)
                requires
                    b.key < a.key,
                    m > 0,
            ;
        }
    }
}

} // verus!
