use vstd::prelude::*;
use crate::nodes::node::{entries_view, Node, NodeV};
use crate::text::lex_lt;

verus! {

broadcast use vstd::std_specs::vec::group_vec_axioms;

// ---------------------------------------------------------------------------
// The sorted order of dictionary keys
// ---------------------------------------------------------------------------

/// The key of the entry at `i`, or the empty key out of range.
pub open spec fn ekey(d: Seq<(Seq<char>, NodeV)>, i: int) -> Seq<char> {
    if 0 <= i < d.len() {
        d[i].0
    } else {
        Seq::empty()
    }
}

/// The position in `idxs` of the first entry with the least key.
pub open spec fn idx_min(d: Seq<(Seq<char>, NodeV)>, idxs: Seq<int>) -> int
    decreases idxs.len(),
{
    if idxs.len() <= 1 {
        0
    } else {
        let q = 1 + idx_min(d, idxs.drop_first());
        if 1 <= q < idxs.len() && lex_lt(ekey(d, idxs[q]), ekey(d, idxs[0])) {
            q
        } else {
            0
        }
    }
}

/// The indices of `idxs` rearranged so that their keys ascend, the first
/// of equal keys first.
pub open spec fn sort_idx(d: Seq<(Seq<char>, NodeV)>, idxs: Seq<int>) -> Seq<int>
    decreases idxs.len(),
{
    if idxs.len() == 0 {
        Seq::empty()
    } else {
        let p = idx_min(d, idxs);
        if 0 <= p < idxs.len() {
            seq![idxs[p]] + sort_idx(d, idxs.remove(p))
        } else {
            // cannot occur: the least position is always in range
            idxs
        }
    }
}

/// The integers `0` to `n - 1`, in order.
pub open spec fn iota(n: int) -> Seq<int> {
    Seq::new(if n >= 0 {
        n as nat
    } else {
        0
    }, |i: int| i)
}

/// The order in which the encoder walks a dictionary: all entries, keys
/// ascending.
pub open spec fn sort_order(d: Seq<(Seq<char>, NodeV)>) -> Seq<int> {
    sort_idx(d, iota(d.len() as int))
}

/// Sorting the positions keeps their count.
pub proof fn lemma_sort_idx_len(d: Seq<(Seq<char>, NodeV)>, idxs: Seq<int>)
    ensures
        sort_idx(d, idxs).len() == idxs.len(),
    decreases idxs.len(),
{
    if idxs.len() > 0 {
        lemma_idx_min(d, idxs);
        let p = idx_min(d, idxs);
        lemma_sort_idx_len(d, idxs.remove(p));
    }
}

/// What [`idx_min`] finds: a position in range whose key no other position
/// undercuts, and that strictly undercuts every earlier position.
pub proof fn lemma_idx_min(d: Seq<(Seq<char>, NodeV)>, idxs: Seq<int>)
    requires
        idxs.len() >= 1,
    ensures
        0 <= idx_min(d, idxs) < idxs.len(),
        forall|j: int|
            0 <= j < idxs.len() ==> !lex_lt(
                ekey(d, #[trigger] idxs[j]),
                ekey(d, idxs[idx_min(d, idxs)]),
            ),
        forall|j: int|
            0 <= j < idx_min(d, idxs) ==> lex_lt(
                ekey(d, idxs[idx_min(d, idxs)]),
                ekey(d, #[trigger] idxs[j]),
            ),
    decreases idxs.len(),
{
    crate::text::lemma_lex_asym(ekey(d, idxs[idx_min(d, idxs)]), ekey(d, idxs[idx_min(d, idxs)]));
    if idxs.len() > 1 {
        lemma_idx_min(d, idxs.drop_first());
        let pt = idx_min(d, idxs.drop_first());
        let q = 1 + pt;
        assert(forall|j: int| 0 <= j < idxs.drop_first().len() ==> idxs.drop_first()[j] == idxs[j
            + 1]);
        let kq = ekey(d, idxs[q]);
        let k0 = ekey(d, idxs[0]);
        assert(idxs.drop_first()[pt] == idxs[q]);
        if lex_lt(kq, k0) {
            assert(idx_min(d, idxs) == q);
            assert forall|j: int| 0 <= j < idxs.len() implies !lex_lt(
                ekey(d, #[trigger] idxs[j]),
                kq,
            ) by {
                if j == 0 {
                    crate::text::lemma_lex_asym(kq, k0);
                } else {
                    assert(idxs[j] == idxs.drop_first()[j - 1]);
                }
            }
            assert forall|j: int| 0 <= j < q implies lex_lt(kq, ekey(d, #[trigger] idxs[j])) by {
                if j > 0 {
                    assert(idxs[j] == idxs.drop_first()[j - 1]);
                    let kj = ekey(d, idxs[j]);
                    assert(!lex_lt(kj, kq));
                    if j - 1 < pt {
                        assert(lex_lt(kq, kj));
                    } else {
                        assert(j - 1 == pt || pt < j - 1);
                        if j - 1 == pt {
                        } else {
                            assert(lex_lt(kq, kj));
                        }
                    }
                }
            }
        } else {
            assert(idx_min(d, idxs) == 0);
            assert forall|j: int| 0 <= j < idxs.len() implies !lex_lt(
                ekey(d, #[trigger] idxs[j]),
                k0,
            ) by {
                if j > 0 {
                    assert(idxs[j] == idxs.drop_first()[j - 1]);
                    let kj = ekey(d, idxs[j]);
                    assert(!lex_lt(kj, kq));
                    if lex_lt(kj, k0) {
                        crate::text::lemma_lex_connex(kq, k0);
                        if lex_lt(kq, k0) {
                            assert(false);
                        } else if lex_lt(k0, kq) {
                            crate::text::lemma_lex_trans(kj, k0, kq);
                            assert(false);
                        } else {
                            assert(kq == k0);
                            assert(false);
                        }
                    }
                }
            }
        }
    }
}

/// Two positions that both come first with the least key are one.
pub proof fn lemma_first_min_unique(d: Seq<(Seq<char>, NodeV)>, idxs: Seq<int>, p1: int, p2: int)
    requires
        0 <= p1 < idxs.len(),
        0 <= p2 < idxs.len(),
        forall|j: int| 0 <= j < idxs.len() ==> !lex_lt(ekey(d, #[trigger] idxs[j]), ekey(d, idxs[p1])),
        forall|j: int| 0 <= j < p1 ==> lex_lt(ekey(d, idxs[p1]), ekey(d, #[trigger] idxs[j])),
        forall|j: int| 0 <= j < idxs.len() ==> !lex_lt(ekey(d, #[trigger] idxs[j]), ekey(d, idxs[p2])),
        forall|j: int| 0 <= j < p2 ==> lex_lt(ekey(d, idxs[p2]), ekey(d, #[trigger] idxs[j])),
    ensures
        p1 == p2,
{
    if p1 < p2 {
        assert(lex_lt(ekey(d, idxs[p2]), ekey(d, idxs[p1])));
        assert(!lex_lt(ekey(d, idxs[p2]), ekey(d, idxs[p1])));
    } else if p2 < p1 {
        assert(lex_lt(ekey(d, idxs[p1]), ekey(d, idxs[p2])));
        assert(!lex_lt(ekey(d, idxs[p1]), ekey(d, idxs[p2])));
    }
}


/// Rearranges the positions of the entry list so that their keys ascend,
/// the first of equal keys first, as [`sort_order`] says.
#[verifier::loop_isolation(false)]
#[verifier::rlimit(100)]
pub(crate) fn sorted_positions(entries: &Vec<(String, Node)>) -> (r: Vec<usize>)
    ensures
        r@.len() == sort_order(entries_view(entries@)).len(),
        forall|p: int|
            0 <= p < r@.len() ==> (#[trigger] r@[p]) < entries@.len() && r@[p] as int
                == sort_order(entries_view(entries@))[p],
{
    let ghost ev = entries_view(entries@);
    let n = entries.len();
    let mut work: Vec<usize> = Vec::new();
    let mut i: usize = 0;
    while i < n
        invariant
            i <= n,
            n == entries@.len(),
            work@.len() == i,
            forall|p: int| 0 <= p < i ==> (#[trigger] work@[p]) == p,
        decreases n - i,
    {
        work.push(i);
        i = i + 1;
    }
    let ghost widx0 = Seq::new(n as nat, |p: int| p);
    proof {
        assert(iota(ev.len() as int) =~= widx0);
    }
    let mut out: Vec<usize> = Vec::new();
    let ghost mut widx = widx0;
    proof {
        lemma_sort_idx_len(ev, widx0);
        assert(sort_order(ev) == sort_idx(ev, widx0));
        assert(sort_idx(ev, widx0).skip(0) =~= sort_idx(ev, widx0));
    }
    while work.len() > 0
        invariant
            widx.len() == work@.len(),
            forall|p: int| 0 <= p < work@.len() ==> (#[trigger] work@[p]) as int == widx[p],
            forall|p: int| 0 <= p < work@.len() ==> (#[trigger] work@[p]) < entries@.len(),
            out@.len() + work@.len() == sort_order(ev).len(),
            forall|p: int|
                0 <= p < out@.len() ==> (#[trigger] out@[p]) < entries@.len() && out@[p] as int
                    == sort_order(ev)[p],
            sort_order(ev).skip(out@.len() as int) == sort_idx(ev, widx),
        decreases work@.len(),
    {
        proof {
            crate::text::lemma_lex_asym(ekey(ev, widx[0]), ekey(ev, widx[0]));
        }
        let mut best: usize = 0;
        let mut j: usize = 1;
        while j < work.len()
            invariant
                best < j <= work@.len(),
                forall|q: int|
                    0 <= q < j ==> !lex_lt(
                        ekey(ev, widx[q]),
                        ekey(ev, widx[best as int]),
                    ),
                forall|q: int|
                    0 <= q < best ==> lex_lt(
                        ekey(ev, widx[best as int]),
                        ekey(ev, #[trigger] widx[q]),
                    ),
            decreases work@.len() - j,
        {
            let a = &entries[work[j]].0;
            let b = &entries[work[best]].0;
            if crate::text::str_lt(a.as_str(), b.as_str()) {
                proof {
                    assert(ekey(ev, widx[j as int]) == a@);
                    assert(ekey(ev, widx[best as int]) == b@);
                    crate::text::lemma_lex_asym(a@, a@);
                    assert forall|q: int| 0 <= q < j implies lex_lt(
                        ekey(ev, widx[j as int]),
                        ekey(ev, #[trigger] widx[q]),
                    ) && !lex_lt(ekey(ev, widx[q]), ekey(ev, widx[j as int])) by {
                        let kq = ekey(ev, widx[q]);
                        let kb = ekey(ev, widx[best as int]);
                        let kj = ekey(ev, widx[j as int]);
                        assert(!lex_lt(kq, kb));
                        crate::text::lemma_lex_connex(kq, kb);
                        if lex_lt(kb, kq) {
                            crate::text::lemma_lex_trans(kj, kb, kq);
                        } else {
                            assert(kq == kb);
                        }
                        crate::text::lemma_lex_asym(kj, kq);
                    }
                }
                best = j;
            } else {
                proof {
                    assert(ekey(ev, widx[j as int]) == a@);
                    assert(ekey(ev, widx[best as int]) == b@);
                }
            }
            j = j + 1;
        }
        proof {
            lemma_idx_min(ev, widx);
            lemma_first_min_unique(ev, widx, best as int, idx_min(ev, widx));
        }
        let ghost widx_old = widx;
        let ghost work_old = work@;
        let ghost m = out@.len() as int;
        let chosen = work[best];
        out.push(chosen);
        work.remove(best);
        proof {
            assert(sort_order(ev).skip(m) == sort_idx(ev, widx_old));
            assert(idx_min(ev, widx_old) == best as int);
            assert(sort_idx(ev, widx_old) == seq![widx_old[best as int]] + sort_idx(
                ev,
                widx_old.remove(best as int),
            ));
            widx = widx_old.remove(best as int);
            lemma_sort_idx_len(ev, widx);
            assert(work@ == work_old.remove(best as int));
            assert forall|p: int| 0 <= p < work@.len() implies (#[trigger] work@[p]) as int
                == widx[p] by {
                if p < best {
                    assert(work@[p] == work_old[p]);
                    assert(widx[p] == widx_old[p]);
                } else {
                    assert(work@[p] == work_old[p + 1]);
                    assert(widx[p] == widx_old[p + 1]);
                }
            }
            assert(sort_order(ev).skip(m)[0] == widx_old[best as int]);
            assert(sort_order(ev)[m] == sort_order(ev).skip(m)[0]);
            assert(chosen as int == widx_old[best as int]);
            assert(chosen == work_old[best as int]);
            assert(chosen < entries@.len());
            assert(out@[m] as int == sort_order(ev)[m]);
            assert(out@[m] < entries@.len());
            assert(sort_order(ev).skip(m).drop_first() =~= sort_order(ev).skip(m + 1));
            assert(sort_order(ev).skip(m).drop_first() =~= sort_idx(ev, widx));
            assert(sort_order(ev).skip(out@.len() as int) =~= sort_idx(ev, widx));
        }
    }
    proof {
        assert(out@.len() == sort_order(ev).len());
    }
    out
}

} // verus!
