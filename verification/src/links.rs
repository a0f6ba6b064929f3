//! The shape of the forward links, stated over positions in the bottom chain.
//!
//! `fw[p]` is the table of forward links of the node at position `p` of the
//! chain, one slot per level that the node spans, and `chain[p]` is the handle
//! of that node. Position 0 is the head. While a node is being spliced in or
//! out, the levels not yet done are linked as if its position `skip` were not
//! there; `no_skip()` stands for "no such position".

use vstd::prelude::*;

verus! {

/// The forward links of every node of the chain, by position.
pub type Links = Seq<Seq<Option<usize>>>;

/// A `skip` that leaves no position out.
pub open spec fn no_skip() -> int {
    -1
}

/// The node at position `p` takes part in the chain of level `level`.
pub open spec fn tall(fw: Links, skip: int, p: int, level: int) -> bool {
    p != skip && level < fw[p].len()
}

/// The first position from `from` on whose node takes part in `level`, or the
/// length of the chain where there is none.
pub open spec fn next_tall(fw: Links, skip: int, from: int, level: int) -> int
    decreases fw.len() - from,
{
    if from >= fw.len() {
        fw.len() as int
    } else if tall(fw, skip, from, level) {
        from
    } else {
        next_tall(fw, skip, from + 1, level)
    }
}

/// What the link of position `p` at `level` has to be: the handle of the next
/// node that takes part in the level, if there is one.
pub open spec fn target(chain: Seq<usize>, fw: Links, skip: int, p: int, level: int) -> Option<usize> {
    let r = next_tall(fw, skip, p + 1, level);
    if r < fw.len() {
        Some(chain[r])
    } else {
        None
    }
}

/// The link of position `p` at `level`, if the node there takes part in the
/// level, points where it has to.
pub open spec fn link_ok(chain: Seq<usize>, fw: Links, skip: int, p: int, level: int) -> bool {
    tall(fw, skip, p, level) ==> fw[p][level] == target(chain, fw, skip, p, level)
}

/// Every link of `level` points where it has to.
pub open spec fn level_linked(chain: Seq<usize>, fw: Links, skip: int, level: int) -> bool {
    forall|p: int| 0 <= p < fw.len() ==> #[trigger] link_ok(chain, fw, skip, p, level)
}

/// `next_tall` finds a position at or after `from` that takes part in the
/// level, and passes over none that does.
pub proof fn lemma_next_tall(fw: Links, skip: int, from: int, level: int)
    requires
        0 <= from <= fw.len(),
    ensures
        from <= next_tall(fw, skip, from, level) <= fw.len(),
        next_tall(fw, skip, from, level) < fw.len() ==> tall(
            fw,
            skip,
            next_tall(fw, skip, from, level),
            level,
        ),
        forall|q: int| from <= q < next_tall(fw, skip, from, level) ==> !tall(fw, skip, q, level),
    decreases fw.len() - from,
{
    if from < fw.len() && !tall(fw, skip, from, level) {
        lemma_next_tall(fw, skip, from + 1, level);
    }
}

/// A position that takes part in the level, with none before it from `from` on
/// that does, is what `next_tall` finds.
pub proof fn lemma_next_tall_is(fw: Links, skip: int, from: int, level: int, r: int)
    requires
        0 <= from <= r <= fw.len(),
        r < fw.len() ==> tall(fw, skip, r, level),
        forall|q: int| from <= q < r ==> !tall(fw, skip, q, level),
    ensures
        next_tall(fw, skip, from, level) == r,
    decreases r - from,
{
    if from < r {
        lemma_next_tall_is(fw, skip, from + 1, level, r);
    }
}

/// Leaving out a position whose node does not reach `level` changes nothing
/// at that level.
pub proof fn lemma_skip_short(chain: Seq<usize>, fw: Links, k: int, level: int)
    requires
        0 <= k < fw.len(),
        fw[k].len() <= level,
    ensures
        level_linked(chain, fw, k, level) == level_linked(chain, fw, no_skip(), level),
{
    assert forall|p: int| 0 <= p < fw.len() implies target(chain, fw, k, p, level) == target(
        chain,
        fw,
        no_skip(),
        p,
        level,
    ) by {
        let r = next_tall(fw, k, p + 1, level);
        lemma_next_tall(fw, k, p + 1, level);
        assert forall|q: int| p + 1 <= q < r implies !tall(fw, no_skip(), q, level) by {
            assert(!tall(fw, k, q, level));
        }
        lemma_next_tall_is(fw, no_skip(), p + 1, level, r);
    }
    if level_linked(chain, fw, k, level) {
        assert forall|p: int| 0 <= p < fw.len() implies #[trigger] link_ok(
            chain,
            fw,
            no_skip(),
            p,
            level,
        ) by {
            assert(link_ok(chain, fw, k, p, level));
        }
    }
    if level_linked(chain, fw, no_skip(), level) {
        assert forall|p: int| 0 <= p < fw.len() implies #[trigger] link_ok(chain, fw, k, p, level) by {
            assert(link_ok(chain, fw, no_skip(), p, level));
        }
    }
}

/// Which nodes take part in a level depends only on how many levels each
/// node spans.
pub proof fn lemma_next_tall_heights(fw: Links, fw2: Links, skip: int, from: int, level: int)
    requires
        fw.len() == fw2.len(),
        0 <= from <= fw.len(),
        forall|q: int| 0 <= q < fw.len() ==> (#[trigger] fw2[q]).len() == fw[q].len(),
    ensures
        next_tall(fw2, skip, from, level) == next_tall(fw, skip, from, level),
{
    let r = next_tall(fw, skip, from, level);
    lemma_next_tall(fw, skip, from, level);
    assert forall|q: int| from <= q < r implies !tall(fw2, skip, q, level) by {
        assert(!tall(fw, skip, q, level));
    }
    lemma_next_tall_is(fw2, skip, from, level, r);
}

/// Where `next_tall` lands once a position `k` has been put into the chain
/// and is left out of the level: where it landed before, moved up by one if
/// that was at or after `k`.
pub proof fn lemma_next_tall_insert(fw: Links, k: int, from: int, level: int)
    requires
        0 <= from <= k < fw.len(),
    ensures
        next_tall(fw, k, from, level) == ({
            let rd = next_tall(fw.remove(k), no_skip(), from, level);
            if rd < k {
                rd
            } else {
                rd + 1
            }
        }),
{
    let fw1 = fw.remove(k);
    let rd = next_tall(fw1, no_skip(), from, level);
    lemma_next_tall(fw1, no_skip(), from, level);
    let r = if rd < k {
        rd
    } else {
        rd + 1
    };
    assert forall|q: int| from <= q < r implies !tall(fw, k, q, level) by {
        if q != k {
            let qd = if q < k {
                q
            } else {
                q - 1
            };
            assert(!tall(fw1, no_skip(), qd, level));
        }
    }
    lemma_next_tall_is(fw, k, from, level, r);
}

/// A chain linked with position `k` left out is, with that position taken
/// away, a chain linked in full.
pub proof fn lemma_linked_remove(chain: Seq<usize>, fw: Links, k: int, level: int)
    requires
        chain.len() == fw.len(),
        0 <= k < fw.len(),
        level_linked(chain, fw, k, level),
    ensures
        level_linked(chain.remove(k), fw.remove(k), no_skip(), level),
{
    let chain1 = chain.remove(k);
    let fw1 = fw.remove(k);
    assert forall|pd: int| 0 <= pd < fw1.len() implies #[trigger] link_ok(
        chain1,
        fw1,
        no_skip(),
        pd,
        level,
    ) by {
        let p = if pd < k {
            pd
        } else {
            pd + 1
        };
        assert(link_ok(chain, fw, k, p, level));
        let r = next_tall(fw, k, p + 1, level);
        lemma_next_tall(fw, k, p + 1, level);
        let rd = if r < k {
            r
        } else {
            r - 1
        };
        assert forall|qd: int| pd + 1 <= qd < rd implies !tall(fw1, no_skip(), qd, level) by {
            let q = if qd < k {
                qd
            } else {
                qd + 1
            };
            assert(!tall(fw, k, q, level));
        }
        lemma_next_tall_is(fw1, no_skip(), pd + 1, level, rd);
    }
}

/// A chain linked in full is, with a new position `k` put in, a chain linked
/// with that position left out.
pub proof fn lemma_linked_insert(chain: Seq<usize>, fw: Links, k: int, level: int)
    requires
        chain.len() == fw.len(),
        0 <= k < fw.len(),
        level_linked(chain.remove(k), fw.remove(k), no_skip(), level),
    ensures
        level_linked(chain, fw, k, level),
{
    let chain1 = chain.remove(k);
    let fw1 = fw.remove(k);
    assert forall|p: int| 0 <= p < fw.len() implies #[trigger] link_ok(chain, fw, k, p, level) by {
        if p != k {
            let pd = if p < k {
                p
            } else {
                p - 1
            };
            assert(link_ok(chain1, fw1, no_skip(), pd, level));
            let rd = next_tall(fw1, no_skip(), pd + 1, level);
            lemma_next_tall(fw1, no_skip(), pd + 1, level);
            let r = if rd < k {
                rd
            } else {
                rd + 1
            };
            assert forall|q: int| p + 1 <= q < r implies !tall(fw, k, q, level) by {
                if q != k {
                    let qd = if q < k {
                        q
                    } else {
                        q - 1
                    };
                    assert(!tall(fw1, no_skip(), qd, level));
                }
            }
            lemma_next_tall_is(fw, k, p + 1, level, r);
        }
    }
}

/// Between a predecessor and the position it leads up to, no other node of
/// the level stands: the predecessor of a position at a level is unique.
pub proof fn lemma_predecessor_unique(fw: Links, skip: int, u: int, p: int, k: int, level: int)
    requires
        0 <= u < k <= fw.len(),
        0 <= p < k,
        tall(fw, skip, u, level),
        tall(fw, skip, p, level),
        next_tall(fw, skip, u + 1, level) >= k,
        next_tall(fw, skip, p + 1, level) >= k,
    ensures
        p == u,
{
    lemma_next_tall(fw, skip, u + 1, level);
    lemma_next_tall(fw, skip, p + 1, level);
}

/// One step of splicing a node in: at `level`, the node at `k` takes over the
/// link of its predecessor `u`, and `u` is made to point at it.
pub proof fn lemma_splice_in(chain: Seq<usize>, fw: Links, fw2: Links, k: int, u: int, level: int)
    requires
        chain.len() == fw.len(),
        0 <= u < k < fw.len(),
        0 <= level < fw[u].len(),
        level < fw[k].len(),
        level_linked(chain, fw, k, level),
        next_tall(fw, k, u + 1, level) > k,
        fw2 == fw.update(k, fw[k].update(level, fw[u][level])).update(
            u,
            fw[u].update(level, Some(chain[k])),
        ),
    ensures
        level_linked(chain, fw2, no_skip(), level),
{
    assert forall|q: int| 0 <= q < fw.len() implies (#[trigger] fw2[q]).len() == fw[q].len() by {}
    assert forall|p: int| 0 <= p < fw2.len() implies #[trigger] link_ok(
        chain,
        fw2,
        no_skip(),
        p,
        level,
    ) by {
        if tall(fw2, no_skip(), p, level) {
            if p == k {
                let r = next_tall(fw, k, u + 1, level);
                lemma_next_tall(fw, k, u + 1, level);
                assert(link_ok(chain, fw, k, u, level));
                lemma_next_tall_heights(fw, fw2, k, k + 1, level);
                assert forall|q: int| k + 1 <= q < r implies !tall(fw2, no_skip(), q, level) by {
                    assert(!tall(fw, k, q, level));
                }
                lemma_next_tall_is(fw2, no_skip(), k + 1, level, r);
            } else if p == u {
                lemma_next_tall(fw, k, u + 1, level);
                assert forall|q: int| u + 1 <= q < k implies !tall(fw2, no_skip(), q, level) by {
                    assert(!tall(fw, k, q, level));
                }
                lemma_next_tall_is(fw2, no_skip(), u + 1, level, k);
            } else {
                assert(link_ok(chain, fw, k, p, level));
                let r = next_tall(fw, k, p + 1, level);
                lemma_next_tall(fw, k, p + 1, level);
                if p < k && r > k {
                    lemma_predecessor_unique(fw, k, u, p, k, level);
                }
                assert forall|q: int| p + 1 <= q < r implies !tall(fw2, no_skip(), q, level) by {
                    assert(!tall(fw, k, q, level));
                }
                lemma_next_tall_is(fw2, no_skip(), p + 1, level, r);
            }
        }
    }
}

/// One step of splicing a node out: at `level`, the predecessor `u` of the
/// node at `k` takes over that node's link.
pub proof fn lemma_splice_out(chain: Seq<usize>, fw: Links, fw2: Links, k: int, u: int, level: int)
    requires
        chain.len() == fw.len(),
        0 <= u < k < fw.len(),
        0 <= level < fw[u].len(),
        level < fw[k].len(),
        level_linked(chain, fw, no_skip(), level),
        next_tall(fw, no_skip(), u + 1, level) == k,
        fw2 == fw.update(u, fw[u].update(level, fw[k][level])),
    ensures
        level_linked(chain, fw2, k, level),
{
    assert forall|q: int| 0 <= q < fw.len() implies (#[trigger] fw2[q]).len() == fw[q].len() by {}
    assert forall|p: int| 0 <= p < fw2.len() implies #[trigger] link_ok(chain, fw2, k, p, level) by {
        if tall(fw2, k, p, level) {
            if p == u {
                assert(link_ok(chain, fw, no_skip(), k, level));
                let r = next_tall(fw, no_skip(), k + 1, level);
                lemma_next_tall(fw, no_skip(), k + 1, level);
                lemma_next_tall(fw, no_skip(), u + 1, level);
                assert forall|q: int| u + 1 <= q < r implies !tall(fw2, k, q, level) by {
                    if q != k {
                        assert(!tall(fw, no_skip(), q, level));
                    }
                }
                lemma_next_tall_is(fw2, k, u + 1, level, r);
            } else {
                assert(link_ok(chain, fw, no_skip(), p, level));
                let r = next_tall(fw, no_skip(), p + 1, level);
                lemma_next_tall(fw, no_skip(), p + 1, level);
                if p < k && r >= k {
                    lemma_predecessor_unique(fw, no_skip(), u, p, k, level);
                }
                assert forall|q: int| p + 1 <= q < r implies !tall(fw2, k, q, level) by {
                    assert(!tall(fw, no_skip(), q, level));
                }
                lemma_next_tall_is(fw2, k, p + 1, level, r);
            }
        }
    }
}

/// Links that agree at a level are linked alike at that level.
pub proof fn lemma_same_level(chain: Seq<usize>, fw: Links, fw2: Links, skip: int, level: int)
    requires
        fw.len() == fw2.len(),
        forall|q: int| 0 <= q < fw.len() ==> (#[trigger] fw2[q]).len() == fw[q].len(),
        forall|q: int|
            0 <= q < fw.len() && level < fw[q].len() ==> (#[trigger] fw2[q])[level] == fw[q][level],
        level_linked(chain, fw, skip, level),
    ensures
        level_linked(chain, fw2, skip, level),
{
    assert forall|p: int| 0 <= p < fw2.len() implies #[trigger] link_ok(chain, fw2, skip, p, level) by {
        assert(link_ok(chain, fw, skip, p, level));
        lemma_next_tall_heights(fw, fw2, skip, p + 1, level);
    }
}

} // verus!
