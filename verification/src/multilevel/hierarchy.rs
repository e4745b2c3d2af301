use vstd::prelude::*;

use crate::coarsen::structure::{contractible, lemma_contraction_contractible};
use crate::coarsen::{coarsens, determined_step, Coarsener};
use crate::error::PartitionError;
use crate::graph::csr::{CsrGraph, GraphView};
use crate::graph::partition::CoarseMap;

verus! {

/// Most coarsening steps that `CoarseningHierarchy::build` attempts.
pub const MAX_LEVELS: usize = 50;

/// A run of coarsening from `g` that never reaches a level the coarsener
/// stops on: the levels `ls` (starting at `g`), each coarsened into the next
/// by the map in `ms` (and, where the coarsener fixes a step, by exactly the
/// step it fixes), none a stopping level, all but the last with more than
/// one vertex, and the run ending after `MAX_LEVELS` steps or on a level of
/// at most one vertex.
pub open spec fn stalled_run<C: Coarsener>(c: &C, g: GraphView, ls: Seq<GraphView>, ms: Seq<Seq<u32>>) -> bool {
    &&& 1 <= ls.len() <= MAX_LEVELS + 1
    &&& ms.len() == ls.len() - 1
    &&& ls[0] == g
    &&& forall|i: int| 0 <= i < ms.len() ==> coarsens(ls[i], #[trigger] ms[i], ls[i + 1])
    &&& forall|i: int| 0 <= i < ms.len() ==> determined_step(c, ls[i], #[trigger] ms[i], ls[i + 1])
    &&& forall|i: int| 0 <= i < ls.len() ==> !c.stops(#[trigger] ls[i])
    &&& forall|i: int| 0 <= i < ls.len() - 1 ==> (#[trigger] ls[i]).n() > 1
    &&& ls.len() == MAX_LEVELS + 1 || ls[ls.len() - 1].n() <= 1
}

/// Two runs from the same graph agree level by level, as far as both go,
/// while the coarsener fixes each step of the first.
proof fn lemma_fixed_runs_agree<C: Coarsener>(
    c: &C,
    levels: Seq<GraphView>,
    maps: Seq<Seq<u32>>,
    ls: Seq<GraphView>,
    ms: Seq<Seq<u32>>,
    i: int,
)
    requires
        levels.len() >= 1,
        ls.len() >= 1,
        maps.len() == levels.len() - 1,
        ms.len() == ls.len() - 1,
        levels[0] == ls[0],
        forall|t: int| 0 <= t < levels.len() ==> c.determined(#[trigger] levels[t]) is Some,
        forall|t: int| 0 <= t < maps.len() ==> determined_step(c, levels[t], #[trigger] maps[t], levels[t + 1]),
        forall|t: int| 0 <= t < ms.len() ==> determined_step(c, ls[t], #[trigger] ms[t], ls[t + 1]),
        0 <= i < levels.len(),
        i < ls.len(),
    ensures
        ls[i] == levels[i],
    decreases i,
{
    if i > 0 {
        lemma_fixed_runs_agree(c, levels, maps, ls, ms, i - 1);
        assert(c.determined(levels[i - 1]) is Some);
        assert(determined_step(c, levels[i - 1], maps[i - 1], levels[i]));
        assert(determined_step(c, ls[i - 1], ms[i - 1], ls[i]));
    }
}

/// For a coarsener that fixes every step it takes from `g`, a hierarchy
/// such as `build` returns (the fixed steps from `g`, every level but the
/// last above one vertex and not a stopping level, the last a stopping
/// level, at most `MAX_LEVELS` steps) and a stalled run from `g` never both
/// exist: `build` fails exactly when coarsening `g` stalls.
pub proof fn lemma_fixed_build_or_stall<C: Coarsener>(
    c: &C,
    g: GraphView,
    levels: Seq<GraphView>,
    maps: Seq<Seq<u32>>,
    ls: Seq<GraphView>,
    ms: Seq<Seq<u32>>,
)
    requires
        1 <= levels.len() <= MAX_LEVELS + 1,
        maps.len() == levels.len() - 1,
        levels[0] == g,
        forall|t: int| 0 <= t < levels.len() ==> c.determined(#[trigger] levels[t]) is Some,
        forall|t: int| 0 <= t < maps.len() ==> determined_step(c, levels[t], #[trigger] maps[t], levels[t + 1]),
        forall|t: int| 0 <= t < levels.len() - 1 ==> (#[trigger] levels[t]).n() > 1,
        c.stops(levels[levels.len() - 1]),
    ensures
        !stalled_run(c, g, ls, ms),
{
    if stalled_run(c, g, ls, ms) {
        let last = levels.len() - 1;
        if ls.len() > last {
            lemma_fixed_runs_agree(c, levels, maps, ls, ms, last);
            assert(!c.stops(ls[last]));
        } else {
            let j = ls.len() - 1;
            lemma_fixed_runs_agree(c, levels, maps, ls, ms, j);
            assert(levels[j].n() > 1);
        }
    }
}

/// The graphs of a multilevel scheme, finest first, and the maps between them.
pub struct CoarseningHierarchy {
    /// `levels[0]` is the input graph, `levels[depth]` the coarsest.
    pub levels: Vec<CsrGraph>,
    /// `cmaps[i]` sends the vertices of `levels[i]` to those of `levels[i + 1]`.
    pub cmaps: Vec<CoarseMap>,
}

impl CoarseningHierarchy {
    /// Every level is sound, and each map coarsens its level into the next.
    pub open spec fn wf(&self) -> bool {
        &&& self.levels@.len() >= 1
        &&& self.cmaps@.len() == self.levels@.len() - 1
        &&& forall|i: int| 0 <= i < self.levels@.len() ==> (#[trigger] self.levels@[i])@.sound()
        &&& forall|i: int|
            0 <= i < self.cmaps@.len() ==> coarsens(
                self.levels@[i]@,
                (#[trigger] self.cmaps@[i])@,
                self.levels@[i + 1]@,
            )
    }

    /// The graph at level `i`.
    pub open spec fn level(&self, i: int) -> GraphView {
        self.levels@[i]@
    }

    /// Build the coarsening hierarchy of `g`: coarsen until `coarsener` stops
    /// or a level has at most one vertex, making at most `MAX_LEVELS` steps;
    /// each step is the coarsener's, and where the coarsener fixes a step the
    /// next level and map are the ones it fixes. Fails with
    /// `CoarseningStalled` unless the coarsener stops on the last level; the
    /// failure comes with the stalled run (see `lemma_fixed_build_or_stall`
    /// for why, with a coarsener that fixes its steps, it comes only then).
    pub fn build<C: Coarsener>(g: &CsrGraph, coarsener: &C) -> (r: Result<Self, PartitionError>)
        requires
            g@.sound(),
        ensures
            match r {
                Ok(h) => {
                    &&& h.wf()
                    &&& h.level(0) == g@
                    &&& h.levels@.len() <= MAX_LEVELS + 1
                    &&& coarsener.stops(h.level(h.levels@.len() - 1))
                    &&& forall|i: int|
                        0 <= i < h.cmaps@.len() ==> determined_step(
                            coarsener,
                            h.level(i),
                            (#[trigger] h.cmaps@[i])@,
                            h.level(i + 1),
                        )
                    &&& forall|i: int|
                        0 <= i < h.levels@.len() - 1 ==> !coarsener.stops(#[trigger] h.level(i)) && h.level(i).n() > 1
                },
                Err(e) => e == PartitionError::CoarseningStalled && exists|ls: Seq<GraphView>, ms: Seq<Seq<u32>>|
                    stalled_run(coarsener, g@, ls, ms),
            },
            coarsener.stops(g@) ==> (r matches Ok(h) && h.levels@.len() == 1),
            contractible(g@) ==> (r matches Ok(h) ==> forall|i: int|
                0 <= i < h.levels@.len() ==> #[trigger] h.level(i).valid() && contractible(h.level(i))),
    {
        let ghost pre = contractible(g@);
        let mut levels: Vec<CsrGraph> = Vec::new();
        levels.push(g.duplicate());
        let mut cmaps: Vec<CoarseMap> = Vec::new();
        let mut step: usize = 0;
        let mut stopped = false;
        while step < MAX_LEVELS
            invariant_except_break
                levels@.len() == step + 1,
            invariant
                0 <= step <= MAX_LEVELS,
                levels@.len() <= step + 1,
                levels@.len() >= 1,
                levels@[0]@ == g@,
                cmaps@.len() == levels@.len() - 1,
                forall|i: int| 0 <= i < levels@.len() ==> (#[trigger] levels@[i])@.sound(),
                forall|i: int|
                    0 <= i < cmaps@.len() ==> coarsens(levels@[i]@, (#[trigger] cmaps@[i])@, levels@[i + 1]@),
                forall|i: int|
                    0 <= i < cmaps@.len() ==> determined_step(
                        coarsener,
                        levels@[i]@,
                        (#[trigger] cmaps@[i])@,
                        levels@[i + 1]@,
                    ),
                forall|i: int|
                    0 <= i < levels@.len() - 1 ==> !coarsener.stops(#[trigger] levels@[i]@) && levels@[i]@.n() > 1,
                stopped ==> coarsener.stops(levels@[levels@.len() - 1]@),
                coarsener.stops(g@) ==> levels@.len() == 1,
                pre == contractible(g@),
                pre ==> forall|i: int| 0 <= i < levels@.len() ==> contractible(#[trigger] levels@[i]@),
            ensures
                levels@.len() >= 1,
                stopped ==> coarsener.stops(levels@[levels@.len() - 1]@),
                !stopped ==> levels@.len() == MAX_LEVELS + 1 || levels@[levels@.len() - 1]@.n() <= 1,
            decreases MAX_LEVELS - step,
        {
            let last = levels.len() - 1;
            if coarsener.should_stop(&levels[last]) {
                stopped = true;
                break;
            }
            if levels[last].n() <= 1 {
                break;
            }
            let (coarse, cmap) = coarsener.coarsen(&levels[last]);
            proof {
                if pre {
                    let prev = levels@[last as int]@;
                    lemma_contraction_contractible(prev, cmap@, coarse@);
                }
            }
            cmaps.push(cmap);
            levels.push(coarse);
            step += 1;
        }
        let last = levels.len() - 1;
        if !stopped {
            if !coarsener.should_stop(&levels[last]) {
                proof {
                    let ls = Seq::new(levels@.len(), |i: int| levels@[i]@);
                    let ms = Seq::new(cmaps@.len(), |i: int| cmaps@[i]@);
                    assert forall|i: int| 0 <= i < ms.len() implies coarsens(ls[i], #[trigger] ms[i], ls[i + 1]) by {
                        assert(coarsens(levels@[i]@, cmaps@[i]@, levels@[i + 1]@));
                    }
                    assert forall|i: int| 0 <= i < ms.len() implies determined_step(
                        coarsener,
                        ls[i],
                        #[trigger] ms[i],
                        ls[i + 1],
                    ) by {
                        assert(determined_step(coarsener, levels@[i]@, cmaps@[i]@, levels@[i + 1]@));
                    }
                    assert forall|i: int| 0 <= i < ls.len() implies !coarsener.stops(#[trigger] ls[i]) by {
                        if i < ls.len() - 1 {
                            assert(!coarsener.stops(levels@[i]@));
                        }
                    }
                    assert forall|i: int| 0 <= i < ls.len() - 1 implies (#[trigger] ls[i]).n() > 1 by {
                        assert(levels@[i]@.n() > 1);
                    }
                    assert(stalled_run(coarsener, g@, ls, ms));
                }
                return Err(PartitionError::CoarseningStalled);
            }
        }
        Ok(CoarseningHierarchy { levels, cmaps })
    }

    /// All levels, finest first.
    pub fn levels(&self) -> (r: &[CsrGraph])
        ensures
            r@ == self.levels@,
    {
        self.levels.as_slice()
    }

    /// The coarsening maps, finest first.
    pub fn cmaps(&self) -> (r: &[CoarseMap])
        ensures
            r@ == self.cmaps@,
    {
        self.cmaps.as_slice()
    }

    /// The coarsest level.
    pub fn coarsest(&self) -> (r: &CsrGraph)
        requires
            self.levels@.len() >= 1,
        ensures
            *r == self.levels@[self.levels@.len() - 1],
    {
        &self.levels[self.levels.len() - 1]
    }

    /// Number of coarsening steps performed (0 when none happened).
    pub fn depth(&self) -> (r: usize)
        requires
            self.levels@.len() >= 1,
        ensures
            r == self.levels@.len() - 1,
    {
        self.levels.len() - 1
    }

    /// Project an assignment of the vertices of level `lev + 1` onto level
    /// `lev`: fine vertex `v` gets the entry of its coarse vertex.
    pub fn project_up(&self, lev: usize, coarse_assign: &[u32]) -> (fine: Vec<u32>)
        requires
            lev < self.cmaps@.len(),
            forall|v: int|
                0 <= v < self.cmaps@[lev as int]@.len() ==> (#[trigger] self.cmaps@[lev as int]@[v] as int)
                    < coarse_assign@.len(),
        ensures
            fine@.len() == self.cmaps@[lev as int]@.len(),
            forall|v: int|
                0 <= v < fine@.len() ==> #[trigger] fine@[v] == coarse_assign@[self.cmaps@[lev as int]@[v] as int],
    {
        let cmap = self.cmaps[lev].as_slice();
        let mut fine: Vec<u32> = Vec::new();
        let mut v: usize = 0;
        while v < cmap.len()
            invariant
                cmap@ == self.cmaps@[lev as int]@,
                forall|w: int| 0 <= w < cmap@.len() ==> (#[trigger] cmap@[w] as int) < coarse_assign@.len(),
                0 <= v <= cmap@.len(),
                fine@.len() == v,
                forall|w: int| 0 <= w < v ==> #[trigger] fine@[w] == coarse_assign@[cmap@[w] as int],
            decreases cmap@.len() - v,
        {
            fine.push(coarse_assign[cmap[v] as usize]);
            v += 1;
        }
        fine
    }
}

} // verus!
