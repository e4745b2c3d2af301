use vstd::prelude::*;

use crate::coarsen::hem::HeavyEdgeMatchWithParams;
use crate::coarsen::mindegree::MinDegreeMatch;
use crate::coarsen::shem::SortedHeavyEdgeMatchWithParams;
use crate::coarsen::twohop::TwoHopMatchWithParams;
use crate::coarsen::Coarsener;
use crate::error::PartitionError;
use crate::graph::contiguity::all_contiguous;
use crate::graph::csr::{copy_u32, CsrGraph, GraphView};
use crate::graph::metrics::compute_cut;
use crate::graph::partition::Partition;
use crate::graph::repair::repair_contiguity;
use crate::init::grow::{GrowBisect, RecursiveBisect};
use crate::init::InitialPartitioner;
use crate::multilevel::hierarchy::{stalled_run, CoarseningHierarchy};
use crate::multilevel::pipeline::Pipeline;
use crate::refine::fm::{
    abs_sat, balance_targets, epsilon_of, epsilon_spec, lemma_sat_total_loads, neg_sat, part_load, part_target,
    part_weights, total_load, FiducciaMattheyses,
};
use crate::graph::partition::opt_u32_view;
use crate::util::clamp_i64;
use crate::refine::lp::rebalance_to_ufactor;
use crate::refine::minconn::minimize_connectivity;
use crate::refine::Refiner;
use crate::util::sat_add;

pub use crate::refine::fm::ObjectiveType;

verus! {

/// Coarsening algorithm of the direct k-way pipeline.
#[derive(Debug, Clone, Copy, PartialEq, Eq, Structural)]
pub enum CoarseningMethod {
    /// Sorted heavy-edge matching (the default).
    Shem,
    /// Heavy-edge matching in a random visit order.
    Hem,
    /// Lowest-degree vertices matched first.
    MinDegree,
    /// Heavy-edge matching that also pairs vertices two hops apart.
    TwoHop,
}

impl Default for CoarseningMethod {
    fn default() -> (r: Self)
        ensures
            r == CoarseningMethod::Shem,
    {
        CoarseningMethod::Shem
    }
}

/// Seed used when neither the parameters nor the caller give one.
pub const DEFAULT_SEED: u64 = 0xDEAD_BEEF_CAFE_1234u64;

/// Step between the seeds of successive trials.
pub const TRIAL_SEED_STEP: u64 = 0x9E37_79B9_7F4A_7C15u64;

/// Parameters of the multilevel partitioner.
#[derive(Debug, Clone, PartialEq)]
pub struct MetisParams {
    /// Allowed imbalance in thousandths.
    pub ufactor: u32,
    /// FM passes per level.
    pub niter: u32,
    /// Seed that takes precedence over the one handed to `split`.
    pub seed: Option<u64>,
    /// Coarsening stops at `max(coarsen_to * k, 40)` vertices.
    pub coarsen_to: u32,
    /// Independent trials; the most balanced, then lowest-cut, one wins
    /// (zero counts as one).
    pub ncuts: u32,
    /// Integer target shares per part (`None`: equal parts).
    pub tpwgts: Option<Vec<u32>>,
    /// Keep parts contiguous during FM and repair them afterwards.
    pub contig_fm: bool,
    /// Recursive bisection for more than two parts.
    pub use_recursive: bool,
    /// Objective of FM refinement.
    pub objective: ObjectiveType,
    /// Reduce the number of neighbouring parts afterwards.
    pub min_conn: bool,
    /// Label-propagation balancing before FM.
    pub lp_refine: bool,
    /// Sweeps of label-propagation balancing.
    pub lp_iter: u32,
    /// Coarsening algorithm of the direct pipeline.
    pub coarsen_method: CoarseningMethod,
}

/// The default parameters.
pub open spec fn default_params(p: MetisParams) -> bool {
    &&& p.ufactor == 5
    &&& p.niter == 10
    &&& p.seed is None
    &&& p.coarsen_to == 20
    &&& p.ncuts == 1
    &&& p.tpwgts is None
    &&& !p.contig_fm
    &&& !p.use_recursive
    &&& p.objective == ObjectiveType::Cut
    &&& !p.min_conn
    &&& p.lp_refine
    &&& p.lp_iter == 10
    &&& p.coarsen_method == CoarseningMethod::Shem
}

impl Default for MetisParams {
    fn default() -> (r: Self)
        ensures
            default_params(r),
    {
        MetisParams {
            ufactor: 5,
            niter: 10,
            seed: None,
            coarsen_to: 20,
            ncuts: 1,
            tpwgts: None,
            contig_fm: false,
            use_recursive: false,
            objective: ObjectiveType::Cut,
            min_conn: false,
            lp_refine: true,
            lp_iter: 10,
            coarsen_method: CoarseningMethod::Shem,
        }
    }
}

impl MetisParams {
    /// Defaults for direct k-way partitioning.
    pub fn kway() -> (r: Self)
        ensures
            default_params(r),
    {
        Self::default()
    }

    /// Defaults for recursive bisection: the defaults with recursion on and
    /// four trials.
    pub fn recursive() -> (r: Self)
        ensures
            r.use_recursive,
            r.ncuts == 4,
            default_params(MetisParams { use_recursive: false, ncuts: 1, ..r }),
    {
        let d = Self::default();
        MetisParams { use_recursive: true, ncuts: 4, ..d }
    }

    /// These parameters with `seed` as the seed of every split.
    pub fn with_seed(self, seed: u64) -> (r: Self)
        ensures
            r == (MetisParams { seed: Some(seed), ..self }),
    {
        MetisParams { seed: Some(seed), ..self }
    }

    /// These parameters with `ncuts` trials.
    pub fn with_ncuts(self, ncuts: u32) -> (r: Self)
        ensures
            r == (MetisParams { ncuts, ..self }),
    {
        MetisParams { ncuts, ..self }
    }

    /// These parameters with the coarsening method `method`.
    pub fn with_coarsening_method(self, method: CoarseningMethod) -> (r: Self)
        ensures
            r == (MetisParams { coarsen_method: method, ..self }),
    {
        MetisParams { coarsen_method: method, ..self }
    }

    /// These parameters with the target shares `shares` for `k` parts, refused
    /// as `split` refuses them (`target_error`).
    pub fn with_target_weights(self, k: u32, shares: Vec<u32>) -> (r: Result<Self, PartitionError>)
        ensures
            match target_error(Some(shares@), k, self.use_recursive) {
                Some(e) => r == Err::<Self, PartitionError>(e),
                None => r == Ok::<Self, PartitionError>(MetisParams { tpwgts: Some(shares), ..self }),
            },
    {
        let tp = Some(shares);
        match check_targets(&tp, k, self.use_recursive) {
            Err(e) => Err(e),
            Ok(()) => Ok(MetisParams { tpwgts: tp, ..self }),
        }
    }

    /// The check of the target shares that `split` makes for `k` parts.
    pub fn validate_for_k(&self, k: u32) -> (r: Result<(), PartitionError>)
        ensures
            r == match target_error(opt_u32_view(self.tpwgts), k, self.use_recursive) {
                Some(e) => Err::<(), PartitionError>(e),
                None => Ok(()),
            },
    {
        check_targets(&self.tpwgts, k, self.use_recursive)
    }
}

impl MetisParams {
    pub fn coarsening_method(&self) -> (r: CoarseningMethod)
        ensures
            r == self.coarsen_method,
    {
        self.coarsen_method
    }

    pub fn objective(&self) -> (r: ObjectiveType)
        ensures
            r == self.objective,
    {
        self.objective
    }

    pub fn ufactor(&self) -> (r: u32)
        ensures
            r == self.ufactor,
    {
        self.ufactor
    }

    pub fn niter(&self) -> (r: u32)
        ensures
            r == self.niter,
    {
        self.niter
    }
}

/// Message of the `InvalidGraph` error that `split` reports.
pub open spec fn msg_not_valid() -> &'static str {
    "is_valid() failed"
}

/// The error that the input checks of `split` report for `k` parts of `g`,
/// in the order they are made.
pub open spec fn input_error(g: GraphView, k: int) -> Option<PartitionError> {
    if k == 0 {
        Some(PartitionError::ZeroParts)
    } else if g.n() == 0 {
        Some(PartitionError::EmptyGraph)
    } else if !g.valid() {
        Some(PartitionError::InvalidGraph(msg_not_valid()))
    } else if k > g.n() {
        Some(PartitionError::TooManyParts { k: k as u32, n: g.n() as usize })
    } else {
        None
    }
}

/// `e` is one of the errors the input checks report.
pub open spec fn is_input_error(e: PartitionError) -> bool {
    ||| e == PartitionError::ZeroParts
    ||| e == PartitionError::EmptyGraph
    ||| e == PartitionError::InvalidGraph(msg_not_valid())
    ||| e is TooManyParts
}

/// Sum of integer shares.
pub open spec fn share_total(s: Seq<u32>) -> int
    decreases s.len(),
{
    if s.len() == 0 {
        0
    } else {
        share_total(s.drop_last()) + s.last()
    }
}

/// The error that the input checks of `split_weighted` report for shares
/// `fracs`, in the order they are made.
pub open spec fn weighted_input_error(g: GraphView, fracs: Seq<u32>) -> Option<PartitionError> {
    if fracs.len() == 0 || share_total(fracs) == 0 {
        Some(PartitionError::ZeroParts)
    } else if g.n() == 0 {
        Some(PartitionError::EmptyGraph)
    } else if !g.valid() {
        Some(PartitionError::InvalidGraph(msg_not_valid()))
    } else if fracs.len() > g.n() {
        Some(PartitionError::TooManyParts { k: fracs.len() as u32, n: g.n() as usize })
    } else {
        None
    }
}

/// A graph partitioner.
pub trait Partitioner: Send + Sync {
    /// Split `g` into `k` parts. The input checks decide the error; past them
    /// a result assigns every vertex a part below `k`.
    fn split(&self, g: &CsrGraph, k: u32, seed: Option<u64>) -> (r: Result<Partition, PartitionError>)
        requires
            g@.sound(),
        ensures
            input_error(g@, k as int) matches Some(e) ==> r == Err::<Partition, PartitionError>(e),
            r matches Ok(p) ==> p@.fits(g@) && p@.k == k,
    ;

    /// Split `g` into `fracs.len()` parts, part `i` aiming at
    /// `fracs[i] / sum(fracs)` of the vertex weight.
    fn split_weighted(&self, g: &CsrGraph, fracs: &[u32], seed: Option<u64>) -> (r: Result<Partition, PartitionError>)
        requires
            g@.sound(),
            fracs@.len() <= u32::MAX,
            share_total(fracs@) <= u32::MAX,
        ensures
            weighted_input_error(g@, fracs@) matches Some(e) ==> r == Err::<Partition, PartitionError>(e),
            r matches Ok(p) ==> p@.fits(g@) && p@.k == fracs@.len(),
    ;
}

/// The multilevel partitioner: a coarsener, an initial partitioner and a
/// refiner, run as the parameters say.
pub struct RustMetisPartitioner<C, I, R> {
    pub coarsener: C,
    pub init: I,
    pub refiner: R,
    pub params: MetisParams,
}

/// Sorted heavy-edge matching, breadth-first growing and FM refinement.
pub type MetisPartitioner = RustMetisPartitioner<SortedHeavyEdgeMatchWithParams, GrowBisect, FiducciaMattheyses>;

impl RustMetisPartitioner<SortedHeavyEdgeMatchWithParams, GrowBisect, FiducciaMattheyses> {
    /// The default partitioner for `k` parts.
    pub fn new(k: u32) -> (r: Self)
        ensures
            default_params(r.params),
            r.coarsener.coarsen_to == 20,
            r.coarsener.k == k,
            r.refiner.ufactor == 5,
    {
        Self::with_params(MetisParams::default(), k)
    }

    /// The partitioner for `k` parts with `params`, which also set the
    /// coarsener's threshold and the refiner's passes, contiguity,
    /// objective, balancing sweeps (none without `lp_refine`) and imbalance.
    pub fn with_params(params: MetisParams, k: u32) -> (r: Self)
        ensures
            r.params == params,
            r.coarsener.coarsen_to == params.coarsen_to,
            r.coarsener.k == k,
            r.refiner.niter == params.niter,
            r.refiner.contig_fm == params.contig_fm,
            r.refiner.objective == params.objective,
            r.refiner.lp_iter == if params.lp_refine { params.lp_iter } else { 0 },
            r.refiner.ufactor == params.ufactor,
    {
        let coarsen_to = params.coarsen_to;
        let refiner = FiducciaMattheyses {
            niter: params.niter,
            contig_fm: params.contig_fm,
            objective: params.objective,
            lp_iter: if params.lp_refine {
                params.lp_iter
            } else {
                0
            },
            ufactor: params.ufactor,
        };
        RustMetisPartitioner {
            coarsener: SortedHeavyEdgeMatchWithParams { coarsen_to, k },
            init: GrowBisect,
            refiner,
            params,
        }
    }

    pub fn params(&self) -> (r: &MetisParams)
        ensures
            *r == self.params,
    {
        &self.params
    }
}

/// The input checks of `split`.
fn check_inputs(g: &CsrGraph, k: u32) -> (r: Result<(), PartitionError>)
    requires
        g@.sound(),
    ensures
        r == match input_error(g@, k as int) {
            Some(e) => Err(e),
            None => Ok(()),
        },
{
    if k == 0 {
        return Err(PartitionError::ZeroParts);
    }
    if g.n() == 0 {
        return Err(PartitionError::EmptyGraph);
    }
    if !g.is_valid() {
        return Err(PartitionError::InvalidGraph("is_valid() failed"));
    }
    if k as usize > g.n() {
        return Err(PartitionError::TooManyParts { k, n: g.n() });
    }
    Ok(())
}

/// Message of the `InvalidParams` error for target shares on the
/// recursive-bisection path.
pub open spec fn msg_recursive_targets() -> &'static str {
    "recursive bisection does not take target weights"
}

/// The error that the parameters' target shares `tp` cause for `k` parts:
/// recursive bisection rejects them, and otherwise there must be one
/// positive share per part, with a total that fits a `u32`.
pub open spec fn target_error(tp: Option<Seq<u32>>, k: u32, recursive: bool) -> Option<PartitionError> {
    match tp {
        None => None,
        Some(t) => if recursive && k > 2 {
            Some(PartitionError::InvalidParams(msg_recursive_targets()))
        } else if t.len() != k {
            Some(PartitionError::TargetWeightLength { len: t.len() as usize, k })
        } else if exists|i: int| 0 <= i < t.len() && #[trigger] t[i] == 0 {
            Some(PartitionError::InvalidTargetWeight)
        } else if share_total(t) > u32::MAX {
            Some(PartitionError::TargetWeightsDoNotSum)
        } else {
            None
        },
    }
}

/// Check the target shares of the parameters (see `target_error`).
fn check_targets(tp: &Option<Vec<u32>>, k: u32, recursive: bool) -> (r: Result<(), PartitionError>)
    ensures
        r == match target_error(opt_u32_view(*tp), k, recursive) {
            Some(e) => Err(e),
            None => Ok(()),
        },
{
    match tp {
        None => Ok(()),
        Some(t) => {
            if recursive && k > 2 {
                return Err(PartitionError::InvalidParams("recursive bisection does not take target weights"));
            }
            if t.len() != k as usize {
                return Err(PartitionError::TargetWeightLength { len: t.len(), k });
            }
            let mut total: u64 = 0;
            let mut i: usize = 0;
            proof {
                assert(opt_u32_view(*tp) == Some(t@));
            }
            while i < t.len()
                invariant
                    opt_u32_view(*tp) == Some(t@),
                    !(recursive && k > 2),
                    0 <= i <= t@.len(),
                    t@.len() == k,
                    total == share_total(t@.subrange(0, i as int)),
                    total <= u32::MAX * i,
                    forall|j: int| 0 <= j < i ==> #[trigger] t@[j] != 0,
                decreases t@.len() - i,
            {
                if t[i] == 0 {
                    proof {
                        assert(t@[i as int] == 0);
                    }
                    return Err(PartitionError::InvalidTargetWeight);
                }
                proof {
                    assert(t@.subrange(0, i as int + 1).drop_last() =~= t@.subrange(0, i as int));
                    assert(u32::MAX * i + u32::MAX <= u32::MAX * 0x1_0000_0000) by (nonlinear_arith)
                        requires
                            i < 0x1_0000_0000,
                    ;
                }
                total = total + t[i] as u64;
                i += 1;
            }
            proof {
                assert(t@.subrange(0, t@.len() as int) =~= t@);
            }
            if total > u32::MAX as u64 {
                return Err(PartitionError::TargetWeightsDoNotSum);
            }
            Ok(())
        },
    }
}

/// How far `load` lies outside the window around `target`: the distance
/// `|load - target|` less the allowance `epsilon_spec(target)`, each step
/// held within `i64` (negation maps `i64::MIN` to `i64::MAX`).
pub open spec fn load_excess(load: i64, target: i64, ufactor: u32) -> int {
    let dev = abs_sat(clamp_i64(load + neg_sat(target)));
    clamp_i64(dev + neg_sat(epsilon_spec(target, ufactor) as i64)) as int
}

/// Excess of part `p` in constraint `c`: its load against its target, the
/// target taken from the constraint's total, `k` and the shares.
pub open spec fn part_excess(g: GraphView, a: Seq<u32>, k: u32, tp: Option<Seq<u32>>, ufactor: u32, p: int, c: int) -> int {
    load_excess(
        part_load(g, a, c, p, g.n()) as i64,
        part_target(total_load(g, c, g.n()), k, tp, p, c) as i64,
        ufactor,
    )
}

/// The largest excess, and at least zero, over the parts below `p` with all
/// constraints and over part `p` with the constraints below `c`.
pub open spec fn excess_upto(g: GraphView, a: Seq<u32>, k: u32, tp: Option<Seq<u32>>, ufactor: u32, p: int, c: int) -> int
    decreases p, c,
{
    if c > 0 {
        let m = excess_upto(g, a, k, tp, ufactor, p, c - 1);
        let e = part_excess(g, a, k, tp, ufactor, p, c - 1);
        if e > m {
            e
        } else {
            m
        }
    } else if p > 0 {
        excess_upto(g, a, k, tp, ufactor, p - 1, g.ncon as int)
    } else {
        0
    }
}

/// How far the most imbalanced part and constraint exceed their allowance:
/// for every part and constraint, the distance between the part's weight and
/// its target, less `ceil(|target| * ufactor / 1000)`, the largest such
/// excess or zero. Constraint 0 aims at the shares `tpwgts` when given,
/// everything else at the total divided by `k`.
fn balance_excess(g: &CsrGraph, p: &Partition, ufactor: u32, tpwgts: &Option<Vec<u32>>) -> (r: i64)
    requires
        g@.sound(),
        p@.fits(g@),
        tpwgts matches Some(t) ==> t@.len() == p@.k,
    ensures
        r >= 0,
        r == excess_upto(g@, p@.assignment, p@.k, opt_u32_view(*tpwgts), ufactor, p@.k as int, 0),
{
    let ghost gv = g@;
    let ghost av = p@.assignment;
    let ghost tp = opt_u32_view(*tpwgts);
    let k = p.k();
    let pw = part_weights(g, p.assignment(), k);
    let targets = balance_targets(&pw, k, tpwgts);
    let ncon = pw.len();
    proof {
        assert forall|c: int, q: int| 0 <= c < ncon && 0 <= q < k implies #[trigger] targets@[q]@[c]
            == part_target(total_load(gv, c, gv.n()), k, tp, q, c) by {
            lemma_sat_total_loads(gv, av, c, pw@[c]@, k as int, k as int);
        }
    }
    let mut max_excess: i64 = 0;
    let mut part: usize = 0;
    while part < k as usize
        invariant
            0 <= part <= k,
            ncon == pw@.len(),
            ncon == gv.ncon,
            forall|c: int| 0 <= c < pw@.len() ==> (#[trigger] pw@[c])@.len() == k,
            forall|c: int, q: int| 0 <= c < ncon && 0 <= q < k ==> #[trigger] pw@[c]@[q] == part_load(gv, av, c, q, gv.n()),
            targets@.len() == k,
            forall|q: int| 0 <= q < k ==> (#[trigger] targets@[q])@.len() == ncon,
            forall|c: int, q: int| 0 <= c < ncon && 0 <= q < k ==> #[trigger] targets@[q]@[c]
                == part_target(total_load(gv, c, gv.n()), k, tp, q, c),
            max_excess >= 0,
            max_excess == excess_upto(gv, av, k, tp, ufactor, part as int, 0),
        decreases k - part,
    {
        let mut c: usize = 0;
        while c < ncon
            invariant
                0 <= c <= ncon,
                part < k,
                ncon == pw@.len(),
                ncon == gv.ncon,
                forall|cc: int| 0 <= cc < pw@.len() ==> (#[trigger] pw@[cc])@.len() == k,
                forall|cc: int, q: int| 0 <= cc < ncon && 0 <= q < k ==> #[trigger] pw@[cc]@[q] == part_load(gv, av, cc, q, gv.n()),
                targets@.len() == k,
                forall|q: int| 0 <= q < k ==> (#[trigger] targets@[q])@.len() == ncon,
                forall|cc: int, q: int| 0 <= cc < ncon && 0 <= q < k ==> #[trigger] targets@[q]@[cc]
                    == part_target(total_load(gv, cc, gv.n()), k, tp, q, cc),
                max_excess >= 0,
                max_excess == excess_upto(gv, av, k, tp, ufactor, part as int, c as int),
            decreases ncon - c,
        {
            let target = targets[part][c];
            let eps = epsilon_of(target, ufactor);
            let d = sat_add(pw[c][part], if target == i64::MIN {
                i64::MAX
            } else {
                -target
            });
            let dev = if d < 0 {
                if d == i64::MIN {
                    i64::MAX
                } else {
                    -d
                }
            } else {
                d
            };
            let over = sat_add(dev, if eps == i64::MIN {
                i64::MAX
            } else {
                -eps
            });
            proof {
                assert(pw@[c as int]@[part as int] == part_load(gv, av, c as int, part as int, gv.n()));
                assert(targets@[part as int]@[c as int] == part_target(total_load(gv, c as int, gv.n()), k, tp, part as int, c as int));
                assert(over == part_excess(gv, av, k, tp, ufactor, part as int, c as int));
            }
            if over > max_excess {
                max_excess = over;
            }
            c += 1;
        }
        part += 1;
    }
    max_excess
}

/// Trial score `a` (balance excess, cut) ranks before `b`: less excess,
/// or as much excess and a smaller cut.
pub open spec fn ranks_before(a: (i64, i64), b: (i64, i64)) -> bool {
    a.0 < b.0 || (a.0 == b.0 && a.1 < b.1)
}

/// The score of a trial assignment: its balance excess against the shares
/// `tp` (the per-part totals otherwise), then its edge cut.
pub open spec fn trial_score(g: GraphView, a: Seq<u32>, k: u32, tp: Option<Seq<u32>>, ufactor: u32) -> (i64, i64) {
    (excess_upto(g, a, k, tp, ufactor, k as int, 0) as i64, crate::graph::metrics::edge_cut(g, a) as i64)
}

/// Trial `i` is the one kept among the trial assignments `trials`: no trial
/// ranks before it, and every earlier trial ranks after it.
pub open spec fn kept_trial(
    g: GraphView,
    trials: Seq<Seq<u32>>,
    k: u32,
    tp: Option<Seq<u32>>,
    ufactor: u32,
    i: int,
) -> bool {
    &&& 0 <= i < trials.len()
    &&& forall|t: int|
        0 <= t < trials.len() ==> !ranks_before(
            trial_score(g, #[trigger] trials[t], k, tp, ufactor),
            trial_score(g, trials[i], k, tp, ufactor),
        )
    &&& forall|t: int|
        0 <= t < i ==> ranks_before(
            trial_score(g, trials[i], k, tp, ufactor),
            trial_score(g, #[trigger] trials[t], k, tp, ufactor),
        )
}

/// Number of trials the parameters ask for: `ncuts`, at least one.
pub open spec fn trial_count(params: MetisParams) -> int {
    if params.ncuts > 1 {
        params.ncuts as int
    } else {
        1
    }
}

/// The parameters ask for neither contiguity repair nor connectivity
/// reduction after the trials.
pub open spec fn no_post_passes(params: MetisParams) -> bool {
    !params.contig_fm && !params.min_conn
}

/// `trials` are the trial assignments the parameters ask for, each over the
/// vertices of `g`, trial `i` is the one kept, and when `same` the result
/// `a` is that trial.
pub open spec fn picked_trial(
    g: GraphView,
    trials: Seq<Seq<u32>>,
    k: u32,
    tp: Option<Seq<u32>>,
    params: MetisParams,
    i: int,
    a: Seq<u32>,
    same: bool,
) -> bool {
    &&& trials.len() == trial_count(params)
    &&& forall|t: int| 0 <= t < trials.len() ==> (#[trigger] trials[t]).len() == g.n()
    &&& kept_trial(g, trials, k, tp, params.ufactor, i)
    &&& same ==> a == trials[i]
}

/// The trial to keep among `scores` (balance excess, cut): one that no
/// other trial ranks before, the earliest among equal scores.
pub fn best_trial(scores: &[(i64, i64)]) -> (r: usize)
    requires
        scores@.len() >= 1,
    ensures
        r < scores@.len(),
        forall|t: int| 0 <= t < scores@.len() ==> !ranks_before(#[trigger] scores@[t], scores@[r as int]),
        forall|t: int| 0 <= t < r ==> ranks_before(scores@[r as int], #[trigger] scores@[t]),
{
    let mut best: usize = 0;
    let mut i: usize = 1;
    while i < scores.len()
        invariant
            1 <= i <= scores@.len(),
            best < i,
            forall|t: int| 0 <= t < i ==> !ranks_before(#[trigger] scores@[t], scores@[best as int]),
            forall|t: int| 0 <= t < best ==> ranks_before(scores@[best as int], #[trigger] scores@[t]),
        decreases scores@.len() - i,
    {
        let (e, c) = scores[i];
        let (be, bc) = scores[best];
        if e < be || (e == be && c < bc) {
            best = i;
        }
        i += 1;
    }
    best
}

/// `base + trial * TRIAL_SEED_STEP`, wrapped to 64 bits.
pub open spec fn trial_seed_spec(base: u64, trial: int) -> int {
    (base + trial * TRIAL_SEED_STEP) % 0x1_0000_0000_0000_0000
}

/// The seed of trial `trial` from the base seed.
fn trial_seed(base: u64, trial: usize) -> (r: u64)
    ensures
        r as int == trial_seed_spec(base, trial as int),
{
    let step = (trial as u64).wrapping_mul(TRIAL_SEED_STEP);
    let r = base.wrapping_add(step);
    proof {
        let m: int = 0x1_0000_0000_0000_0000;
        assert(step as int == (trial as int * TRIAL_SEED_STEP) % m);
        assert(r as int == (base + step) % m) by {
            if base + step >= m {
                vstd::arithmetic::div_mod::lemma_fundamental_div_mod_converse(base + step, m, 1, base + step - m);
            } else {
                vstd::arithmetic::div_mod::lemma_small_mod((base + step) as nat, m as nat);
            }
        }
        vstd::arithmetic::div_mod::lemma_add_mod_noop_right(base as int, trial as int * TRIAL_SEED_STEP, m);
    }
    r
}

/// Coarsening `g` for `k` parts with the coarsener that `method` selects
/// (`own` for `Shem`, the others built from `coarsen_to` and `k`) never
/// reaches a stopping level: a `stalled_run` of it exists. Where that
/// coarsener fixes each step (`Coarsener::determined`), the run is the one
/// that coarsening actually makes, so this says exactly whether it stalls.
pub open spec fn method_stalls<C: Coarsener>(
    own: &C,
    method: CoarseningMethod,
    coarsen_to: u32,
    g: GraphView,
    k: u32,
) -> bool {
    match method {
        CoarseningMethod::Shem => exists|ls: Seq<GraphView>, ms: Seq<Seq<u32>>| stalled_run(own, g, ls, ms),
        CoarseningMethod::Hem => exists|ls: Seq<GraphView>, ms: Seq<Seq<u32>>|
            stalled_run(&(HeavyEdgeMatchWithParams { coarsen_to, k }), g, ls, ms),
        CoarseningMethod::MinDegree => exists|ls: Seq<GraphView>, ms: Seq<Seq<u32>>| stalled_run(&MinDegreeMatch, g, ls, ms),
        CoarseningMethod::TwoHop => exists|ls: Seq<GraphView>, ms: Seq<Seq<u32>>|
            stalled_run(&(TwoHopMatchWithParams { coarsen_to, k }), g, ls, ms),
    }
}

impl<C: Coarsener, I: InitialPartitioner, R: Refiner> RustMetisPartitioner<C, I, R> {
    /// Coarsening `g` for `k` parts with the coarsener that the parameters
    /// select never reaches a stopping level (see `method_stalls`).
    pub open spec fn hierarchy_stalls(&self, g: GraphView, k: u32) -> bool {
        method_stalls(&self.coarsener, self.params.coarsen_method, self.params.coarsen_to, g, k)
    }

    fn hierarchy_for(&self, g: &CsrGraph, k: u32) -> (r: Result<CoarseningHierarchy, PartitionError>)
        requires
            g@.sound(),
        ensures
            match r {
                Ok(h) => h.wf() && h.level(0) == g@,
                Err(e) => e == PartitionError::CoarseningStalled && self.hierarchy_stalls(g@, k),
            },
            self.params.coarsen_method == CoarseningMethod::Shem && self.coarsener.stops(g@) ==> r is Ok,
    {
        match self.params.coarsen_method {
            CoarseningMethod::Shem => CoarseningHierarchy::build(g, &self.coarsener),
            CoarseningMethod::Hem => {
                let c = HeavyEdgeMatchWithParams { coarsen_to: self.params.coarsen_to, k };
                CoarseningHierarchy::build(g, &c)
            },
            CoarseningMethod::MinDegree => CoarseningHierarchy::build(g, &MinDegreeMatch),
            CoarseningMethod::TwoHop => {
                let c = TwoHopMatchWithParams { coarsen_to: self.params.coarsen_to, k };
                CoarseningHierarchy::build(g, &c)
            },
        }
    }

    /// The direct k-way pipeline on a graph that passed the input checks:
    /// `ncuts` trials (at least one), each coarsening, growing, refining,
    /// projecting and rebalancing from its own seed; the trial with the
    /// least balance excess, then the smallest cut, wins. Afterwards the
    /// optional contiguity repair and connectivity reduction run.
    fn direct_split(&self, g: &CsrGraph, k: u32, base_seed: u64) -> (r: Result<Partition, PartitionError>)
        requires
            g@.sound(),
            input_error(g@, k as int) is None,
        ensures
            match r {
                Ok(p) => p@.fits(g@) && p@.k == k,
                Err(e) => e == PartitionError::CoarseningStalled && self.hierarchy_stalls(g@, k),
            },
            self.params.coarsen_method == CoarseningMethod::Shem && self.coarsener.stops(g@) ==> r is Ok,
            self.params.contig_fm && g@.valid() ==> (r matches Ok(p) ==> all_contiguous(g@, p@.assignment, p@.k)),
            r matches Ok(p) ==> exists|trials: Seq<Seq<u32>>, i: int|
                #[trigger] picked_trial(g@, trials, k, None, self.params, i, p@.assignment, no_post_passes(self.params)),
    {
        let ncuts: usize = if self.params.ncuts > 1 {
            self.params.ncuts as usize
        } else {
            1
        };
        let mut trials: Vec<Partition> = Vec::new();
        let mut scores: Vec<(i64, i64)> = Vec::new();
        let mut trial: usize = 0;
        while trial < ncuts
            invariant
                g@.sound(),
                input_error(g@, k as int) is None,
                1 <= ncuts,
                0 <= trial <= ncuts,
                trials@.len() == trial,
                scores@.len() == trial,
                forall|t: int| 0 <= t < trial ==> (#[trigger] trials@[t])@.fits(g@) && trials@[t]@.k == k,
                ncuts == trial_count(self.params),
                forall|t: int|
                    0 <= t < trial ==> #[trigger] scores@[t] == trial_score(
                        g@,
                        trials@[t]@.assignment,
                        k,
                        None,
                        self.params.ufactor,
                    ),
            decreases ncuts - trial,
        {
            let seed = trial_seed(base_seed, trial);
            let hierarchy = match self.hierarchy_for(g, k) {
                Ok(h) => h,
                Err(e) => {
                    return Err(e);
                },
            };
            let mut p = Pipeline::new(hierarchy).with_contiguity_repair(self.params.contig_fm).initial_partition(
                &self.init,
                k,
                seed,
            ).refine_and_project(&self.refiner).into_partition();
            rebalance_to_ufactor(g, &mut p, self.params.ufactor);
            let cut = compute_cut(g, p.assignment());
            let excess = balance_excess(g, &p, self.params.ufactor, &None);
            trials.push(p);
            scores.push((excess, cut));
            trial += 1;
        }
        let chosen = best_trial(scores.as_slice());
        let ghost ts = Seq::new(trials@.len(), |t: int| trials@[t]@.assignment);
        proof {
            let sc = trial_score(g@, ts[chosen as int], k, None, self.params.ufactor);
            assert(scores@[chosen as int] == sc);
            assert forall|t: int| 0 <= t < ts.len() implies !ranks_before(
                trial_score(g@, #[trigger] ts[t], k, None, self.params.ufactor),
                sc,
            ) by {
                assert(!ranks_before(scores@[t], scores@[chosen as int]));
            }
            assert forall|t: int| 0 <= t < chosen implies ranks_before(
                sc,
                trial_score(g@, #[trigger] ts[t], k, None, self.params.ufactor),
            ) by {
                assert(ranks_before(scores@[chosen as int], scores@[t]));
            }
            assert(kept_trial(g@, ts, k, None, self.params.ufactor, chosen as int));
            assert forall|t: int| 0 <= t < ts.len() implies (#[trigger] ts[t]).len() == g@.n() by {
                assert(trials@[t]@.fits(g@));
            }
        }
        let mut p = trials.swap_remove(chosen);
        proof {
            assert(p@.assignment == ts[chosen as int]);
        }
        if self.params.contig_fm {
            repair_contiguity(g, &mut p);
        }
        if self.params.min_conn {
            minimize_connectivity(g, &mut p, self.params.ufactor);
            if self.params.contig_fm {
                repair_contiguity(g, &mut p);
            }
        }
        proof {
            assert(picked_trial(g@, ts, k, None, self.params, chosen as int, p@.assignment, no_post_passes(self.params)));
        }
        Ok(p)
    }

    /// The trials of a weighted split on a graph that passed the input
    /// checks: `ncuts` trials (at least one), each coarsening (with the
    /// coarsener the parameters select when `by_method`, else with the
    /// partitioner's own), growing an initial partition that carries the
    /// shares as targets, refining and projecting; the trial with the least
    /// balance excess against the shares, then the smallest cut, wins,
    /// without target shares.
    fn weighted_trials(&self, g: &CsrGraph, fracs: &[u32], base_seed: u64, by_method: bool) -> (r: Result<
        Partition,
        PartitionError,
    >)
        requires
            g@.sound(),
            fracs@.len() <= u32::MAX,
            share_total(fracs@) <= u32::MAX,
            weighted_input_error(g@, fracs@) is None,
        ensures
            match r {
                Ok(p) => p@.fits(g@) && p@.k == fracs@.len(),
                Err(e) => e == PartitionError::CoarseningStalled && if by_method {
                    self.hierarchy_stalls(g@, fracs@.len() as u32)
                } else {
                    exists|ls: Seq<GraphView>, ms: Seq<Seq<u32>>| stalled_run(&self.coarsener, g@, ls, ms)
                },
            },
            (!by_method || self.params.coarsen_method == CoarseningMethod::Shem) && self.coarsener.stops(g@) ==> r is Ok,
            r matches Ok(p) ==> p@.tpwgts is None && exists|trials: Seq<Seq<u32>>, i: int|
                #[trigger] picked_trial(g@, trials, fracs@.len() as u32, Some(fracs@), self.params, i, p@.assignment, true),
    {
        let k = fracs.len() as u32;
        let tpwgts: Vec<u32> = copy_u32(fracs);
        let ncuts: usize = if self.params.ncuts > 1 {
            self.params.ncuts as usize
        } else {
            1
        };
        let mut trials: Vec<Partition> = Vec::new();
        let mut scores: Vec<(i64, i64)> = Vec::new();
        let mut trial: usize = 0;
        while trial < ncuts
            invariant
                g@.sound(),
                g@.n() >= 1,
                k >= 1,
                k as int == fracs@.len(),
                weighted_input_error(g@, fracs@) is None,
                tpwgts@.len() == k,
                tpwgts@ == fracs@,
                1 <= ncuts,
                ncuts == trial_count(self.params),
                0 <= trial <= ncuts,
                trials@.len() == trial,
                scores@.len() == trial,
                forall|t: int| 0 <= t < trial ==> (#[trigger] trials@[t])@.fits(g@) && trials@[t]@.k == k,
                forall|t: int| 0 <= t < trial ==> (#[trigger] trials@[t])@.tpwgts is None,
                forall|t: int|
                    0 <= t < trial ==> #[trigger] scores@[t] == trial_score(
                        g@,
                        trials@[t]@.assignment,
                        k,
                        Some(fracs@),
                        self.params.ufactor,
                    ),
            decreases ncuts - trial,
        {
            let seed = trial_seed(base_seed, trial);
            let built = if by_method {
                self.hierarchy_for(g, k)
            } else {
                CoarseningHierarchy::build(g, &self.coarsener)
            };
            let hierarchy = match built {
                Ok(h) => h,
                Err(e) => {
                    return Err(e);
                },
            };
            proof {
                crate::multilevel::pipeline::lemma_levels_nonempty(&hierarchy, hierarchy.levels@.len() - 1);
            }
            let mut init_p = self.init.partition(hierarchy.coarsest(), k, seed);
            init_p.set_tpwgts(Some(copy_u32(tpwgts.as_slice())));
            let mut result = Pipeline::from_initial_partition(hierarchy, init_p, self.params.contig_fm).refine_and_project(
                &self.refiner,
            ).into_partition();
            let cut = compute_cut(g, result.assignment());
            let tp = Some(copy_u32(tpwgts.as_slice()));
            let excess = balance_excess(g, &result, self.params.ufactor, &tp);
            result.set_tpwgts(None);
            proof {
                assert(opt_u32_view(tp) == Some(fracs@));
            }
            trials.push(result);
            scores.push((excess, cut));
            trial += 1;
        }
        let chosen = best_trial(scores.as_slice());
        let ghost ts = Seq::new(trials@.len(), |t: int| trials@[t]@.assignment);
        proof {
            assert forall|t: int| 0 <= t < ts.len() implies #[trigger] scores@[t] == trial_score(
                g@,
                ts[t],
                k,
                Some(fracs@),
                self.params.ufactor,
            ) by {}
            let sc = trial_score(g@, ts[chosen as int], k, Some(fracs@), self.params.ufactor);
            assert(scores@[chosen as int] == sc);
            assert forall|t: int| 0 <= t < ts.len() implies !ranks_before(
                trial_score(g@, #[trigger] ts[t], k, Some(fracs@), self.params.ufactor),
                sc,
            ) by {
                assert(!ranks_before(scores@[t], scores@[chosen as int]));
            }
            assert forall|t: int| 0 <= t < chosen implies ranks_before(
                sc,
                trial_score(g@, #[trigger] ts[t], k, Some(fracs@), self.params.ufactor),
            ) by {
                assert(ranks_before(scores@[chosen as int], scores@[t]));
            }
            assert(kept_trial(g@, ts, k, Some(fracs@), self.params.ufactor, chosen as int));
            assert forall|t: int| 0 <= t < ts.len() implies (#[trigger] ts[t]).len() == g@.n() by {
                assert(trials@[t]@.fits(g@));
            }
        }
        let r = trials.swap_remove(chosen);
        proof {
            assert(r@.assignment == ts[chosen as int]);
            assert(picked_trial(g@, ts, k, Some(fracs@), self.params, chosen as int, r@.assignment, true));
        }
        Ok(r)
    }

    /// The input checks, then the direct pipeline from `seed`.
    pub(crate) fn checked_direct_split(&self, g: &CsrGraph, k: u32, seed: u64) -> (r: Result<Partition, PartitionError>)
        requires
            g@.sound(),
        ensures
            input_error(g@, k as int) matches Some(e) ==> r == Err::<Partition, PartitionError>(e),
            r matches Ok(p) ==> p@.fits(g@) && p@.k == k,
            input_error(g@, k as int) is None && self.params.coarsen_method == CoarseningMethod::Shem
                && self.coarsener.stops(g@) ==> r is Ok,
            input_error(g@, k as int) is None ==> (r is Err ==> self.hierarchy_stalls(g@, k)),
            r matches Err(e) ==> input_error(g@, k as int) == Some(e) || e == PartitionError::CoarseningStalled,
            self.params.contig_fm && g@.valid() ==> (r matches Ok(p) ==> all_contiguous(g@, p@.assignment, p@.k)),
    {
        match check_inputs(g, k) {
            Err(e) => Err(e),
            Ok(()) => self.direct_split(g, k, seed),
        }
    }
}

impl<C: Coarsener, I: InitialPartitioner, R: Refiner> Partitioner for RustMetisPartitioner<C, I, R> {
    /// After the input checks and the check of the target shares: with
    /// target shares, the weighted trials with the coarsener the parameters
    /// select; with `use_recursive` and more than two parts, recursive
    /// bisection; otherwise the direct pipeline. The first two are followed
    /// by the optional repair and connectivity reduction, which the direct
    /// pipeline runs itself. The seed is the parameters' own, else the
    /// caller's, else `DEFAULT_SEED`. Past the checks, the only error is a
    /// stalled coarsening (see `hierarchy_stalls`), or on the recursive path
    /// an input check of a bisected half.
    fn split(&self, g: &CsrGraph, k: u32, seed: Option<u64>) -> (r: Result<Partition, PartitionError>)
        ensures
            r matches Err(e) ==> input_error(g@, k as int) == Some(e) || (input_error(g@, k as int) is None && (
            target_error(opt_u32_view(self.params.tpwgts), k, self.params.use_recursive) == Some(e) || (target_error(
                opt_u32_view(self.params.tpwgts),
                k,
                self.params.use_recursive,
            ) is None && e == PartitionError::CoarseningStalled && if self.params.use_recursive && k > 2 {
                true
            } else {
                self.hierarchy_stalls(g@, k)
            }) || (self.params.use_recursive && k > 2 && is_input_error(e)))),
            input_error(g@, k as int) is None ==> match target_error(
                opt_u32_view(self.params.tpwgts),
                k,
                self.params.use_recursive,
            ) {
                Some(e) => r == Err::<Partition, PartitionError>(e),
                None => true,
            },
            input_error(g@, k as int) is None && target_error(
                opt_u32_view(self.params.tpwgts),
                k,
                self.params.use_recursive,
            ) is None && !(self.params.use_recursive && k > 2) && self.params.coarsen_method
                == CoarseningMethod::Shem && self.coarsener.stops(g@) ==> r is Ok,
            self.params.contig_fm && g@.valid() ==> (r matches Ok(p) ==> all_contiguous(
                g@,
                p@.assignment,
                p@.k,
            )),
            self.params.tpwgts is None && !(self.params.use_recursive && k > 2) ==> (r matches Ok(p) ==> exists|
                trials: Seq<Seq<u32>>,
                i: int,
            |
                #[trigger] picked_trial(g@, trials, k, None, self.params, i, p@.assignment, no_post_passes(self.params))),
            self.params.tpwgts matches Some(tw) ==> (r matches Ok(p) ==> exists|trials: Seq<Seq<u32>>, i: int|
                #[trigger] picked_trial(g@, trials, k, Some(tw@), self.params, i, p@.assignment, no_post_passes(self.params))),
    {
        match check_inputs(g, k) {
            Err(e) => {
                return Err(e);
            },
            Ok(()) => {},
        }
        match check_targets(&self.params.tpwgts, k, self.params.use_recursive) {
            Err(e) => {
                return Err(e);
            },
            Ok(()) => {},
        }
        let base_seed = match self.params.seed {
            Some(s) => s,
            None => match seed {
                Some(s) => s,
                None => DEFAULT_SEED,
            },
        };
        if let Some(t) = &self.params.tpwgts {
            proof {
                assert(share_total(t@) > 0) by {
                    lemma_share_total_positive(t@);
                }
            }
            let mut p = match self.weighted_trials(g, t.as_slice(), base_seed, true) {
                Ok(p) => p,
                Err(e) => {
                    return Err(e);
                },
            };
            let ghost p0 = p@;
            let ghost (trials, i) = choose|trials: Seq<Seq<u32>>, i: int|
                #[trigger] picked_trial(g@, trials, t@.len() as u32, Some(t@), self.params, i, p0.assignment, true);
            proof {
                assert(t@.len() == k);
            }
            if self.params.contig_fm {
                repair_contiguity(g, &mut p);
            }
            if self.params.min_conn {
                minimize_connectivity(g, &mut p, self.params.ufactor);
                if self.params.contig_fm {
                    repair_contiguity(g, &mut p);
                }
            }
            proof {
                assert(picked_trial(g@, trials, k, Some(t@), self.params, i, p@.assignment, no_post_passes(self.params)));
            }
            return Ok(p);
        }
        if self.params.use_recursive && k > 2 {
            let rb = RecursiveBisect {
                niter: self.params.niter,
                ncuts: self.params.ncuts,
                coarsen_to: self.params.coarsen_to,
                ufactor: self.params.ufactor,
                contig_fm: self.params.contig_fm,
            };
            let mut p = match rb.partition_graph(g, k, base_seed) {
                Ok(p) => p,
                Err(e) => {
                    return Err(e);
                },
            };
            if self.params.contig_fm {
                repair_contiguity(g, &mut p);
            }
            if self.params.min_conn {
                minimize_connectivity(g, &mut p, self.params.ufactor);
                if self.params.contig_fm {
                    repair_contiguity(g, &mut p);
                }
            }
            return Ok(p);
        }
        self.direct_split(g, k, base_seed)
    }

    /// After the input checks, the weighted trials (see `weighted_trials`)
    /// with the partitioner's own coarsener; past the checks, the only error
    /// is a stalled coarsening, and the result is the trial ranked first by
    /// balance excess against the shares, then cut (`picked_trial`).
    fn split_weighted(&self, g: &CsrGraph, fracs: &[u32], seed: Option<u64>) -> (r: Result<Partition, PartitionError>)
        ensures
            weighted_input_error(g@, fracs@) is None && self.coarsener.stops(g@) ==> r is Ok,
            r matches Err(e) ==> weighted_input_error(g@, fracs@) == Some(e) || (weighted_input_error(g@, fracs@) is None
                && e == PartitionError::CoarseningStalled && exists|ls: Seq<GraphView>, ms: Seq<Seq<u32>>|
                stalled_run(&self.coarsener, g@, ls, ms)),
            r matches Ok(p) ==> p@.tpwgts is None && exists|trials: Seq<Seq<u32>>, i: int|
                #[trigger] picked_trial(g@, trials, fracs@.len() as u32, Some(fracs@), self.params, i, p@.assignment, true),
    {
        if fracs.len() == 0 {
            return Err(PartitionError::ZeroParts);
        }
        let mut total: u32 = 0;
        let mut i: usize = 0;
        while i < fracs.len()
            invariant
                0 <= i <= fracs@.len(),
                share_total(fracs@) <= u32::MAX,
                total == share_total(fracs@.subrange(0, i as int)),
            decreases fracs@.len() - i,
        {
            proof {
                lemma_share_total_prefix(fracs@, i as int + 1);
                assert(fracs@.subrange(0, i as int + 1).drop_last() =~= fracs@.subrange(0, i as int));
            }
            total = total + fracs[i];
            i += 1;
        }
        proof {
            assert(fracs@.subrange(0, fracs@.len() as int) =~= fracs@);
        }
        if total == 0 {
            return Err(PartitionError::ZeroParts);
        }
        let k = fracs.len() as u32;
        if g.n() == 0 {
            return Err(PartitionError::EmptyGraph);
        }
        if !g.is_valid() {
            return Err(PartitionError::InvalidGraph("is_valid() failed"));
        }
        if k as usize > g.n() {
            return Err(PartitionError::TooManyParts { k, n: g.n() });
        }
        let base_seed = match self.params.seed {
            Some(s) => s,
            None => match seed {
                Some(s) => s,
                None => DEFAULT_SEED,
            },
        };
        self.weighted_trials(g, fracs, base_seed, false)
    }
}

/// Non-empty positive shares have a positive total.
proof fn lemma_share_total_positive(s: Seq<u32>)
    requires
        s.len() >= 1,
        forall|i: int| 0 <= i < s.len() ==> #[trigger] s[i] != 0,
    ensures
        share_total(s) > 0,
    decreases s.len(),
{
    if s.len() > 1 {
        assert forall|i: int| 0 <= i < s.drop_last().len() implies #[trigger] s.drop_last()[i] != 0 by {
            assert(s.drop_last()[i] == s[i]);
        }
        lemma_share_total_positive(s.drop_last());
    }
    lemma_share_total_nonneg(s.drop_last());
}

/// The running total of a prefix grows by the next share.
proof fn lemma_share_total_prefix(s: Seq<u32>, i: int)
    requires
        0 < i <= s.len(),
    ensures
        share_total(s.subrange(0, i)) == share_total(s.subrange(0, i - 1)) + s[i - 1],
        share_total(s.subrange(0, i)) <= share_total(s),
        share_total(s.subrange(0, i)) >= 0,
    decreases s.len() - i,
{
    assert(s.subrange(0, i).drop_last() =~= s.subrange(0, i - 1));
    if i < s.len() {
        lemma_share_total_prefix(s, i + 1);
    } else {
        assert(s.subrange(0, i) =~= s);
    }
    lemma_share_total_nonneg(s.subrange(0, i - 1));
}

/// Shares never sum below zero.
proof fn lemma_share_total_nonneg(s: Seq<u32>)
    ensures
        share_total(s) >= 0,
    decreases s.len(),
{
    if s.len() > 0 {
        lemma_share_total_nonneg(s.drop_last());
    }
}

/// Sum of the first `i` weights.
pub open spec fn weight_sum(w: Seq<i32>, i: int) -> int
    decreases i,
{
    if i <= 0 {
        0
    } else {
        weight_sum(w, i - 1) + w[i - 1]
    }
}

/// Sum of the magnitudes of the first `i` weights.
pub open spec fn weight_abs_sum(w: Seq<i32>, i: int) -> int
    decreases i,
{
    if i <= 0 {
        0
    } else {
        weight_abs_sum(w, i - 1) + if w[i - 1] < 0 {
            -w[i - 1]
        } else {
            w[i - 1] as int
        }
    }
}

/// Sum of the weights `w[v]` of the vertices `v < i` in part `part`.
pub open spec fn part_weight_sum(w: Seq<i32>, a: Seq<u32>, part: int, i: int) -> int
    decreases i,
{
    if i <= 0 {
        0
    } else {
        part_weight_sum(w, a, part, i - 1) + if a[i - 1] == part {
            w[i - 1] as int
        } else {
            0
        }
    }
}

/// Division rounding toward zero.
pub open spec fn div_toward_zero(x: int, d: int) -> int {
    if x >= 0 {
        x / d
    } else {
        -((-x) / d)
    }
}

/// Every part's weight (the first weight entry per vertex) lies within
/// `ceil(0.5%)` of the total weight, `(total * 5 + 999) / 1000`, of
/// `total / k`; the total sums every weight entry.
pub open spec fn weight_balanced(g: GraphView, p: crate::graph::partition::PartitionView) -> bool {
    let total = weight_sum(g.vwgt, g.vwgt.len() as int);
    let target = div_toward_zero(total, p.k as int);
    let eps = div_toward_zero(total * 5 + 999, 1000);
    forall|part: int|
        0 <= part < p.k ==> -eps <= #[trigger] part_weight_sum(g.vwgt, p.assignment, part, g.n()) - target <= eps
}

/// Partial sums never outgrow the sum of magnitudes.
proof fn lemma_weight_sums_bounded(w: Seq<i32>, a: Seq<u32>, part: int, i: int, j: int)
    requires
        0 <= i <= j <= w.len(),
    ensures
        -weight_abs_sum(w, j) <= weight_sum(w, i) <= weight_abs_sum(w, j),
        -weight_abs_sum(w, j) <= part_weight_sum(w, a, part, i) <= weight_abs_sum(w, j),
        weight_abs_sum(w, i) <= weight_abs_sum(w, j),
    decreases j,
{
    if j > i {
        lemma_weight_sums_bounded(w, a, part, i, j - 1);
    } else if i > 0 {
        lemma_weight_sums_bounded(w, a, part, i - 1, j - 1);
    }
}

/// Whether every part's weight is within `ceil(0.5%)` of the total of
/// `total / k`, in integer arithmetic.
pub fn weight_balance_check(p: &Partition, g: &CsrGraph) -> (r: bool)
    requires
        g@.sound(),
        p@.k >= 1,
        p@.assignment.len() >= g@.n(),
        weight_abs_sum(g@.vwgt, g@.vwgt.len() as int) * 5 + 999 <= i64::MAX,
    ensures
        r == weight_balanced(g@, p@),
{
    let ghost gv = g@;
    let vw = g.vwgt();
    let a = p.assignment();
    let n = g.n();
    let k = p.k();
    let ghost bound = weight_abs_sum(gv.vwgt, gv.vwgt.len() as int);
    proof {
        assert(gv.n() <= gv.n() * gv.ncon) by (nonlinear_arith)
            requires
                gv.ncon >= 1,
                gv.n() >= 0,
        ;
    }
    let mut total: i64 = 0;
    let mut i: usize = 0;
    while i < vw.len()
        invariant
            vw@ == gv.vwgt,
            0 <= i <= vw@.len(),
            bound == weight_abs_sum(gv.vwgt, gv.vwgt.len() as int),
            bound * 5 + 999 <= i64::MAX,
            total == weight_sum(gv.vwgt, i as int),
        decreases vw@.len() - i,
    {
        proof {
            lemma_weight_sums_bounded(gv.vwgt, a@, 0, i as int + 1, gv.vwgt.len() as int);
        }
        total = total + vw[i] as i64;
        i += 1;
    }
    proof {
        lemma_weight_sums_bounded(gv.vwgt, a@, 0, gv.vwgt.len() as int, gv.vwgt.len() as int);
    }
    let kk = k as i64;
    let target: i64 = if total >= 0 {
        total / kk
    } else {
        -((-total) / kk)
    };
    let scaled = total * 5 + 999;
    let eps: i64 = if scaled >= 0 {
        scaled / 1000
    } else {
        -((-scaled) / 1000)
    };
    proof {
        assert(-bound <= target <= bound) by (nonlinear_arith)
            requires
                -bound <= total <= bound,
                kk >= 1,
                target == div_toward_zero(total as int, kk as int),
        ;
    }
    let mut part: u32 = 0;
    while part < k
        invariant
            gv == g@,
            vw@ == gv.vwgt,
            a@ == p@.assignment,
            n == gv.n(),
            n <= vw@.len(),
            a@.len() >= n,
            k == p@.k,
            bound == weight_abs_sum(gv.vwgt, gv.vwgt.len() as int),
            bound * 5 + 999 <= i64::MAX,
            -bound <= target <= bound,
            target == div_toward_zero(weight_sum(gv.vwgt, gv.vwgt.len() as int), k as int),
            eps == div_toward_zero(weight_sum(gv.vwgt, gv.vwgt.len() as int) * 5 + 999, 1000),
            0 <= part <= k,
            forall|q: int|
                0 <= q < part ==> -eps <= #[trigger] part_weight_sum(gv.vwgt, a@, q, n as int) - target <= eps,
        decreases k - part,
    {
        let mut wgt: i64 = 0;
        let mut v: usize = 0;
        while v < n
            invariant
                vw@ == gv.vwgt,
                a@ == p@.assignment,
                n == gv.n(),
                n <= vw@.len(),
                a@.len() >= n,
                bound == weight_abs_sum(gv.vwgt, gv.vwgt.len() as int),
                bound * 5 + 999 <= i64::MAX,
                0 <= v <= n,
                wgt == part_weight_sum(gv.vwgt, a@, part as int, v as int),
            decreases n - v,
        {
            proof {
                lemma_weight_sums_bounded(gv.vwgt, a@, part as int, v as int + 1, gv.vwgt.len() as int);
            }
            if a[v] == part {
                wgt = wgt + vw[v] as i64;
            }
            v += 1;
        }
        proof {
            lemma_weight_sums_bounded(gv.vwgt, a@, part as int, n as int, gv.vwgt.len() as int);
        }
        let d = wgt - target;
        if d > eps || d < -eps {
            proof {
                let w = part_weight_sum(gv.vwgt, p@.assignment, part as int, gv.n());
                assert(!(-eps <= w - target <= eps));
                if weight_balanced(g@, p@) {
                    assert(-eps <= part_weight_sum(g@.vwgt, p@.assignment, part as int, g@.n()) - target <= eps);
                }
            }
            return false;
        }
        part += 1;
    }
    true
}

} // verus!
