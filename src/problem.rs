//! What a problem's configuration means for judging: its packs, the weight
//! of each case and the bounds that a usable problem keeps.
use vstd::prelude::*;
use crate::model::{Problem, ProblemType, MAX_CASES, MAX_CASE_SCORE, RATIO_ONE};
use crate::text::{occurrences, texts};

verus! {

/// Largest weight of one case: its score times the share left after the
/// dynamic-ranking ratio, in millionths of a point.
pub const MAX_WEIGHT: u64 = 1_000_000_000;

/// The problem's dynamic-ranking ratio in thousandths, 0 when it has none.
pub open spec fn ratio(p: Problem) -> nat {
    match p.misc.dynamic_ranking_ratio {
        Some(r) => r as nat,
        None => 0,
    }
}

/// The packs of a problem: the configured ones, else one pack of every case
/// in order.
pub open spec fn packs(p: Problem) -> Seq<Seq<usize>> {
    match p.misc.packing {
        Some(v) => v@.map_values(|x: Vec<usize>| x@),
        None => seq![Seq::new(p.cases@.len(), |i: int| (i + 1) as usize)],
    }
}

/// What an accepted case (1-based) adds to the score of its pack.
pub open spec fn weight(p: Problem, c: int) -> nat {
    (p.cases@[c - 1].score * (RATIO_ONE - ratio(p))) as nat
}

/// The score of a pack whose cases are all accepted.
pub open spec fn pack_weight(p: Problem, pack: Seq<usize>) -> nat
    decreases pack.len(),
{
    if pack.len() == 0 {
        0
    } else {
        pack_weight(p, pack.drop_last()) + weight(p, pack.last() as int)
    }
}

/// How many entries the first `q` packs hold.
pub open spec fn entries_before(ps: Seq<Seq<usize>>, q: int) -> nat
    decreases q,
{
    if q <= 0 {
        0
    } else {
        entries_before(ps, q - 1) + ps[q - 1].len()
    }
}

/// The full score of the problem, less the share of the dynamic-ranking
/// bonus, in millionths of a point.
pub open spec fn full_score(p: Problem) -> nat {
    (crate::model::FULL_SCORE * (RATIO_ONE - ratio(p))) as nat
}

/// A problem that can be judged: its sizes within bounds, a ratio of at most
/// one, packs that name its cases, and a special judge's command where it
/// needs one.
pub open spec fn problem_ok(p: Problem) -> bool {
    &&& p.cases@.len() <= MAX_CASES
    &&& forall|i: int| 0 <= i < p.cases@.len() ==> #[trigger] p.cases@[i].score <= MAX_CASE_SCORE
    &&& ratio(p) <= RATIO_ONE
    &&& entries_before(packs(p), packs(p).len() as int) <= MAX_CASES
    &&& forall|q: int, k: int|
        0 <= q < packs(p).len() && 0 <= k < packs(p)[q].len() ==> 1 <= #[trigger] packs(p)[q][k]
            <= p.cases@.len()
    &&& p.ty == ProblemType::Spj ==> (p.misc.special_judge matches Some(c) && occurrences(
        texts(c@),
        "%OUTPUT%"@,
    ) == 1 && occurrences(texts(c@), "%ANSWER%"@) == 1)
}

pub proof fn lemma_entries_monotone(ps: Seq<Seq<usize>>, q: int, r: int)
    requires
        0 <= q <= r,
    ensures
        entries_before(ps, q) <= entries_before(ps, r),
    decreases r - q,
{
    if q < r {
        lemma_entries_monotone(ps, q, r - 1);
    }
}

/// The packs of a problem, and each of them, are no longer than a `Vec`
/// can be.
pub proof fn lemma_packs_fit(p: Problem)
    ensures
        packs(p).len() <= usize::MAX,
        forall|q: int| 0 <= q < packs(p).len() ==> #[trigger] packs(p)[q].len() <= usize::MAX,
{
    broadcast use vstd::std_specs::vec::axiom_spec_len;

    match p.misc.packing {
        Some(v) => {
            assert(v@.len() == v.len());
            assert forall|q: int| 0 <= q < packs(p).len() implies #[trigger] packs(p)[q].len()
                <= usize::MAX by {
                assert(v@[q]@.len() == v@[q].len());
            }
        },
        None => {
            assert(p.cases@.len() == p.cases.len());
        },
    }
}

/// How many packs the problem has.
pub fn pack_count(p: &Problem) -> (r: usize)
    ensures
        r == packs(*p).len(),
{
    match &p.misc.packing {
        Some(v) => v.len(),
        None => 1,
    }
}

/// How many entries pack `q` has.
pub fn pack_len(p: &Problem, q: usize) -> (r: usize)
    requires
        q < packs(*p).len(),
    ensures
        r == packs(*p)[q as int].len(),
{
    match &p.misc.packing {
        Some(v) => v[q].len(),
        None => p.cases.len(),
    }
}

/// Entry `k` of pack `q`: a 1-based case index.
pub fn pack_entry(p: &Problem, q: usize, k: usize) -> (r: usize)
    requires
        q < packs(*p).len(),
        k < packs(*p)[q as int].len(),
    ensures
        r == packs(*p)[q as int][k as int],
{
    match &p.misc.packing {
        Some(v) => v[q][k],
        None => {
            let n = p.cases.len();
            assert(packs(*p)[q as int].len() == n);
            k + 1
        },
    }
}

/// The problem's dynamic-ranking ratio in thousandths, 0 when it has none.
pub fn ratio_of(p: &Problem) -> (r: u64)
    ensures
        r == ratio(*p),
{
    match p.misc.dynamic_ranking_ratio {
        Some(r) => r,
        None => 0,
    }
}

/// What an accepted case adds to the score of its pack.
pub fn case_weight(p: &Problem, c: usize) -> (r: u64)
    requires
        problem_ok(*p),
        1 <= c <= p.cases@.len(),
    ensures
        r == weight(*p, c as int),
        r <= MAX_WEIGHT,
{
    let score = p.cases[c - 1].score;
    let share = RATIO_ONE - ratio_of(p);
    assert(score * share <= MAX_CASE_SCORE * RATIO_ONE) by (nonlinear_arith)
        requires
            score <= MAX_CASE_SCORE,
            share <= RATIO_ONE,
    ;
    score * share
}

/// Whether a problem can be judged.
pub fn problem_check(p: &Problem) -> (r: bool)
    ensures
        r == problem_ok(*p),
{
    let n = p.cases.len();
    if n > MAX_CASES {
        return false;
    }
    let mut i: usize = 0;
    while i < n
        invariant
            n == p.cases@.len(),
            i <= n,
            forall|j: int| 0 <= j < i ==> #[trigger] p.cases@[j].score <= MAX_CASE_SCORE,
        decreases n - i,
    {
        if p.cases[i].score > MAX_CASE_SCORE {
            return false;
        }
        i = i + 1;
    }
    if ratio_of(p) > RATIO_ONE {
        return false;
    }
    let count = pack_count(p);
    let ghost ps = packs(*p);
    let mut total: usize = 0;
    let mut q: usize = 0;
    while q < count
        invariant
            count == ps.len(),
            ps == packs(*p),
            n == p.cases@.len(),
            q <= count,
            total == entries_before(ps, q as int),
            total <= MAX_CASES,
            forall|a: int, k: int|
                0 <= a < q && 0 <= k < ps[a].len() ==> 1 <= #[trigger] ps[a][k] <= n,
        decreases count - q,
    {
        let len = pack_len(p, q);
        if len > MAX_CASES - total {
            proof {
                lemma_entries_monotone(ps, q + 1, ps.len() as int);
            }
            return false;
        }
        let mut k: usize = 0;
        while k < len
            invariant
                count == ps.len(),
                ps == packs(*p),
                n == p.cases@.len(),
                q < count,
                len == ps[q as int].len(),
                k <= len,
                forall|j: int| 0 <= j < k ==> 1 <= #[trigger] ps[q as int][j] <= n,
            decreases len - k,
        {
            let c = pack_entry(p, q, k);
            if c < 1 || c > n {
                return false;
            }
            k = k + 1;
        }
        total = total + len;
        q = q + 1;
    }
    match p.ty {
        ProblemType::Spj => match &p.misc.special_judge {
            Some(c) => {
                let probe = crate::text::fill_template(c, "%OUTPUT%", "", "%ANSWER%", "");
                probe.is_some()
            },
            None => false,
        },
        _ => true,
    }
}

} // verus!
