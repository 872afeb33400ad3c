//! The judging of one submission as a state machine. The caller compiles
//! the source and runs the cases it is asked for; the judge decides which
//! case comes next, which are skipped, and what the job's score and verdict
//! are.
use vstd::prelude::*;
use crate::model::{CaseResult, Job, MyResult, Problem, ProblemType, State};
use crate::problem::{
    case_weight, entries_before, full_score, lemma_entries_monotone, pack_count, pack_entry,
    pack_len, pack_weight, packs, problem_ok, ratio_of, MAX_WEIGHT,
};

verus! {

/// Whether every verdict in `m` is `Accepted`.
pub open spec fn all_accepted(m: Seq<MyResult>) -> bool {
    forall|k: int| 0 <= k < m.len() ==> #[trigger] m[k] == MyResult::Accepted
}

/// After the first verdict in `m` that is not `Accepted`, every verdict is
/// `Skipped`.
pub open spec fn skips_after_failure(m: Seq<MyResult>) -> bool {
    forall|k1: int, k2: int|
        0 <= k1 < k2 < m.len() && #[trigger] m[k1] != MyResult::Accepted ==> #[trigger] m[k2]
            == MyResult::Skipped
}

/// The first verdict in `m` that is not `Accepted`.
pub open spec fn first_failure_in(m: Seq<MyResult>) -> Option<MyResult>
    decreases m.len(),
{
    if m.len() == 0 {
        None
    } else {
        match first_failure_in(m.drop_last()) {
            Some(v) => Some(v),
            None => if m.last() != MyResult::Accepted {
                Some(m.last())
            } else {
                None
            },
        }
    }
}

/// The first verdict over the packs `ms`, in order, that is not `Accepted`.
pub open spec fn first_failure(ms: Seq<Seq<MyResult>>) -> Option<MyResult>
    decreases ms.len(),
{
    if ms.len() == 0 {
        None
    } else {
        match first_failure(ms.drop_last()) {
            Some(v) => Some(v),
            None => first_failure_in(ms.last()),
        }
    }
}

/// The score earned by the first `ms.len()` packs of `p`, whose verdicts are
/// `ms`: the weight of each pack whose cases are all accepted.
pub open spec fn earned(p: Problem, ms: Seq<Seq<MyResult>>) -> nat
    decreases ms.len(),
{
    if ms.len() == 0 {
        0
    } else {
        earned(p, ms.drop_last()) + if all_accepted(ms.last()) {
            pack_weight(p, packs(p)[ms.len() - 1])
        } else {
            0
        }
    }
}

/// The verdicts that `cases` holds for the entries of pack `q` of `p`.
pub open spec fn pack_verdicts(p: Problem, cases: Seq<CaseResult>, q: int) -> Seq<MyResult> {
    packs(p)[q].map_values(|c: usize| cases[c as int].result)
}

/// The score earned by the first `q` packs of `p`, read from `cases`.
pub open spec fn packed_score(p: Problem, cases: Seq<CaseResult>, q: int) -> nat
    decreases q,
{
    if q <= 0 {
        0
    } else {
        packed_score(p, cases, q - 1) + if all_accepted(pack_verdicts(p, cases, q - 1)) {
            pack_weight(p, packs(p)[q - 1])
        } else {
            0
        }
    }
}

/// No case appears twice over the packs of `p`.
pub open spec fn distinct_entries(p: Problem) -> bool {
    forall|q1: int, k1: int, q2: int, k2: int|
        0 <= q1 < packs(p).len() && 0 <= k1 < packs(p)[q1].len() && 0 <= q2 < packs(p).len() && 0
            <= k2 < packs(p)[q2].len() && (q1 != q2 || k1 != k2) ==> #[trigger] packs(p)[q1][k1]
            != #[trigger] packs(p)[q2][k2]
}

/// Every `Skipped` verdict in `m` comes after one that is not `Accepted`.
pub open spec fn skip_only_after_failure(m: Seq<MyResult>) -> bool {
    forall|k: int|
        0 <= k < m.len() && #[trigger] m[k] == MyResult::Skipped ==> !all_accepted(m.take(k))
}

/// Entry `(q, k)` of `p` is one that the judge runs when it reaches it:
/// it exists, and every earlier entry of its pack holds an accepted case.
pub open spec fn runnable(p: Problem, cases: Seq<CaseResult>, q: int, k: int) -> bool {
    &&& 0 <= q < packs(p).len()
    &&& 0 <= k < packs(p)[q].len()
    &&& forall|i: int|
        0 <= i < k ==> cases[#[trigger] packs(p)[q][i] as int].result == MyResult::Accepted
}

/// No entry from `(q0, k0)` on and before `(q1, k1)` is runnable.
pub open spec fn none_runnable(
    p: Problem,
    cases: Seq<CaseResult>,
    q0: int,
    k0: int,
    q1: int,
    k1: int,
) -> bool {
    forall|q: int, k: int|
        !before(q, k, q0, k0) && before(q, k, q1, k1) ==> !#[trigger] runnable(p, cases, q, k)
}

/// Entry `(q, k)` comes before entry `(q2, k2)`.
pub open spec fn before(q: int, k: int, q2: int, k2: int) -> bool {
    q < q2 || (q == q2 && k < k2)
}

/// Where a judging stands.
#[derive(Clone, Copy, Debug, PartialEq, Eq, Structural)]
pub enum Phase {
    /// Waiting for the compilation's outcome.
    Compiling,
    /// Compilation failed; nothing more is run.
    CompileFailed,
    /// Compiled; cases are being run.
    Running,
    /// Every pack has been judged and the verdict is set.
    Done,
}

/// The judging of one job on one problem.
pub struct Judge {
    job: Job,
    problem: Problem,
    phase: Phase,
    /// The pack being judged.
    pack: usize,
    /// The entry of that pack to judge next.
    pos: usize,
    /// No case of the current pack has failed so far.
    pack_ok: bool,
    /// What the current pack has earned so far.
    pack_score: u64,
    /// The first verdict, over all packs, that was not `Accepted`.
    failure: Option<MyResult>,
    /// The verdicts of the packs judged to the end.
    done: Ghost<Seq<Seq<MyResult>>>,
    /// The verdicts of the current pack so far.
    cur: Ghost<Seq<MyResult>>,
    /// The case of entry `(pack, pos)` has been handed out to be run.
    asked: bool,
}

impl Judge {
    /// The job as it stands.
    pub closed spec fn current(&self) -> Job {
        self.job
    }

    /// The problem being judged.
    pub closed spec fn problem(&self) -> Problem {
        self.problem
    }

    /// Where the judging stands.
    pub closed spec fn phase(&self) -> Phase {
        self.phase
    }

    /// The case that the judge waits to hear about (1-based).
    pub closed spec fn awaited(&self) -> int {
        packs(self.problem)[self.pack as int][self.pos as int] as int
    }

    /// Whether the judge has handed out a case and waits to hear how it
    /// went.
    pub closed spec fn awaiting(&self) -> bool {
        self.phase == Phase::Running && self.asked
    }

    /// How much is left to do: twice the entries and packs not yet judged,
    /// plus one until the next case is handed out.
    pub closed spec fn left(&self) -> nat {
        if self.phase == Phase::Running {
            (2 * self.rest() + if self.asked {
                0int
            } else {
                1int
            }) as nat
        } else {
            0
        }
    }

    /// The entries and packs not yet judged.
    spec fn rest(&self) -> int {
        let ps = packs(self.problem);
        entries_before(ps, ps.len() as int) - entries_before(ps, self.pack as int) - self.pos + ps.len()
            - self.pack
    }

    proof fn lemma_current_pack_in_cases(&self)
        requires
            self.wf(),
            self.phase == Phase::Running,
            distinct_entries(self.problem),
            self.pack < packs(self.problem).len(),
        ensures
            forall|i: int|
                0 <= i < self.pos ==> self.job.cases@[#[trigger] packs(self.problem)[self.pack as int][i]
                    as int].result == self.cur@[i],
    {
        let ps = packs(self.problem);
        assert forall|i: int| 0 <= i < self.pos implies self.job.cases@[#[trigger] ps[self.pack as int][i]
            as int].result == self.cur@[i] by {
            assert(self.judged(self.pack as int, i));
            assert(self.last_of_its_case(self.pack as int, i)) by {
                assert forall|q2: int, k2: int|
                    self.judged(q2, k2) && before(self.pack as int, i, q2, k2) implies #[trigger] ps[q2][k2]
                    != ps[self.pack as int][i] by {
                    assert(ps[q2][k2] != ps[self.pack as int][i]);
                }
            }
        }
    }

    proof fn lemma_rest_nonnegative(&self)
        requires
            self.wf(),
            self.phase == Phase::Running,
        ensures
            self.rest() >= 0,
            self.asked ==> self.rest() >= 1,
    {
        let ps = packs(self.problem);
        if self.pack < ps.len() {
            lemma_entries_monotone(ps, self.pack + 1, ps.len() as int);
        }
    }

    /// No judged entry names case `c`.
    spec fn unnamed(&self, c: int) -> bool {
        forall|q: int, k: int|
            self.judged(q, k) ==> #[trigger] packs(self.problem)[q][k] != c
    }

    /// The pack of the entry that the judge is at.
    pub closed spec fn pack_index(&self) -> int {
        self.pack as int
    }

    /// The place, within its pack, of the entry that the judge is at.
    pub closed spec fn entry_index(&self) -> int {
        self.pos as int
    }

    /// Whether every pack has been judged.
    pub closed spec fn all_judged(&self) -> bool {
        self.pack == packs(self.problem).len()
    }

    /// The verdict recorded for entry `(q, k)` that has been judged.
    spec fn mark(&self, q: int, k: int) -> MyResult {
        if q < self.pack {
            self.done@[q][k]
        } else {
            self.cur@[k]
        }
    }

    /// Entry `(q, k)` has been judged.
    spec fn judged(&self, q: int, k: int) -> bool {
        ||| (0 <= q < self.pack && 0 <= k < packs(self.problem)[q].len())
        ||| (q == self.pack && q < packs(self.problem).len() && 0 <= k < self.pos)
    }

    /// No entry judged after `(q, k)` names the same case.
    spec fn last_of_its_case(&self, q: int, k: int) -> bool {
        forall|q2: int, k2: int|
            self.judged(q2, k2) && before(q, k, q2, k2) ==> #[trigger] packs(self.problem)[q2][k2]
                != packs(self.problem)[q][k]
    }

    spec fn cases_ok(&self) -> bool {
        let n = self.problem.cases@.len();
        &&& self.job.cases@.len() == n + 1
        &&& forall|c: int| 0 <= c <= n ==> (#[trigger] self.job.cases@[c]).id == c
    }

    spec fn running_ok(&self) -> bool {
        let ps = packs(self.problem);
        let cases = self.job.cases@;
        &&& self.job.cases@[0].result == MyResult::CompilationSuccess
        &&& self.pack <= ps.len()
        &&& self.pack < ps.len() ==> self.pos <= ps[self.pack as int].len()
        &&& self.pack == ps.len() ==> self.pos == 0
        &&& self.done@.len() == self.pack
        &&& forall|q: int| 0 <= q < self.pack ==> (#[trigger] self.done@[q]).len() == ps[q].len()
        &&& self.cur@.len() == self.pos
        &&& forall|q: int| 0 <= q < self.pack ==> skips_after_failure(#[trigger] self.done@[q])
        &&& skips_after_failure(self.cur@)
        &&& self.pack_ok == all_accepted(self.cur@)
        &&& self.job.score == earned(self.problem, self.done@)
        &&& self.pack_score == if self.pack_ok {
            pack_weight(self.problem, self.cur_entries())
        } else {
            0
        }
        &&& self.failure == match first_failure(self.done@) {
            Some(v) => Some(v),
            None => first_failure_in(self.cur@),
        }
        &&& self.job.score + self.pack_score <= (entries_before(ps, self.pack as int) + self.pos)
            * MAX_WEIGHT
        &&& forall|q: int, k: int|
            self.judged(q, k) && self.last_of_its_case(q, k) ==> cases[#[trigger] ps[q][k] as int].result
                == self.mark(q, k)
        &&& forall|c: int|
            1 <= c <= self.problem.cases@.len() && self.unnamed(c) ==> (#[trigger] cases[c]).result
                == MyResult::Waiting
        &&& self.asked ==> (self.pack < ps.len() && self.pos < ps[self.pack as int].len()
            && self.pack_ok)
        &&& self.problem.ty != ProblemType::Spj ==> {
            &&& forall|q: int| 0 <= q < self.pack ==> skip_only_after_failure(#[trigger] self.done@[q])
            &&& skip_only_after_failure(self.cur@)
        }
    }

    /// The entries of the current pack judged so far.
    spec fn cur_entries(&self) -> Seq<usize> {
        packs(self.problem)[self.pack as int].take(self.pos as int)
    }

    /// The judge's own bookkeeping holds.
    pub closed spec fn wf(&self) -> bool {
        let n = self.problem.cases@.len();
        &&& problem_ok(self.problem)
        &&& self.cases_ok()
        &&& match self.phase {
            Phase::Compiling => {
                &&& forall|c: int| 0 <= c <= n ==> (#[trigger] self.job.cases@[c]).result
                    == MyResult::Waiting
                &&& self.job.score == 0
                &&& self.job.result == MyResult::Waiting
                &&& self.pack == 0
                &&& self.pos == 0
                &&& self.pack_ok
                &&& self.pack_score == 0
                &&& self.failure is None
                &&& self.done@ == Seq::<Seq<MyResult>>::empty()
                &&& self.cur@ == Seq::<MyResult>::empty()
                &&& !self.asked
            },
            Phase::CompileFailed => {
                &&& self.job.cases@[0].result == MyResult::CompilationError
                &&& forall|c: int| 1 <= c <= n ==> (#[trigger] self.job.cases@[c]).result
                    == MyResult::Waiting
                &&& self.job.result == MyResult::CompilationError
                &&& self.job.state == State::Finished
            },
            Phase::Running => {
                &&& self.running_ok()
                &&& self.job.result == MyResult::Waiting
                &&& self.job.state == State::Running
            },
            Phase::Done => {
                &&& self.running_ok()
                &&& self.pack == packs(self.problem).len()
                &&& self.job.state == State::Finished
                &&& self.job.result == final_verdict(
                    self.failure,
                    self.job.score as nat,
                    full_score(self.problem),
                )
            },
        }
    }
}

/// The verdict of a job whose cases have all been judged: its first
/// failure; else `Accepted` where it earned the full score; else it stays
/// `Waiting`.
pub open spec fn final_verdict(failure: Option<MyResult>, score: nat, full: nat) -> MyResult {
    match failure {
        Some(v) if v != MyResult::Waiting => v,
        _ => if score == full {
            MyResult::Accepted
        } else {
            MyResult::Waiting
        },
    }
}

/// `a` is the same submission as `b`, under the same id and creation time.
pub open spec fn same_submission(a: Job, b: Job) -> bool {
    &&& a.id == b.id
    &&& a.created_time == b.created_time
    &&& a.submission == b.submission
}

proof fn lemma_accepted_no_failure(m: Seq<MyResult>)
    requires
        all_accepted(m),
    ensures
        first_failure_in(m) == None::<MyResult>,
    decreases m.len(),
{
    if m.len() > 0 {
        assert(all_accepted(m.drop_last())) by {
            assert forall|k: int| 0 <= k < m.drop_last().len() implies #[trigger] m.drop_last()[k]
                == MyResult::Accepted by {
                assert(m[k] == MyResult::Accepted);
            }
        }
        lemma_accepted_no_failure(m.drop_last());
        assert(m[m.len() - 1] == MyResult::Accepted);
    }
}

proof fn lemma_failure_found(m: Seq<MyResult>)
    requires
        !all_accepted(m),
    ensures
        first_failure_in(m) is Some,
    decreases m.len(),
{
    if m.len() > 0 {
        if all_accepted(m.drop_last()) {
            lemma_accepted_no_failure(m.drop_last());
            let k = choose|k: int| 0 <= k < m.len() && m[k] != MyResult::Accepted;
            if k < m.len() - 1 {
                assert(m.drop_last()[k] == MyResult::Accepted);
            }
        } else {
            lemma_failure_found(m.drop_last());
        }
    }
}

impl Judge {
    /// Starts judging `job` on `problem`: one waiting case per case of the
    /// problem and one for the compilation, no score, no verdict, queued.
    pub fn new(job: Job, problem: Problem) -> (r: Judge)
        requires
            problem_ok(problem),
        ensures
            r.wf(),
            r.phase() == Phase::Compiling,
            r.problem() == problem,
            same_submission(r.current(), job),
            r.current().updated_time == job.updated_time,
            r.current().state == State::Queueing,
            r.current().result == MyResult::Waiting,
            r.current().score == 0,
            r.current().cases@.len() == problem.cases@.len() + 1,
            forall|c: int|
                0 <= c <= problem.cases@.len() ==> (#[trigger] r.current().cases@[c]).id == c
                    && r.current().cases@[c].result == MyResult::Waiting,
    {
        let mut job = job;
        let n = problem.cases.len();
        let mut cases: Vec<CaseResult> = Vec::new();
        let mut c: usize = 0;
        while c <= n
            invariant
                n == problem.cases@.len(),
                n <= crate::model::MAX_CASES,
                c <= n + 1,
                cases@.len() == c,
                forall|i: int|
                    0 <= i < c ==> (#[trigger] cases@[i]).id == i && cases@[i].result
                        == MyResult::Waiting,
            decreases n + 1 - c,
        {
            cases.push(CaseResult::new(c as i32));
            c = c + 1;
        }
        job.cases = cases;
        job.score = 0;
        job.result = MyResult::Waiting;
        job.state = State::Queueing;
        Judge {
            job,
            problem,
            phase: Phase::Compiling,
            pack: 0,
            pos: 0,
            pack_ok: true,
            pack_score: 0,
            failure: None,
            done: Ghost(Seq::empty()),
            cur: Ghost(Seq::empty()),
            asked: false,
        }
    }

    /// Takes in how compilation went and how long it took (microseconds).
    /// After a failure the job is finished with `CompilationError`; after a
    /// success it is running.
    pub fn compiled(&mut self, success: bool, time: u64)
        requires
            old(self).wf(),
            old(self).phase() == Phase::Compiling,
        ensures
            final(self).wf(),
            final(self).problem() == old(self).problem(),
            same_submission(final(self).current(), old(self).current()),
            final(self).current().updated_time >= old(self).current().updated_time,
            final(self).current().cases@[0].time == time,
            final(self).current().score == old(self).current().score,
            final(self).current().cases@.len() == old(self).current().cases@.len(),
            forall|c: int|
                1 <= c < old(self).current().cases@.len() ==> #[trigger] final(self).current().cases@[c]
                    == old(self).current().cases@[c],
            final(self).current().cases@[0].result == if success {
                MyResult::CompilationSuccess
            } else {
                MyResult::CompilationError
            },
            !success ==> final(self).current().result == MyResult::CompilationError
                && final(self).current().state == State::Finished,
            success ==> final(self).current().state == State::Running,
            success ==> final(self).pack_index() == 0 && final(self).entry_index() == 0,
            final(self).phase() == if success {
                Phase::Running
            } else {
                Phase::CompileFailed
            },
    {
        let ghost n = self.problem.cases@.len();
        let verdict = if success {
            MyResult::CompilationSuccess
        } else {
            MyResult::CompilationError
        };
        self.job.cases.set(
            0,
            CaseResult { id: 0, result: verdict, time, memory: 0, info: String::new() },
        );
        assert forall|c: int| 1 <= c <= n implies (#[trigger] self.job.cases@[c]).result
            == MyResult::Waiting && self.job.cases@[c].id == c by {
            assert(old(self).job.cases@[c].result == MyResult::Waiting);
        }
        if success {
            self.job.update();
            self.phase = Phase::Running;
            proof {
                assert(self.cases_ok());
                assert(self.cur_entries() =~= Seq::<usize>::empty());
                assert(self.cur@ =~= Seq::<MyResult>::empty());
                assert(entries_before(packs(self.problem), 0) == 0);
                assert forall|q: int, k: int| self.judged(q, k) implies false by {}
                assert(self.cur@.take(0) =~= self.cur@);
            }
        } else {
            self.job.result = MyResult::CompilationError;
            self.job.final_result();
            self.phase = Phase::CompileFailed;
        }
    }
}

impl Judge {
    /// Puts `verdict` into the case of entry `(pack, pos)` and moves past it.
    fn put(&mut self, verdict: MyResult, time: u64, info: String)
        requires
            old(self).wf(),
            old(self).phase == Phase::Running,
            old(self).pack < packs(old(self).problem).len(),
            old(self).pos < packs(old(self).problem)[old(self).pack as int].len(),
        ensures
            final(self).problem == old(self).problem,
            final(self).phase == old(self).phase,
            final(self).pack == old(self).pack,
            final(self).pos == old(self).pos + 1,
            final(self).pack_ok == old(self).pack_ok,
            final(self).pack_score == old(self).pack_score,
            final(self).failure == old(self).failure,
            final(self).done == old(self).done,
            final(self).cur@ == old(self).cur@.push(verdict),
            final(self).job.score == old(self).job.score,
            final(self).job.result == old(self).job.result,
            final(self).job.state == State::Running,
            final(self).job.updated_time >= old(self).job.updated_time,
            same_submission(final(self).job, old(self).job),
            final(self).cases_ok(),
            final(self).job.cases@[0] == old(self).job.cases@[0],
            final(self).job.cases@[old(self).awaited()].result == verdict,
            final(self).job.cases@[old(self).awaited()].time == time,
            final(self).job.cases@[old(self).awaited()].info == info,
            final(self).asked == old(self).asked,
            1 <= old(self).awaited() <= old(self).problem.cases@.len(),
            forall|x: int|
                0 <= x < old(self).job.cases@.len() && x != old(self).awaited()
                    ==> #[trigger] final(self).job.cases@[x] == old(self).job.cases@[x],
            forall|x: int|
                1 <= x <= final(self).problem.cases@.len() && final(self).unnamed(x)
                    ==> (#[trigger] final(self).job.cases@[x]).result == MyResult::Waiting,
            distinct_entries(old(self).problem) ==> old(self).job.cases@[old(self).awaited()].result
                == MyResult::Waiting,
            forall|q: int, k: int|
                final(self).judged(q, k) && final(self).last_of_its_case(q, k)
                    ==> final(self).job.cases@[#[trigger] packs(final(self).problem)[q][k] as int].result
                    == final(self).mark(q, k),
    {
        let ghost ps = packs(self.problem);
        let ghost pre = *self;
        let c = pack_entry(&self.problem, self.pack, self.pos);
        assert(1 <= ps[self.pack as int][self.pos as int] <= self.problem.cases@.len());
        self.job.cases.set(c, CaseResult { id: c as i32, result: verdict, time, memory: 0, info });
        self.cur = Ghost(self.cur@.push(verdict));
        proof {
            crate::problem::lemma_packs_fit(self.problem);
        }
        self.pos = self.pos + 1;
        self.job.update();
        assert(self.cases_ok()) by {
            assert forall|x: int| 0 <= x <= self.problem.cases@.len() implies (
            #[trigger] self.job.cases@[x]).id == x by {
                if x != c {
                    assert(pre.job.cases@[x].id == x);
                }
            }
        }
        assert forall|q: int, k: int|
            self.judged(q, k) && self.last_of_its_case(q, k) implies self.job.cases@[
            #[trigger] ps[q][k] as int].result == self.mark(q, k) by {
            if q == pre.pack && k == pre.pos {
            } else {
                assert(pre.judged(q, k));
                assert(self.judged(pre.pack as int, pre.pos as int));
                if ps[q][k] == c {
                    assert(before(q, k, pre.pack as int, pre.pos as int));
                    assert(ps[pre.pack as int][pre.pos as int] == c);
                } else {
                    assert(pre.last_of_its_case(q, k)) by {
                        assert forall|q2: int, k2: int|
                            pre.judged(q2, k2) && before(q, k, q2, k2) implies #[trigger] ps[q2][k2]
                            != ps[q][k] by {
                            assert(self.judged(q2, k2));
                        }
                    }
                    assert(pre.job.cases@[ps[q][k] as int].result == pre.mark(q, k));
                    if q < pre.pack {
                    } else {
                        assert(self.cur@[k] == pre.cur@[k]);
                    }
                }
            }
        }
        assert forall|x: int|
            1 <= x <= self.problem.cases@.len() && self.unnamed(x) implies (
            #[trigger] self.job.cases@[x]).result == MyResult::Waiting by {
            assert(self.judged(pre.pack as int, pre.pos as int));
            assert(ps[pre.pack as int][pre.pos as int] != x);
            assert(pre.unnamed(x)) by {
                assert forall|q: int, k: int| pre.judged(q, k) implies #[trigger] ps[q][k] != x by {
                    assert(self.judged(q, k));
                }
            }
            assert(pre.job.cases@[x].result == MyResult::Waiting);
        }
        proof {
            if distinct_entries(pre.problem) {
                assert(pre.unnamed(c as int)) by {
                    assert forall|q: int, k: int| pre.judged(q, k) implies #[trigger] ps[q][k]
                        != c as int by {
                        assert(q != pre.pack || k != pre.pos);
                        assert(ps[q][k] != ps[pre.pack as int][pre.pos as int]);
                    }
                }
            }
        }
    }

    /// Skips entry `(pack, pos)` of a pack that has already failed.
    fn skip_entry(&mut self)
        requires
            old(self).wf(),
            old(self).phase == Phase::Running,
            old(self).pack < packs(old(self).problem).len(),
            old(self).pos < packs(old(self).problem)[old(self).pack as int].len(),
            !old(self).pack_ok,
            !old(self).asked,
        ensures
            final(self).wf(),
            final(self).phase == Phase::Running,
            final(self).problem == old(self).problem,
            final(self).pack == old(self).pack,
            final(self).pos == old(self).pos + 1,
            !final(self).asked,
            final(self).rest() == old(self).rest() - 1,
            same_submission(final(self).job, old(self).job),
            final(self).job.updated_time >= old(self).job.updated_time,
            final(self).job.result == old(self).job.result,
            final(self).job.cases@.len() == old(self).job.cases@.len(),
            final(self).job.cases@[old(self).awaited()].result == MyResult::Skipped,
            1 <= old(self).awaited() <= old(self).problem.cases@.len(),
            forall|x: int|
                0 <= x < old(self).job.cases@.len() && x != old(self).awaited()
                    ==> #[trigger] final(self).job.cases@[x] == old(self).job.cases@[x],
            forall|x: int|
                0 <= x < old(self).job.cases@.len() ==> #[trigger] final(self).job.cases@[x]
                    == old(self).job.cases@[x] || (final(self).job.cases@[x].result
                    == MyResult::Skipped && (distinct_entries(old(self).problem)
                    ==> old(self).job.cases@[x].result == MyResult::Waiting)),
    {
        let ghost pre = *self;
        proof {
            lemma_failure_found(pre.cur@);
        }
        self.put(MyResult::Skipped, 0, String::new());
        proof {
            let m = self.cur@;
            assert(skips_after_failure(m)) by {
                assert forall|k1: int, k2: int|
                    0 <= k1 < k2 < m.len() && #[trigger] m[k1] != MyResult::Accepted implies #[trigger] m[k2]
                    == MyResult::Skipped by {
                    if k2 < m.len() - 1 {
                        assert(pre.cur@[k1] == m[k1]);
                    }
                }
            }
            assert(!all_accepted(m)) by {
                let k = choose|k: int| 0 <= k < pre.cur@.len() && pre.cur@[k] != MyResult::Accepted;
                assert(m[k] == pre.cur@[k]);
            }
            assert(m.drop_last() =~= pre.cur@);
            assert(entries_before(packs(self.problem), self.pack as int) + self.pos
                == entries_before(packs(self.problem), pre.pack as int) + pre.pos + 1);
            assert(skip_only_after_failure(m) || self.problem.ty == ProblemType::Spj) by {
                if self.problem.ty != ProblemType::Spj {
                    assert forall|k: int|
                        0 <= k < m.len() && #[trigger] m[k] == MyResult::Skipped implies !all_accepted(
                        m.take(k),
                    ) by {
                        if k < m.len() - 1 {
                            assert(m.take(k) =~= pre.cur@.take(k));
                            assert(pre.cur@[k] == m[k]);
                        } else {
                            assert(m.take(k) =~= pre.cur@);
                        }
                    }
                }
            }
        }
    }

    /// Closes the current pack, whose entries have all been judged.
    fn close_pack(&mut self)
        requires
            old(self).wf(),
            old(self).phase == Phase::Running,
            old(self).pack < packs(old(self).problem).len(),
            old(self).pos == packs(old(self).problem)[old(self).pack as int].len(),
            !old(self).asked,
        ensures
            final(self).wf(),
            final(self).phase == Phase::Running,
            final(self).problem == old(self).problem,
            final(self).pack == old(self).pack + 1,
            final(self).pos == 0,
            !final(self).asked,
            final(self).rest() == old(self).rest() - 1,
            same_submission(final(self).job, old(self).job),
            final(self).job.updated_time >= old(self).job.updated_time,
            final(self).job.result == old(self).job.result,
            final(self).job.cases@ == old(self).job.cases@,
    {
        let ghost pre = *self;
        let ghost ps = packs(self.problem);
        assert(self.cur_entries() =~= ps[self.pack as int]);
        proof {
            lemma_entries_monotone(ps, self.pack + 1, ps.len() as int);
        }
        self.job.score = self.job.score + self.pack_score;
        self.done = Ghost(self.done@.push(self.cur@));
        self.cur = Ghost(Seq::empty());
        proof {
            crate::problem::lemma_packs_fit(self.problem);
        }
        self.pack = self.pack + 1;
        self.pos = 0;
        self.pack_ok = true;
        self.pack_score = 0;
        self.job.update();
        proof {
            assert(self.done@.drop_last() =~= pre.done@);
            assert(self.cur_entries() =~= Seq::<usize>::empty());
            assert forall|q: int| 0 <= q < self.pack implies (#[trigger] self.done@[q]).len()
                == ps[q].len() && skips_after_failure(self.done@[q]) by {
                if q < pre.pack {
                    assert(self.done@[q] == pre.done@[q]);
                }
            }
            assert forall|q: int, k: int| self.judged(q, k) == pre.judged(q, k) by {}
            assert forall|q: int, k: int| self.judged(q, k) implies self.mark(q, k) == pre.mark(
                q,
                k,
            ) by {}
            assert forall|q: int, k: int|
                self.judged(q, k) && self.last_of_its_case(q, k) implies self.job.cases@[
                #[trigger] ps[q][k] as int].result == self.mark(q, k) by {
                assert(pre.last_of_its_case(q, k)) by {
                    assert forall|q2: int, k2: int|
                        pre.judged(q2, k2) && before(q, k, q2, k2) implies #[trigger] ps[q2][k2]
                        != ps[q][k] by {
                        assert(self.judged(q2, k2));
                    }
                }
                assert(pre.job.cases@[ps[q][k] as int].result == pre.mark(q, k));
            }
            assert(first_failure_in(Seq::<MyResult>::empty()) == None::<MyResult>);
            assert forall|x: int| self.unnamed(x) implies pre.unnamed(x) by {
                assert forall|q: int, k: int| pre.judged(q, k) implies #[trigger] ps[q][k] != x by {
                    assert(self.judged(q, k));
                }
            }
            if self.problem.ty != ProblemType::Spj {
                assert forall|q: int| 0 <= q < self.pack implies skip_only_after_failure(
                    #[trigger] self.done@[q],
                ) by {
                    if q < pre.pack {
                        assert(self.done@[q] == pre.done@[q]);
                    }
                }
                assert(self.cur@.len() == 0);
            }
        }
    }
}

impl Judge {
    /// Takes in how the awaited case went: its verdict, its time
    /// (microseconds) and the special judge's note. A case that is not
    /// accepted fails its pack: the pack earns nothing and its remaining
    /// cases are skipped. Only a special judge can give `Skipped`.
    #[verifier::rlimit(40)]
    pub fn record(&mut self, verdict: MyResult, time: u64, info: String)
        requires
            old(self).wf(),
            old(self).awaiting(),
            verdict != MyResult::Skipped || old(self).problem().ty == ProblemType::Spj,
        ensures
            final(self).wf(),
            !final(self).awaiting(),
            final(self).left() < old(self).left(),
            final(self).pack_index() == old(self).pack_index(),
            final(self).entry_index() == old(self).entry_index() + 1,
            final(self).current().result == old(self).current().result,
            final(self).current().cases@.len() == old(self).current().cases@.len(),
            forall|x: int|
                0 <= x < old(self).current().cases@.len() && x != old(self).awaited()
                    ==> #[trigger] final(self).current().cases@[x] == old(self).current().cases@[x],
            distinct_entries(old(self).problem()) ==> old(self).current().cases@[old(
                self,
            ).awaited()].result == MyResult::Waiting,
            final(self).phase() == Phase::Running,
            final(self).problem() == old(self).problem(),
            same_submission(final(self).current(), old(self).current()),
            final(self).current().updated_time >= old(self).current().updated_time,
            final(self).current().cases@[old(self).awaited()].result == verdict,
            final(self).current().cases@[old(self).awaited()].time == time,
            final(self).current().cases@[old(self).awaited()].info == info,
    {
        let ghost pre = *self;
        let ghost ps = packs(self.problem);
        let c = pack_entry(&self.problem, self.pack, self.pos);
        let w = case_weight(&self.problem, c);
        proof {
            lemma_accepted_no_failure(pre.cur@);
            lemma_entries_monotone(ps, pre.pack + 1, ps.len() as int);
            assert(entries_before(ps, pre.pack as int) + pre.pos + 1 <= crate::model::MAX_CASES);
            assert(pre.job.score + pre.pack_score <= (crate::model::MAX_CASES - 1) * MAX_WEIGHT);
        }
        self.asked = false;
        self.put(verdict, time, info);
        let ghost m = self.cur@;
        assert(m.drop_last() =~= pre.cur@);
        assert(self.cur_entries().drop_last() =~= pre.cur_entries());
        if verdict == MyResult::Accepted {
            self.pack_score = self.pack_score + w;
            assert(all_accepted(m));
        } else {
            self.pack_ok = false;
            self.pack_score = 0;
            if self.failure.is_none() {
                self.failure = Some(verdict);
            }
            assert(m[m.len() - 1] != MyResult::Accepted);
        }
        proof {
            assert(skips_after_failure(m)) by {
                assert forall|k1: int, k2: int|
                    0 <= k1 < k2 < m.len() && #[trigger] m[k1] != MyResult::Accepted implies #[trigger] m[k2]
                    == MyResult::Skipped by {
                    assert(m[k1] == pre.cur@[k1]);
                }
            }
            if self.problem.ty != ProblemType::Spj {
                assert forall|k: int|
                    0 <= k < m.len() && #[trigger] m[k] == MyResult::Skipped implies !all_accepted(
                    m.take(k),
                ) by {
                    assert(k < m.len() - 1);
                    assert(m.take(k) =~= pre.cur@.take(k));
                    assert(pre.cur@[k] == m[k]);
                }
            }
            assert(self.rest() == pre.rest() - 1);
        }
    }

    /// The next case to run (1-based), skipping the cases of failed packs
    /// and closing each pack that has been judged to its end; `None` once
    /// every pack has been judged.
    pub fn next_case(&mut self) -> (r: Option<usize>)
        requires
            old(self).wf(),
            old(self).phase() == Phase::Running,
            !old(self).awaiting(),
        ensures
            final(self).wf(),
            final(self).phase() == Phase::Running,
            final(self).problem() == old(self).problem(),
            same_submission(final(self).current(), old(self).current()),
            final(self).current().updated_time >= old(self).current().updated_time,
            final(self).current().result == old(self).current().result,
            final(self).current().cases@.len() == old(self).current().cases@.len(),
            forall|x: int|
                0 <= x < old(self).current().cases@.len() ==> #[trigger] final(self).current().cases@[x]
                    == old(self).current().cases@[x] || (final(self).current().cases@[x].result
                    == MyResult::Skipped && (distinct_entries(old(self).problem())
                    ==> old(self).current().cases@[x].result == MyResult::Waiting)),
            match r {
                Some(c) => {
                    &&& final(self).awaiting()
                    &&& c == final(self).awaited()
                    &&& 1 <= c <= final(self).problem().cases@.len()
                    &&& final(self).left() < old(self).left()
                    &&& distinct_entries(old(self).problem()) ==> final(self).current().cases@[c as int].result
                        == MyResult::Waiting
                    &&& c == packs(final(self).problem())[final(self).pack_index()][final(self).entry_index()]
                    &&& !before(
                        final(self).pack_index(),
                        final(self).entry_index(),
                        old(self).pack_index(),
                        old(self).entry_index(),
                    )
                    &&& distinct_entries(old(self).problem()) ==> runnable(
                        final(self).problem(),
                        final(self).current().cases@,
                        final(self).pack_index(),
                        final(self).entry_index(),
                    ) && none_runnable(
                        final(self).problem(),
                        final(self).current().cases@,
                        old(self).pack_index(),
                        old(self).entry_index(),
                        final(self).pack_index(),
                        final(self).entry_index(),
                    )
                },
                None => {
                    &&& final(self).all_judged()
                    &&& !final(self).awaiting()
                    &&& final(self).left() <= old(self).left()
                    &&& distinct_entries(old(self).problem()) ==> none_runnable(
                        final(self).problem(),
                        final(self).current().cases@,
                        old(self).pack_index(),
                        old(self).entry_index(),
                        packs(final(self).problem()).len() as int,
                        0,
                    )
                },
            },
    {
        let ghost ps = packs(self.problem);
        let ghost start = *self;
        let count = pack_count(&self.problem);
        proof {
            start.lemma_rest_nonnegative();
        }
        loop
            invariant
                self.wf(),
                self.phase == Phase::Running,
                self.problem == old(self).problem,
                start == *old(self),
                start.rest() >= 0,
                !start.asked,
                start.phase == Phase::Running,
                ps == packs(self.problem),
                count == ps.len(),
                !self.asked,
                self.rest() <= start.rest(),
                self.job.updated_time >= start.job.updated_time,
                self.job.result == start.job.result,
                self.job.cases@.len() == start.job.cases@.len(),
                forall|x: int|
                    0 <= x < start.job.cases@.len() ==> #[trigger] self.job.cases@[x]
                        == start.job.cases@[x] || (self.job.cases@[x].result == MyResult::Skipped
                        && (distinct_entries(start.problem) ==> start.job.cases@[x].result
                        == MyResult::Waiting)),
                same_submission(self.job, old(self).job),
                !before(self.pack as int, self.pos as int, start.pack as int, start.pos as int),
                distinct_entries(self.problem) ==> none_runnable(
                    self.problem,
                    self.job.cases@,
                    start.pack as int,
                    start.pos as int,
                    self.pack as int,
                    self.pos as int,
                ),
            decreases entries_before(ps, ps.len() as int) + ps.len() - entries_before(
                ps,
                self.pack as int,
            ) - self.pos - self.pack,
        {
            if self.pack == count {
                proof {
                    self.lemma_rest_nonnegative();
                }
                return None;
            }
            proof {
                lemma_entries_monotone(ps, self.pack + 1, ps.len() as int);
            }
            let len = pack_len(&self.problem, self.pack);
            let ghost prev = *self;
            if self.pos == len {
                self.close_pack();
                proof {
                    if distinct_entries(self.problem) {
                        assert forall|q: int, k: int|
                            !before(q, k, start.pack as int, start.pos as int) && before(
                                q,
                                k,
                                self.pack as int,
                                self.pos as int,
                            ) implies !#[trigger] runnable(self.problem, self.job.cases@, q, k) by {
                            if before(q, k, prev.pack as int, prev.pos as int) {
                                assert(!runnable(self.problem, prev.job.cases@, q, k));
                            }
                        }
                    }
                }
            } else if !self.pack_ok {
                proof {
                    if distinct_entries(self.problem) {
                        prev.lemma_current_pack_in_cases();
                        lemma_failure_found(prev.cur@);
                    }
                }
                self.skip_entry();
                proof {
                    if distinct_entries(self.problem) {
                        let bp = prev.pack as int;
                        let bk = prev.pos as int;
                        let c = ps[bp][bk] as int;
                        assert(!runnable(self.problem, self.job.cases@, bp, bk)) by {
                            let i = choose|i: int| 0 <= i < prev.cur@.len() && prev.cur@[i]
                                != MyResult::Accepted;
                            assert(ps[bp][i] != ps[bp][bk]);
                            assert(self.job.cases@[ps[bp][i] as int] == prev.job.cases@[ps[bp][i] as int]);
                            assert(self.job.cases@[ps[bp][i] as int].result != MyResult::Accepted);
                        }
                        assert forall|q: int, k: int|
                            !before(q, k, start.pack as int, start.pos as int) && before(
                                q,
                                k,
                                self.pack as int,
                                self.pos as int,
                            ) implies !#[trigger] runnable(self.problem, self.job.cases@, q, k) by {
                            if before(q, k, bp, bk) {
                                assert(!runnable(self.problem, prev.job.cases@, q, k));
                                if 0 <= q < ps.len() && 0 <= k < ps[q].len() {
                                    let i = choose|i: int|
                                        0 <= i < k && prev.job.cases@[#[trigger] ps[q][i] as int].result
                                            != MyResult::Accepted;
                                    let x = ps[q][i] as int;
                                    if x != c {
                                        assert(self.job.cases@[x] == prev.job.cases@[x]);
                                    }
                                    assert(self.job.cases@[x].result != MyResult::Accepted);
                                }
                            }
                        }
                    }
                }
                assert forall|x: int| 0 <= x < start.job.cases@.len() implies #[trigger] self.job.cases@[x]
                    == start.job.cases@[x] || (self.job.cases@[x].result == MyResult::Skipped
                    && (distinct_entries(start.problem) ==> start.job.cases@[x].result
                    == MyResult::Waiting)) by {
                    assert(prev.job.cases@[x] == start.job.cases@[x] || prev.job.cases@[x].result
                        == MyResult::Skipped);
                }
            } else {
                let c = pack_entry(&self.problem, self.pack, self.pos);
                self.asked = true;
                proof {
                    self.lemma_rest_nonnegative();
                    if distinct_entries(self.problem) {
                        self.lemma_current_pack_in_cases();
                        assert forall|i: int| 0 <= i < self.pos implies self.job.cases@[
                            #[trigger] ps[self.pack as int][i] as int].result == MyResult::Accepted by {
                            assert(self.cur@[i] == MyResult::Accepted);
                        }
                    }
                    assert(1 <= ps[self.pack as int][self.pos as int] <= self.problem.cases@.len());
                    if distinct_entries(self.problem) {
                        assert(self.unnamed(c as int)) by {
                            assert forall|q: int, k: int| self.judged(q, k) implies #[trigger] ps[q][k]
                                != c as int by {
                                assert(q != self.pack || k != self.pos);
                                assert(ps[q][k] != ps[self.pack as int][self.pos as int]);
                            }
                        }
                    }
                }
                return Some(c);
            }
        }
    }

    /// Sets the verdict of a job whose packs have all been judged and marks
    /// it finished.
    pub fn finish(&mut self)
        requires
            old(self).wf(),
            old(self).phase() == Phase::Running,
            old(self).all_judged(),
        ensures
            final(self).wf(),
            final(self).phase() == Phase::Done,
            final(self).problem() == old(self).problem(),
            same_submission(final(self).current(), old(self).current()),
            final(self).current().updated_time >= old(self).current().updated_time,
            final(self).current().cases@ == old(self).current().cases@,
            final(self).current().score == old(self).current().score,
            final(self).current().state == State::Finished,
    {
        let full = crate::model::FULL_SCORE * (crate::model::RATIO_ONE - ratio_of(&self.problem));
        let verdict = match self.failure {
            Some(v) if v != MyResult::Waiting => v,
            _ => if self.job.score == full {
                MyResult::Accepted
            } else {
                MyResult::Waiting
            },
        };
        self.job.result = verdict;
        self.job.final_result();
        self.phase = Phase::Done;
    }

    /// The job, once judging is over.
    pub fn into_job(self) -> (r: Job)
        ensures
            r == self.current(),
    {
        self.job
    }

    /// Where the judging stands.
    pub fn stage(&self) -> (r: Phase)
        ensures
            r == self.phase(),
    {
        self.phase
    }

    /// The job as it stands.
    pub fn job(&self) -> (r: &Job)
        ensures
            *r == self.current(),
    {
        &self.job
    }
}

/// The verdicts that `cases` holds for every pack of `p`, pack by pack.
pub open spec fn all_pack_verdicts(p: Problem, cases: Seq<CaseResult>) -> Seq<Seq<MyResult>> {
    Seq::new(packs(p).len(), |q: int| pack_verdicts(p, cases, q))
}

proof fn lemma_done_is_cases(j: &Judge)
    requires
        j.wf(),
        j.phase == Phase::Done,
        distinct_entries(j.problem),
    ensures
        j.done@ == all_pack_verdicts(j.problem, j.job.cases@),
{
    let ps = packs(j.problem);
    let cases = j.job.cases@;
    assert forall|q: int| 0 <= q < ps.len() implies #[trigger] j.done@[q] == pack_verdicts(
        j.problem,
        cases,
        q,
    ) by {
        assert forall|k: int| 0 <= k < ps[q].len() implies j.done@[q][k] == #[trigger] pack_verdicts(
            j.problem,
            cases,
            q,
        )[k] by {
            assert(j.judged(q, k));
            assert(j.last_of_its_case(q, k)) by {
                assert forall|q2: int, k2: int|
                    j.judged(q2, k2) && before(q, k, q2, k2) implies #[trigger] ps[q2][k2]
                    != ps[q][k] by {
                    assert(ps[q][k] != ps[q2][k2]);
                }
            }
            assert(cases[ps[q][k] as int].result == j.mark(q, k));
        }
        assert(j.done@[q] =~= pack_verdicts(j.problem, cases, q));
    }
    assert(j.done@ =~= all_pack_verdicts(j.problem, cases));
}

proof fn lemma_earned_prefix(p: Problem, cases: Seq<CaseResult>, q: int)
    requires
        0 <= q <= packs(p).len(),
    ensures
        earned(p, all_pack_verdicts(p, cases).take(q)) == packed_score(p, cases, q),
    decreases q,
{
    if q > 0 {
        let ms = all_pack_verdicts(p, cases).take(q);
        assert(ms.drop_last() =~= all_pack_verdicts(p, cases).take(q - 1));
        lemma_earned_prefix(p, cases, q - 1);
    }
}

/// The job of a judge holds one result per case of the problem and one for
/// compilation, at every step.
pub proof fn lemma_case_count(j: &Judge)
    requires
        j.wf(),
    ensures
        j.current().cases@.len() == j.problem().cases@.len() + 1,
        forall|k: int|
            0 <= k <= j.problem().cases@.len() ==> (#[trigger] j.current().cases@[k]).id == k,
{
}

/// Once judging is over, entry 0 tells how compilation went. A job that
/// compiled holds `CompilationSuccess` there; one that did not holds
/// `CompilationError` there and no case of it was run.
pub proof fn lemma_compile_entry(j: &Judge)
    requires
        j.wf(),
        j.phase() == Phase::Done || j.phase() == Phase::CompileFailed,
    ensures
        j.phase() == Phase::Done ==> j.current().cases@[0].result == MyResult::CompilationSuccess,
        j.phase() == Phase::CompileFailed ==> {
            &&& j.current().cases@[0].result == MyResult::CompilationError
            &&& j.current().result == MyResult::CompilationError
            &&& forall|c: int|
                1 <= c <= j.problem().cases@.len() ==> (#[trigger] j.current().cases@[c]).result
                    == MyResult::Waiting
        },
{
}

/// Once judging is over, where no case stands in two entries of the packs:
/// in every pack, each case after one that was not accepted is skipped.
pub proof fn lemma_skips_after_failure(j: &Judge)
    requires
        j.wf(),
        j.phase() == Phase::Done,
        distinct_entries(j.problem()),
    ensures
        forall|q: int|
            0 <= q < packs(j.problem()).len() ==> skips_after_failure(
                #[trigger] pack_verdicts(j.problem(), j.current().cases@, q),
            ),
{
    lemma_done_is_cases(j);
    assert forall|q: int| 0 <= q < packs(j.problem()).len() implies skips_after_failure(
        #[trigger] pack_verdicts(j.problem(), j.current().cases@, q),
    ) by {
        assert(j.done@[q] == all_pack_verdicts(j.problem, j.job.cases@)[q]);
    }
}

/// Once judging is over, where no case stands in two entries of the packs:
/// the job's score is the sum of the weights of the packs whose cases were
/// all accepted, and a pack with a case that was not accepted adds nothing.
pub proof fn lemma_score_of_packs(j: &Judge)
    requires
        j.wf(),
        j.phase() == Phase::Done,
        distinct_entries(j.problem()),
    ensures
        j.current().score == packed_score(
            j.problem(),
            j.current().cases@,
            packs(j.problem()).len() as int,
        ),
{
    lemma_done_is_cases(j);
    let all = all_pack_verdicts(j.problem, j.job.cases@);
    lemma_earned_prefix(j.problem, j.job.cases@, packs(j.problem).len() as int);
    assert(all.take(all.len() as int) =~= all);
}

/// Once judging is over, where no case stands in two entries of the packs:
/// the job's verdict is its first case, in pack order, that was not
/// accepted; else `Accepted` where it earned the full score.
pub proof fn lemma_job_verdict(j: &Judge)
    requires
        j.wf(),
        j.phase() == Phase::Done,
        distinct_entries(j.problem()),
    ensures
        j.current().result == final_verdict(
            first_failure(all_pack_verdicts(j.problem(), j.current().cases@)),
            j.current().score as nat,
            full_score(j.problem()),
        ),
{
    lemma_done_is_cases(j);
}

/// Once judging is over, for a problem without a special judge and where
/// no case stands in two entries of the packs: in every pack, a skipped
/// case comes after one that was not accepted.
pub proof fn lemma_skipped_follows_failure(j: &Judge)
    requires
        j.wf(),
        j.phase() == Phase::Done,
        distinct_entries(j.problem()),
        j.problem().ty != ProblemType::Spj,
    ensures
        forall|q: int|
            0 <= q < packs(j.problem()).len() ==> skip_only_after_failure(
                #[trigger] pack_verdicts(j.problem(), j.current().cases@, q),
            ),
{
    lemma_done_is_cases(j);
    assert forall|q: int| 0 <= q < packs(j.problem()).len() implies skip_only_after_failure(
        #[trigger] pack_verdicts(j.problem(), j.current().cases@, q),
    ) by {
        assert(j.done@[q] == all_pack_verdicts(j.problem, j.job.cases@)[q]);
    }
}

/// A pack with a case that is not accepted adds nothing, whatever the
/// scores of its cases: two problems with the same packs, whose packs weigh
/// the same wherever all their cases were accepted, give the same packed
/// score on the same case results.
pub proof fn lemma_failed_packs_weigh_nothing(
    p1: Problem,
    p2: Problem,
    cases: Seq<CaseResult>,
    q: int,
)
    requires
        packs(p1) == packs(p2),
        0 <= q <= packs(p1).len(),
        forall|i: int|
            0 <= i < packs(p1).len() && all_accepted(#[trigger] pack_verdicts(p1, cases, i))
                ==> pack_weight(p1, packs(p1)[i]) == pack_weight(p2, packs(p2)[i]),
    ensures
        packed_score(p1, cases, q) == packed_score(p2, cases, q),
    decreases q,
{
    if q > 0 {
        lemma_failed_packs_weigh_nothing(p1, p2, cases, q - 1);
        assert(pack_verdicts(p1, cases, q - 1) == pack_verdicts(p2, cases, q - 1));
    }
}

} // verus!
