//! The filter of a job listing.
use vstd::prelude::*;
use crate::model::{GetJob, Job, User};

verus! {

/// Whether `job` meets every field that `f` sets. The user's name is read
/// from the user whose id is the job's; the time bounds are exclusive.
pub open spec fn job_matches(f: GetJob, job: Job, users: Seq<User>) -> bool {
    &&& (f.result matches Some(v) ==> job.result == v)
    &&& (f.from matches Some(t) ==> t < job.created_time)
    &&& (f.to matches Some(t) ==> job.created_time < t)
    &&& (f.language matches Some(l) ==> l@ == job.submission.language@)
    &&& (f.state matches Some(s) ==> job.state == s)
    &&& (f.problem_id matches Some(p) ==> job.submission.problem_id == p)
    &&& (f.contest_id matches Some(c) ==> job.submission.contest_id == c)
    &&& (f.user_id matches Some(u) ==> job.submission.user_id == u)
    &&& (f.user_name matches Some(n) ==> 0 <= job.submission.user_id < users.len()
        && users[job.submission.user_id as int].name@ == n@)
}

/// Whether `job` meets every field that `require` sets.
pub fn match_job(require: &GetJob, job: &Job, user_list: &Vec<User>) -> (r: bool)
    ensures
        r == job_matches(*require, *job, user_list@),
{
    if let Some(v) = &require.result {
        if job.result != *v {
            return false;
        }
    }
    if let Some(t) = require.from {
        if t >= job.created_time {
            return false;
        }
    }
    if let Some(t) = require.to {
        if t <= job.created_time {
            return false;
        }
    }
    if let Some(l) = &require.language {
        if *l != job.submission.language {
            return false;
        }
    }
    if let Some(s) = &require.state {
        if job.state != *s {
            return false;
        }
    }
    if let Some(p) = require.problem_id {
        if job.submission.problem_id != p {
            return false;
        }
    }
    if let Some(c) = require.contest_id {
        if job.submission.contest_id != c {
            return false;
        }
    }
    if let Some(u) = require.user_id {
        if job.submission.user_id != u {
            return false;
        }
    }
    if let Some(n) = &require.user_name {
        let uid = job.submission.user_id;
        if uid < 0 || uid as usize >= user_list.len() {
            return false;
        }
        if user_list[uid as usize].name != *n {
            return false;
        }
    }
    true
}

/// The places in `jobs` of the jobs that meet `require`, in order.
pub fn matching_jobs(require: &GetJob, jobs: &Vec<Job>, users: &Vec<User>) -> (r: Vec<usize>)
    ensures
        forall|k: int|
            0 <= k < r@.len() ==> #[trigger] r@[k] < jobs@.len() && job_matches(
                *require,
                jobs@[r@[k] as int],
                users@,
            ),
        forall|a: int, b: int| 0 <= a < b < r@.len() ==> #[trigger] r@[a] < #[trigger] r@[b],
        forall|i: int|
            0 <= i < jobs@.len() && job_matches(*require, #[trigger] jobs@[i], users@) ==> r@.contains(
                i as usize,
            ),
{
    let mut out: Vec<usize> = Vec::new();
    let mut i: usize = 0;
    while i < jobs.len()
        invariant
            i <= jobs@.len(),
            forall|k: int|
                0 <= k < out@.len() ==> #[trigger] out@[k] < i && job_matches(
                    *require,
                    jobs@[out@[k] as int],
                    users@,
                ),
            forall|a: int, b: int| 0 <= a < b < out@.len() ==> #[trigger] out@[a] < #[trigger] out@[b],
            forall|j: int|
                0 <= j < i && job_matches(*require, #[trigger] jobs@[j], users@) ==> out@.contains(
                    j as usize,
                ),
        decreases jobs@.len() - i,
    {
        if match_job(require, &jobs[i], users) {
            let ghost before = out@;
            out.push(i);
            assert forall|j: int|
                0 <= j < i + 1 && job_matches(*require, #[trigger] jobs@[j], users@) implies out@.contains(
                j as usize,
            ) by {
                if j < i {
                    let k = choose|k: int| 0 <= k < before.len() && before[k] == j as usize;
                    assert(out@[k] == j as usize);
                } else {
                    assert(out@[before.len() as int] == i);
                }
            }
        }
        i = i + 1;
    }
    out
}

} // verus!
