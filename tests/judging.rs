use oj::judge::Phase;
use oj::model::{Case, Job, Misc, MyResult, PostJob, Problem, ProblemType, State};
use oj::text::{case_verdict, Exit};
use oj::Judge;

fn case(score: u64) -> Case {
    Case {
        score,
        input_file: "in".to_string(),
        answer_file: "ans".to_string(),
        time_limit: 1_000_000,
        memory_limit: 0,
    }
}

fn problem(ty: ProblemType, scores: &[u64], packing: Option<Vec<Vec<usize>>>, ratio: Option<u64>) -> Problem {
    Problem {
        id: 7,
        name: "sum".to_string(),
        ty,
        misc: Misc { packing, special_judge: None, dynamic_ranking_ratio: ratio },
        cases: scores.iter().map(|s| case(*s)).collect(),
    }
}

fn post() -> PostJob {
    PostJob {
        source_code: "int main(){}".to_string(),
        language: "C".to_string(),
        user_id: 0,
        contest_id: 0,
        problem_id: 7,
    }
}

/// Runs a judge to the end, with `verdicts[c - 1]` as the outcome of case `c`.
fn judge_all(p: Problem, verdicts: &[MyResult]) -> (Job, Vec<usize>) {
    let job = Job::created_at(3, &post(), 1000);
    let mut j = Judge::new(job, p);
    j.compiled(true, 25);
    let mut ran = Vec::new();
    while let Some(c) = j.next_case() {
        ran.push(c);
        j.record(verdicts[c - 1], 10 * c as u64, String::new());
    }
    j.finish();
    (j.into_job(), ran)
}

#[test]
fn standard_output_accepted() {
    let p = problem(ProblemType::Standard, &[100_000], None, None);
    let v = case_verdict(Exit::Succeeded, ProblemType::Standard, "3\n", "3\n").unwrap();
    assert_eq!(v, MyResult::Accepted);
    let (job, _) = judge_all(p, &[v]);
    assert_eq!(job.result, MyResult::Accepted);
    assert_eq!(job.score, 100_000_000);
    assert_eq!(job.cases[1].result, MyResult::Accepted);
    assert_eq!(job.state, State::Finished);
}

#[test]
fn strict_missing_newline_is_wrong() {
    let p = problem(ProblemType::Strict, &[100_000], None, None);
    let v = case_verdict(Exit::Succeeded, ProblemType::Strict, "3", "3\n").unwrap();
    assert_eq!(v, MyResult::WrongAnswer);
    let (job, _) = judge_all(p, &[v]);
    assert_eq!(job.cases[1].result, MyResult::WrongAnswer);
    assert_eq!(job.result, MyResult::WrongAnswer);
    assert_eq!(job.score, 0);
}

#[test]
fn slow_program_times_out() {
    let v = case_verdict(Exit::TimedOut, ProblemType::Standard, "", "3\n").unwrap();
    assert_eq!(v, MyResult::TimeLimitExceeded);
    let p = problem(ProblemType::Standard, &[100_000], None, None);
    let (job, _) = judge_all(p, &[v]);
    assert_eq!(job.cases[1].result, MyResult::TimeLimitExceeded);
    assert_eq!(job.result, MyResult::TimeLimitExceeded);
}

#[test]
fn failed_pack_skips_the_rest() {
    let p = problem(
        ProblemType::Standard,
        &[30_000, 30_000, 40_000],
        Some(vec![vec![1, 2], vec![3]]),
        None,
    );
    let (job, ran) = judge_all(p, &[MyResult::WrongAnswer, MyResult::Accepted, MyResult::Accepted]);
    assert_eq!(ran, vec![1, 3]);
    assert_eq!(job.cases[1].result, MyResult::WrongAnswer);
    assert_eq!(job.cases[2].result, MyResult::Skipped);
    assert_eq!(job.cases[3].result, MyResult::Accepted);
    assert_eq!(job.score, 40_000_000);
    assert_eq!(job.result, MyResult::WrongAnswer);
}

#[test]
fn case_list_has_compile_entry() {
    let p = problem(ProblemType::Standard, &[50_000, 50_000], None, None);
    let (job, _) = judge_all(p, &[MyResult::Accepted, MyResult::Accepted]);
    assert_eq!(job.cases.len(), 3);
    assert_eq!(job.cases[0].result, MyResult::CompilationSuccess);
    assert_eq!(job.cases[0].time, 25);
    for (i, c) in job.cases.iter().enumerate() {
        assert_eq!(c.id, i as i32);
    }
}

#[test]
fn compile_error_runs_nothing() {
    let p = problem(ProblemType::Standard, &[50_000, 50_000], None, None);
    let mut j = Judge::new(Job::created_at(0, &post(), 5), p);
    j.compiled(false, 40);
    let job = j.into_job();
    assert_eq!(job.cases.len(), 3);
    assert_eq!(job.cases[0].result, MyResult::CompilationError);
    assert_eq!(job.cases[1].result, MyResult::Waiting);
    assert_eq!(job.cases[2].result, MyResult::Waiting);
    assert_eq!(job.result, MyResult::CompilationError);
    assert_eq!(job.state, State::Finished);
    assert_eq!(job.created_time, 5);
}

#[test]
fn first_failure_is_the_verdict() {
    let p = problem(
        ProblemType::Standard,
        &[25_000, 25_000, 25_000, 25_000],
        Some(vec![vec![1], vec![2], vec![3, 4]]),
        None,
    );
    let (job, ran) = judge_all(
        p,
        &[MyResult::Accepted, MyResult::RuntimeError, MyResult::TimeLimitExceeded, MyResult::Accepted],
    );
    assert_eq!(ran, vec![1, 2, 3]);
    assert_eq!(job.result, MyResult::RuntimeError);
    assert_eq!(job.cases[4].result, MyResult::Skipped);
    assert_eq!(job.score, 25_000_000);
}

#[test]
fn score_sums_accepted_packs() {
    let p = problem(
        ProblemType::Standard,
        &[10_000, 20_000, 30_000, 40_000],
        Some(vec![vec![1, 2], vec![3], vec![4]]),
        None,
    );
    let (job, _) = judge_all(p, &[MyResult::Accepted, MyResult::Accepted, MyResult::WrongAnswer, MyResult::Accepted]);
    assert_eq!(job.score, 70_000_000);
    assert_eq!(job.result, MyResult::WrongAnswer);
}

#[test]
fn dynamic_ratio_holds_back_share() {
    let p = problem(ProblemType::DynamicRanking, &[100_000], None, Some(200));
    let (job, _) = judge_all(p, &[MyResult::Accepted]);
    assert_eq!(job.score, 100_000 * 800);
    assert_eq!(job.result, MyResult::Accepted);
}

#[test]
fn short_of_full_score_stays_waiting() {
    let p = problem(ProblemType::Standard, &[40_000], None, None);
    let (job, _) = judge_all(p, &[MyResult::Accepted]);
    assert_eq!(job.score, 40_000_000);
    assert_eq!(job.result, MyResult::Waiting);
}

#[test]
fn judge_phases() {
    let p = problem(ProblemType::Standard, &[100_000], None, None);
    let job = Job::created_at(1, &post(), 9);
    let mut j = Judge::new(job, p);
    assert_eq!(j.job().state, State::Queueing);
    assert_eq!(j.job().cases.len(), 2);
    j.compiled(true, 1);
    assert_eq!(j.job().state, State::Running);
    assert_eq!(j.next_case(), Some(1));
    j.record(MyResult::Accepted, 5, "note".to_string());
    assert_eq!(j.job().cases[1].info, "note");
    assert_eq!(j.job().cases[1].time, 5);
    assert_eq!(j.next_case(), None);
    j.finish();
    assert_eq!(j.job().state, State::Finished);
    assert!(j.job().updated_time >= 9);
    let _ = Phase::Done;
}

#[test]
fn new_job_takes_the_clock() {
    let job = Job::new(4, &post());
    assert_eq!(job.id, 4);
    assert!(job.created_time > 1_600_000_000_000);
    assert_eq!(job.created_time, job.updated_time);
    assert_eq!(job.state, State::Queueing);
    assert_eq!(job.result, MyResult::Waiting);
    assert!(job.cases.is_empty());
}

#[test]
fn update_time_never_goes_back() {
    let mut job = Job::created_at(0, &post(), 500);
    job.touch(400);
    assert_eq!(job.updated_time, 500);
    job.touch(900);
    assert_eq!(job.updated_time, 900);
    job.update();
    assert_eq!(job.state, State::Running);
    assert!(job.updated_time >= 900);
    job.final_result();
    assert_eq!(job.state, State::Finished);
    assert_eq!(job.created_time, 500);
}

#[test]
fn waiting_case_result() {
    let c = oj::CaseResult::new(5);
    assert_eq!(c.id, 5);
    assert_eq!(c.result, MyResult::Waiting);
    assert_eq!(c.time, 0);
    assert_eq!(c.info, "");
}
