use std::cmp::Ordering;

use oj::model::{
    Case, CaseResult, Config, Contest, Job, Misc, MyResult, PostJob, Problem, ProblemType, RankRule,
    ScoringRule, Server, TieBreaker, User,
};
use oj::{compare_users, contest_problems, get_score_list, get_user_submissions, rank_list, Registry, Standing};

fn problem(id: i32, ty: ProblemType, ratio: Option<u64>) -> Problem {
    Problem {
        id,
        name: format!("p{}", id),
        ty,
        misc: Misc { packing: None, special_judge: None, dynamic_ranking_ratio: ratio },
        cases: vec![Case {
            score: 100_000,
            input_file: "in".to_string(),
            answer_file: "ans".to_string(),
            time_limit: 1_000_000,
            memory_limit: 0,
        }],
    }
}

fn config() -> Config {
    Config {
        server: Server { bind_address: "127.0.0.1".to_string(), bind_port: 12345 },
        problems: vec![problem(1, ProblemType::Standard, None), problem(2, ProblemType::DynamicRanking, Some(500))],
        languages: vec![oj::model::Language {
            name: "C".to_string(),
            file_name: "a.c".to_string(),
            command: vec!["cc".to_string(), "%INPUT%".to_string(), "%OUTPUT%".to_string()],
        }],
    }
}

fn post(user: i32, problem: i32) -> PostJob {
    PostJob {
        source_code: String::new(),
        language: "C".to_string(),
        user_id: user,
        contest_id: 0,
        problem_id: problem,
    }
}

fn rule(s: ScoringRule, t: TieBreaker) -> RankRule {
    RankRule { scoring_rule: s, tie_breaker: t }
}

/// Submits and stores a judged job.
fn submit(r: &mut Registry, user: i32, problem: i32, at: i64, score: u64, result: MyResult, time: u64) {
    let (mut job, _, _) = r.create_job(&post(user, problem), &config(), at).unwrap();
    job.score = score;
    job.result = result;
    let mut first = CaseResult::new(0);
    first.result = MyResult::CompilationSuccess;
    let mut second = CaseResult::new(1);
    second.result = result;
    second.time = time;
    job.cases = vec![first, second];
    r.commit(job).unwrap();
}

fn registry_of_two() -> Registry {
    let mut r = Registry::flushed();
    r.post_user(User { id: None, name: "a".to_string() }).unwrap();
    r.post_user(User { id: None, name: "b".to_string() }).unwrap();
    r
}

fn whole(r: &Registry) -> Contest {
    r.find_contest(0).unwrap()
}

#[test]
fn tie_broken_by_submission_count() {
    let mut r = registry_of_two();
    submit(&mut r, 1, 1, 10, 100_000_000, MyResult::Accepted, 5);
    submit(&mut r, 2, 1, 11, 0, MyResult::WrongAnswer, 5);
    submit(&mut r, 2, 1, 12, 0, MyResult::WrongAnswer, 5);
    submit(&mut r, 2, 1, 13, 100_000_000, MyResult::Accepted, 5);
    let c = whole(&r);
    let probs = vec![0];
    let list = rank_list(&c, &probs, r.job_list(), r.user_list(), rule(ScoringRule::Latest, TieBreaker::SubmissionCount), &config());
    assert_eq!(list.len(), 3);
    assert_eq!(list[0].user.name, "a");
    assert_eq!(list[0].rank, 1);
    assert_eq!(list[1].user.name, "b");
    assert_eq!(list[1].rank, 2);
    assert_eq!(list[2].user.name, "root");
    assert_eq!(list[2].rank, 3);
}

#[test]
fn equal_rows_share_rank() {
    let mut r = registry_of_two();
    submit(&mut r, 1, 1, 10, 50_000_000, MyResult::WrongAnswer, 5);
    submit(&mut r, 2, 1, 11, 50_000_000, MyResult::WrongAnswer, 5);
    let c = whole(&r);
    let list = rank_list(&c, &vec![0], r.job_list(), r.user_list(), rule(ScoringRule::Latest, TieBreaker::NoTieBreak), &config());
    let ranks: Vec<i32> = list.iter().map(|u| u.rank).collect();
    assert_eq!(ranks, vec![1, 1, 3]);
    let names: Vec<&str> = list.iter().map(|u| u.user.name.as_str()).collect();
    assert_eq!(names, vec!["a", "b", "root"]);
    let by_id = rank_list(&c, &vec![0], r.job_list(), r.user_list(), rule(ScoringRule::Latest, TieBreaker::UserId), &config());
    let ranks: Vec<i32> = by_id.iter().map(|u| u.rank).collect();
    assert_eq!(ranks, vec![1, 2, 3]);
}

#[test]
fn latest_and_highest_rules() {
    let mut r = registry_of_two();
    submit(&mut r, 1, 1, 10, 90_000_000, MyResult::WrongAnswer, 5);
    submit(&mut r, 1, 1, 20, 30_000_000, MyResult::WrongAnswer, 5);
    let (latest, t) = get_score_list(&config(), &vec![0], r.job_list(), 1, 0, ScoringRule::Latest);
    assert_eq!(latest, vec![30_000_000]);
    assert_eq!(t, Some(20));
    let (highest, t) = get_score_list(&config(), &vec![0], r.job_list(), 1, 0, ScoringRule::Highest);
    assert_eq!(highest, vec![90_000_000]);
    assert_eq!(t, Some(10));
    let (none, t) = get_score_list(&config(), &vec![0, 1], r.job_list(), 2, 0, ScoringRule::Latest);
    assert_eq!(none, vec![0, 0]);
    assert_eq!(t, None);
}

#[test]
fn dynamic_bonus_scales_with_fastest_time() {
    let mut r = registry_of_two();
    submit(&mut r, 1, 2, 10, 50_000_000, MyResult::Accepted, 100);
    submit(&mut r, 2, 2, 11, 50_000_000, MyResult::Accepted, 400);
    let (a, _) = get_score_list(&config(), &vec![1], r.job_list(), 1, 0, ScoringRule::Latest);
    assert_eq!(a, vec![50_000_000 + 50_000_000]);
    let (b, _) = get_score_list(&config(), &vec![1], r.job_list(), 2, 0, ScoringRule::Latest);
    assert_eq!(b, vec![50_000_000 + 12_500_000]);
}

#[test]
fn submissions_of_a_user() {
    let mut r = registry_of_two();
    submit(&mut r, 1, 1, 10, 0, MyResult::WrongAnswer, 5);
    submit(&mut r, 2, 1, 11, 0, MyResult::WrongAnswer, 5);
    submit(&mut r, 1, 2, 12, 0, MyResult::WrongAnswer, 5);
    let u = r.user_list()[1].clone();
    let mine: Vec<Job> = get_user_submissions(0, &u, r.job_list());
    let ids: Vec<i32> = mine.iter().map(|j| j.id).collect();
    assert_eq!(ids, vec![0, 2]);
    assert!(get_user_submissions(3, &u, r.job_list()).is_empty());
}

#[test]
fn comparing_standings() {
    let a = Standing { uid: 1, total: 10, key: 3 };
    let b = Standing { uid: 2, total: 10, key: 5 };
    let c = Standing { uid: 3, total: 20, key: 9 };
    assert_eq!(compare_users(&a, &b), Ordering::Greater);
    assert_eq!(compare_users(&b, &a), Ordering::Less);
    assert_eq!(compare_users(&c, &a), Ordering::Greater);
    assert_eq!(compare_users(&a, &Standing { uid: 7, total: 10, key: 3 }), Ordering::Equal);
}

#[test]
fn problems_of_contests() {
    let cfg = config();
    let mut r = registry_of_two();
    assert_eq!(contest_problems(&whole(&r), &cfg), Some(vec![0, 1]));
    let c = r
        .post_contest(
            Contest {
                id: None,
                name: "c".to_string(),
                from: 0,
                to: 1,
                problem_ids: vec![2],
                user_ids: vec![1],
                submission_limit: 1,
            },
            &cfg,
        )
        .unwrap();
    assert_eq!(contest_problems(&c, &cfg), Some(vec![1]));
    let mut gone = c.clone();
    gone.problem_ids = vec![5];
    assert_eq!(contest_problems(&gone, &cfg), None);
    let list = rank_list(&c, &vec![1], r.job_list(), r.user_list(), rule(ScoringRule::Highest, TieBreaker::SubmissionTime), &cfg);
    assert_eq!(list.len(), 1);
    assert_eq!(list[0].user.name, "a");
    assert_eq!(list[0].scores, vec![0]);
}

#[test]
fn one_row_per_contest_user() {
    let cfg = config();
    let mut r = registry_of_two();
    let c = r
        .post_contest(
            Contest {
                id: None,
                name: "c".to_string(),
                from: 0,
                to: 1,
                problem_ids: vec![1],
                user_ids: vec![2, 1, 2],
                submission_limit: 1,
            },
            &cfg,
        )
        .unwrap();
    let list = rank_list(&c, &vec![0], r.job_list(), r.user_list(), rule(ScoringRule::Latest, TieBreaker::NoTieBreak), &cfg);
    let names: Vec<&str> = list.iter().map(|u| u.user.name.as_str()).collect();
    assert_eq!(names, vec!["a", "b"]);
    let ranks: Vec<i32> = list.iter().map(|u| u.rank).collect();
    assert_eq!(ranks, vec![1, 1]);
}

#[test]
fn latest_submission_time_breaks_ties() {
    let mut r = registry_of_two();
    submit(&mut r, 2, 1, 10, 100_000_000, MyResult::Accepted, 5);
    submit(&mut r, 1, 1, 20, 100_000_000, MyResult::Accepted, 5);
    let c = whole(&r);
    let list = rank_list(&c, &vec![0], r.job_list(), r.user_list(), rule(ScoringRule::Latest, TieBreaker::SubmissionTime), &config());
    let names: Vec<&str> = list.iter().map(|u| u.user.name.as_str()).collect();
    assert_eq!(names, vec!["b", "a", "root"]);
    let ranks: Vec<i32> = list.iter().map(|u| u.rank).collect();
    assert_eq!(ranks, vec![1, 2, 3]);
    assert_eq!(list[0].scores, vec![100_000_000]);
}
