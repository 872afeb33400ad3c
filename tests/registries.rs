use oj::model::{Case, Config, Contest, GetJob, Language, Misc, MyResult, PostJob, Problem, ProblemType, Reason, Server, State, User};
use oj::{config_check, match_job, matching_jobs, Registry};

fn config() -> Config {
    Config {
        server: Server { bind_address: oj::address_default(), bind_port: oj::port_default() },
        problems: vec![Problem {
            id: 7,
            name: "sum".to_string(),
            ty: ProblemType::Standard,
            misc: Misc { packing: None, special_judge: None, dynamic_ranking_ratio: None },
            cases: vec![Case {
                score: 100_000,
                input_file: "in".to_string(),
                answer_file: "ans".to_string(),
                time_limit: 1_000_000,
                memory_limit: 0,
            }],
        }],
        languages: vec![Language {
            name: "Rust".to_string(),
            file_name: "main.rs".to_string(),
            command: vec!["rustc".to_string(), "%INPUT%".to_string(), "-o".to_string(), "%OUTPUT%".to_string()],
        }],
    }
}

fn post(user: i32, contest: i32) -> PostJob {
    PostJob {
        source_code: "fn main(){}".to_string(),
        language: "Rust".to_string(),
        user_id: user,
        contest_id: contest,
        problem_id: 7,
    }
}

fn user(id: Option<i32>, name: &str) -> User {
    User { id, name: name.to_string() }
}

fn contest(id: Option<i32>, users: Vec<i32>, limit: i32) -> Contest {
    Contest {
        id,
        name: "round".to_string(),
        from: 100,
        to: 10_000,
        problem_ids: vec![7],
        user_ids: users,
        submission_limit: limit,
    }
}

#[test]
fn defaults_of_server() {
    assert_eq!(oj::address_default(), "127.0.0.1");
    assert_eq!(oj::port_default(), 12345);
    assert!(config_check(&config()));
}

#[test]
fn flushed_registry_has_root() {
    let r = Registry::flushed();
    assert_eq!(r.user_list().len(), 1);
    assert_eq!(r.user_list()[0].name, "root");
    assert_eq!(r.user_list()[0].id, Some(0));
    assert_eq!(r.contest_list().len(), 1);
    assert_eq!(r.contest_list()[0].user_ids, vec![0]);
    assert!(r.listed_contests().is_empty());
}

#[test]
fn job_ids_are_dense() {
    let mut r = Registry::flushed();
    let cfg = config();
    for i in 0..4 {
        let (job, l, p) = r.create_job(&post(0, 0), &cfg, 50 + i).unwrap();
        assert_eq!(job.id, i as i32);
        assert_eq!((l, p), (0, 0));
        assert_eq!(job.created_time, 50 + i);
        assert_eq!(job.state, State::Queueing);
    }
    let ids: Vec<i32> = r.job_list().iter().map(|j| j.id).collect();
    assert_eq!(ids, vec![0, 1, 2, 3]);
}

#[test]
fn unknown_language_problem_or_user() {
    let mut r = Registry::flushed();
    let cfg = config();
    let mut p = post(0, 0);
    p.language = "Go".to_string();
    assert_eq!(r.create_job(&p, &cfg, 1).unwrap_err().reason, Reason::ErrNotFound);
    let mut p = post(0, 0);
    p.problem_id = 8;
    assert_eq!(r.create_job(&p, &cfg, 1).unwrap_err().code, 3);
    assert_eq!(r.create_job(&post(5, 0), &cfg, 1).unwrap_err().reason, Reason::ErrNotFound);
    assert!(r.job_list().is_empty());
}

#[test]
fn contest_submission_limit() {
    let mut r = Registry::flushed();
    let cfg = config();
    r.post_contest(contest(None, vec![0], 2), &cfg).unwrap();
    assert!(r.create_job(&post(0, 1), &cfg, 500).is_ok());
    assert!(r.create_job(&post(0, 1), &cfg, 600).is_ok());
    let e = r.create_job(&post(0, 1), &cfg, 700).unwrap_err();
    assert_eq!(e.reason, Reason::ErrRateLimit);
    assert_eq!(e.code, 4);
    assert_eq!(e.status(), 400);
    assert_eq!(r.job_list().len(), 2);
}

#[test]
fn contest_window_and_membership() {
    let mut r = Registry::flushed();
    let cfg = config();
    r.post_user(user(None, "alice")).unwrap();
    r.post_contest(contest(None, vec![0], 5), &cfg).unwrap();
    assert_eq!(r.create_job(&post(0, 1), &cfg, 50).unwrap_err().reason, Reason::ErrInvalidArgument);
    assert!(r.create_job(&post(0, 1), &cfg, 100).is_ok());
    assert!(r.create_job(&post(0, 1), &cfg, 10_000).is_ok());
    assert_eq!(r.create_job(&post(1, 1), &cfg, 500).unwrap_err().reason, Reason::ErrInvalidArgument);
    assert_eq!(r.create_job(&post(0, 9), &cfg, 500).unwrap_err().reason, Reason::ErrNotFound);
}

#[test]
fn user_names_stay_unique() {
    let mut r = Registry::flushed();
    let a = r.post_user(user(None, "alice")).unwrap();
    assert_eq!(a.id, Some(1));
    let e = r.post_user(user(None, "alice")).unwrap_err();
    assert_eq!(e.reason, Reason::ErrInvalidArgument);
    assert_eq!(e.code, 1);
    let e = r.post_user(user(Some(0), "alice")).unwrap_err();
    assert_eq!(e.reason, Reason::ErrInvalidArgument);
    let same = r.post_user(user(Some(1), "alice")).unwrap();
    assert_eq!(same.name, "alice");
    let renamed = r.post_user(user(Some(1), "bob")).unwrap();
    assert_eq!(renamed.id, Some(1));
    assert_eq!(r.user_list()[1].name, "bob");
    assert_eq!(r.post_user(user(Some(9), "carol")).unwrap_err().reason, Reason::ErrNotFound);
    let e = r.post_user(user(Some(9), "root")).unwrap_err();
    assert_eq!(e.reason, Reason::ErrNotFound);
    assert_eq!(e.code, 3);
    assert_eq!(r.contest_list()[0].user_ids, vec![0, 1]);
    let names: Vec<&str> = r.user_list().iter().map(|u| u.name.as_str()).collect();
    assert_eq!(names, vec!["root", "bob"]);
}

#[test]
fn contests_posted_and_replaced() {
    let mut r = Registry::flushed();
    let cfg = config();
    let c = r.post_contest(contest(None, vec![0], 3), &cfg).unwrap();
    assert_eq!(c.id, Some(1));
    assert_eq!(r.post_contest(contest(None, vec![4], 3), &cfg).unwrap_err().reason, Reason::ErrNotFound);
    let mut bad = contest(None, vec![0], 3);
    bad.problem_ids = vec![99];
    assert_eq!(r.post_contest(bad, &cfg).unwrap_err().reason, Reason::ErrNotFound);
    let replaced = r.post_contest(contest(Some(1), vec![0], 9), &cfg).unwrap();
    assert_eq!(replaced.submission_limit, 9);
    assert_eq!(r.find_contest(1).unwrap().submission_limit, 9);
    assert_eq!(r.post_contest(contest(Some(5), vec![0], 9), &cfg).unwrap_err().reason, Reason::ErrNotFound);
    assert_eq!(r.listed_contests().len(), 1);
    assert!(r.find_contest(2).is_none());
}

#[test]
fn commit_and_rejudge() {
    let mut r = Registry::flushed();
    let cfg = config();
    let (mut job, _, _) = r.create_job(&post(0, 0), &cfg, 10).unwrap();
    job.result = MyResult::Accepted;
    job.score = 100_000_000;
    job.state = State::Finished;
    assert!(r.commit(job.clone()).is_ok());
    assert_eq!(r.find_job(0).unwrap().result, MyResult::Accepted);
    let (again, _, p) = r.rejudge(0, &cfg).unwrap();
    assert_eq!(again.created_time, 10);
    assert_eq!(p, 0);
    assert_eq!(r.rejudge(4, &cfg).unwrap_err().reason, Reason::ErrNotFound);
    job.id = 8;
    assert_eq!(r.commit(job.clone()).unwrap_err().reason, Reason::ErrNotFound);
    job.id = 0;
    job.score = u64::MAX;
    assert_eq!(r.commit(job).unwrap_err().reason, Reason::ErrInternal);
}

#[test]
fn snapshot_restores_as_it_was() {
    let mut r = Registry::flushed();
    let cfg = config();
    r.post_user(user(None, "alice")).unwrap();
    r.create_job(&post(1, 0), &cfg, 10).unwrap();
    let (jobs, users, contests) = r.snapshot();
    let back = Registry::restore(jobs, users, contests).unwrap();
    assert_eq!(back.job_list().len(), 1);
    assert_eq!(back.job_list()[0].submission.user_id, 1);
    assert_eq!(back.user_list()[1].name, "alice");
    assert_eq!(back.contest_list()[0].user_ids, vec![0, 1]);
    let (jobs, mut users, contests) = r.snapshot();
    users[1].name = "root".to_string();
    assert_eq!(Registry::restore(jobs, users, contests).unwrap_err().reason, Reason::ErrInternal);
    let (jobs, users, _) = r.snapshot();
    assert!(Registry::restore(jobs, users, vec![]).is_err());
}

fn filter() -> GetJob {
    GetJob {
        user_id: None,
        user_name: None,
        contest_id: None,
        problem_id: None,
        language: None,
        from: None,
        to: None,
        state: None,
        result: None,
    }
}

#[test]
fn filter_fields_and_bounds() {
    let mut r = Registry::flushed();
    let cfg = config();
    r.post_user(user(None, "alice")).unwrap();
    for t in [100, 200, 300] {
        r.create_job(&post(1, 0), &cfg, t).unwrap();
    }
    r.create_job(&post(0, 0), &cfg, 400).unwrap();
    let jobs = r.job_list();
    let users = r.user_list();
    assert_eq!(matching_jobs(&filter(), jobs, users), vec![0, 1, 2, 3]);
    let mut f = filter();
    f.from = Some(100);
    f.to = Some(300);
    assert_eq!(matching_jobs(&f, jobs, users), vec![1]);
    let mut f = filter();
    f.user_name = Some("alice".to_string());
    assert_eq!(matching_jobs(&f, jobs, users), vec![0, 1, 2]);
    let mut f = filter();
    f.user_id = Some(0);
    f.state = Some(State::Queueing);
    assert_eq!(matching_jobs(&f, jobs, users), vec![3]);
    let mut f = filter();
    f.result = Some(MyResult::Accepted);
    assert!(!match_job(&f, &jobs[0], users));
    let mut f = filter();
    f.contest_id = Some(2);
    assert!(matching_jobs(&f, jobs, users).is_empty());
    let mut f = filter();
    f.language = Some("Rust".to_string());
    f.problem_id = Some(7);
    assert_eq!(matching_jobs(&f, jobs, users).len(), 4);
}

#[test]
fn error_codes_and_statuses() {
    let all = [
        (Reason::ErrInvalidArgument, 1, 400),
        (Reason::ErrNotFound, 3, 404),
        (Reason::ErrRateLimit, 4, 400),
        (Reason::ErrExternal, 5, 500),
        (Reason::ErrInternal, 6, 500),
    ];
    for (reason, code, status) in all {
        let e = oj::Error::of(reason);
        assert_eq!(e.code, code);
        assert_eq!(e.status(), status);
        assert!(e.message.is_empty());
    }
}

#[test]
fn rule_defaults() {
    assert_eq!(oj::scoring_rule_default(), oj::ScoringRule::Latest);
    assert_eq!(oj::tie_breaker_default(), oj::TieBreaker::NoTieBreak);
}
