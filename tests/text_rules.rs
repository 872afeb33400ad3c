use oj::model::{Language, Misc, MyResult, Problem, ProblemType};
use oj::problem::problem_check;
use oj::text::{
    artifact_path, case_verdict, compile_command, fill_template, judge_output_path, same_trimmed_lines,
    source_path, special_judge_command, special_judge_verdict, work_dir, Exit,
};

fn strings(v: &[&str]) -> Vec<String> {
    v.iter().map(|s| s.to_string()).collect()
}

#[test]
fn trailing_space_ignored_under_standard() {
    assert!(same_trimmed_lines("1 2 \n3\t\n", "1 2\n3\n"));
    assert!(!same_trimmed_lines("1 2\n3\n", "1 2\n3"));
    assert!(!same_trimmed_lines(" 1\n", "1\n"));
    assert!(same_trimmed_lines("", ""));
    assert!(same_trimmed_lines("a\u{3000}\r\n", "a\n"));
}

#[test]
fn verdicts_of_runs() {
    assert_eq!(case_verdict(Exit::Failed, ProblemType::Standard, "3\n", "3\n"), Some(MyResult::RuntimeError));
    assert_eq!(case_verdict(Exit::Succeeded, ProblemType::Spj, "3\n", "3\n"), None);
    assert_eq!(case_verdict(Exit::Succeeded, ProblemType::DynamicRanking, "3  \n", "3\n"), Some(MyResult::Accepted));
    assert_eq!(case_verdict(Exit::Succeeded, ProblemType::Strict, "3\n", "3\n"), Some(MyResult::Accepted));
    assert_eq!(case_verdict(Exit::Succeeded, ProblemType::Standard, "4\n", "3\n"), Some(MyResult::WrongAnswer));
}

#[test]
fn verdict_names_round_trip() {
    let all = [
        MyResult::Waiting,
        MyResult::Running,
        MyResult::Accepted,
        MyResult::CompilationError,
        MyResult::CompilationSuccess,
        MyResult::WrongAnswer,
        MyResult::RuntimeError,
        MyResult::TimeLimitExceeded,
        MyResult::MemoryLimitExceeded,
        MyResult::SystemError,
        MyResult::SPJError,
        MyResult::Skipped,
    ];
    for v in all {
        assert_eq!(MyResult::from_name(v.name()), Some(v));
    }
    assert_eq!(MyResult::WrongAnswer.name(), "Wrong Answer");
    assert_eq!(MyResult::from_name("wrong answer"), None);
}

#[test]
fn special_judge_reports() {
    assert_eq!(special_judge_verdict(true, "Wrong Answer\nline 3 differs\n"), (MyResult::WrongAnswer, "line 3 differs".to_string()));
    assert_eq!(special_judge_verdict(true, "Accepted\r\n"), (MyResult::Accepted, String::new()));
    assert_eq!(special_judge_verdict(true, ""), (MyResult::SPJError, String::new()));
    assert_eq!(special_judge_verdict(true, "Great\n"), (MyResult::SystemError, String::new()));
    assert_eq!(special_judge_verdict(false, "Wrong Answer\n"), (MyResult::Accepted, String::new()));
    assert_eq!(special_judge_verdict(true, "X\nB\r"), (MyResult::SystemError, "B\r".to_string()));
    assert_eq!(special_judge_verdict(true, "Accepted\r"), (MyResult::SystemError, String::new()));
    assert_eq!(special_judge_verdict(true, "Skipped\r\nnote\r\n"), (MyResult::Skipped, "note".to_string()));
}

#[test]
fn templates_fill_once() {
    let cmd = strings(&["gcc", "%INPUT%", "-o", "%OUTPUT%"]);
    assert_eq!(fill_template(&cmd, "%INPUT%", "a.c", "%OUTPUT%", "a"), Some(strings(&["gcc", "a.c", "-o", "a"])));
    let twice = strings(&["%INPUT%", "%INPUT%", "%OUTPUT%"]);
    assert_eq!(fill_template(&twice, "%INPUT%", "a.c", "%OUTPUT%", "a"), None);
    let lang = Language { name: "C".to_string(), file_name: "main.c".to_string(), command: strings(&["gcc", "%OUTPUT%"]) };
    assert_eq!(compile_command(&lang, "x", "y"), None);
}

#[test]
fn paths_of_a_judging() {
    let dir = work_dir(12);
    assert_eq!(dir, "./problem12");
    assert_eq!(work_dir(-3), "./problem-3");
    assert_eq!(work_dir(0), "./problem0");
    assert_eq!(source_path(&dir, "main.rs"), "./problem12/main.rs");
    assert_eq!(artifact_path(&dir, 105), "./problem12/job_105");
    assert_eq!(judge_output_path(&dir), "./problem12/output");
}

fn spj_problem(cmd: Option<Vec<String>>) -> Problem {
    Problem {
        id: 1,
        name: "p".to_string(),
        ty: ProblemType::Spj,
        misc: Misc { packing: None, special_judge: cmd, dynamic_ranking_ratio: None },
        cases: vec![],
    }
}

#[test]
fn special_judge_commands() {
    let p = spj_problem(Some(strings(&["judge", "%OUTPUT%", "%ANSWER%"])));
    assert_eq!(special_judge_command(&p, "out", "ans"), Some(strings(&["judge", "out", "ans"])));
    assert!(problem_check(&p));
    let q = spj_problem(None);
    assert_eq!(special_judge_command(&q, "out", "ans"), None);
    assert!(!problem_check(&q));
}

#[test]
fn problem_bounds_checked() {
    let mut p = spj_problem(Some(strings(&["judge", "%OUTPUT%", "%ANSWER%"])));
    p.ty = ProblemType::Standard;
    p.misc.packing = Some(vec![vec![1]]);
    assert!(!problem_check(&p));
    p.misc.packing = None;
    p.misc.dynamic_ranking_ratio = Some(1001);
    assert!(!problem_check(&p));
    p.misc.dynamic_ranking_ratio = Some(1000);
    assert!(problem_check(&p));
}
