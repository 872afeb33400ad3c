//! Core of an online judge: the data model, the judging state machine,
//! the registries of jobs, users and contests, the job filter and the
//! rank-list engine.
//!
//! Scores are fixed-point integers: a case's score and the dynamic-ranking
//! ratio are in thousandths, a job's score and a rank-list score are in
//! millionths of a point. Times are milliseconds since the Unix epoch.

pub mod clock;
pub mod filter;
pub mod judge;
pub mod model;
pub mod problem;
pub mod rank;
pub mod registry;
pub mod text;

pub use filter::{match_job, matching_jobs};
pub use judge::{Judge, Phase};
pub use model::{
    address_default, port_default, scoring_rule_default, tie_breaker_default, Args, Case,
    CaseResult, Config, Contest, Error, GetJob, Job, Language, Misc, MyResult, PostJob, Problem,
    ProblemType, RankRule, Reason, ScoringRule, Server, State, TieBreaker, User, UserRank,
};
pub use rank::{compare_users, contest_problems, get_score_list, get_user_submissions, rank_list, Standing};
pub use registry::{config_check, find_problem, Registry};
pub use text::{case_verdict, special_judge_verdict, Exit};
