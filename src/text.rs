//! Text handling of the judge: output comparison, verdict names, the
//! special judge's report and command templates.
use vstd::prelude::*;
use crate::model::{Language, MyResult, Problem, ProblemType};
use vstd::std_specs::iter::IteratorSpec;

verus! {

/// The characters of `s`, in order.
fn chars_of(s: &str) -> (r: Vec<char>)
    ensures
        r@ == s@,
{
    broadcast use vstd::string::axiom_spec_iter, vstd::string::next_postcondition;

    let mut it = s.chars();
    let mut out: Vec<char> = Vec::new();
    assert(out@ + it.remaining() =~= s@);
    loop
        invariant
            out@ + it.remaining() == s@,
            it.decrease() is Some,
        decreases it.decrease()->0,
    {
        let ghost before = it.remaining();
        match it.next() {
            Some(c) => {
                out.push(c);
                assert(out@ + it.remaining() =~= s@) by {
                    assert(before =~= seq![c] + it.remaining());
                }
            },
            None => {
                assert(out@ =~= s@);
                return out;
            },
        }
    }
}

/// The characters that `char::is_whitespace` holds to be white space.
pub open spec fn is_blank(c: char) -> bool {
    ||| c == ' ' || c == '\t' || c == '\n' || c == '\x0B' || c == '\x0C' || c == '\r'
    ||| c == '\u{85}' || c == '\u{A0}' || c == '\u{1680}'
    ||| ('\u{2000}' <= c && c <= '\u{200A}')
    ||| c == '\u{2028}' || c == '\u{2029}' || c == '\u{202F}' || c == '\u{205F}' || c == '\u{3000}'
}

fn blank(c: char) -> (r: bool)
    ensures
        r == is_blank(c),
{
    c == ' ' || c == '\t' || c == '\n' || c == '\x0B' || c == '\x0C' || c == '\r' || c == '\u{85}'
        || c == '\u{A0}' || c == '\u{1680}' || ('\u{2000}' <= c && c <= '\u{200A}') || c
        == '\u{2028}' || c == '\u{2029}' || c == '\u{202F}' || c == '\u{205F}' || c == '\u{3000}'
}

/// `s` cut at every `'\n'`: one more piece than there are line feeds.
pub open spec fn split_lines(s: Seq<char>) -> Seq<Seq<char>>
    decreases s.len(),
{
    if s.len() == 0 {
        seq![Seq::<char>::empty()]
    } else {
        let prev = split_lines(s.drop_last());
        if s.last() == '\n' {
            prev.push(Seq::<char>::empty())
        } else {
            prev.update(prev.len() - 1, prev.last().push(s.last()))
        }
    }
}

/// `s` without the white space at its end.
pub open spec fn trim_end(s: Seq<char>) -> Seq<char>
    decreases s.len(),
{
    if s.len() > 0 && is_blank(s.last()) {
        trim_end(s.drop_last())
    } else {
        s
    }
}

/// The lines of `s`, each without the white space at its end.
pub open spec fn trimmed_lines(s: Seq<char>) -> Seq<Seq<char>> {
    split_lines(s).map_values(|l: Seq<char>| trim_end(l))
}

proof fn lemma_split_nonempty(s: Seq<char>)
    ensures
        split_lines(s).len() >= 1,
    decreases s.len(),
{
    if s.len() > 0 {
        lemma_split_nonempty(s.drop_last());
    }
}

/// Where the white space at the end of `s[..end]` begins.
fn trimmed_end(s: &Vec<char>, start: usize, end: usize) -> (r: usize)
    requires
        start <= end <= s@.len(),
    ensures
        start <= r <= end,
        trim_end(s@.subrange(start as int, end as int)) == s@.subrange(start as int, r as int),
{
    let mut e = end;
    while e > start && blank(s[e - 1])
        invariant
            start <= e <= end <= s@.len(),
            trim_end(s@.subrange(start as int, end as int)) == trim_end(
                s@.subrange(start as int, e as int),
            ),
        decreases e,
    {
        assert(s@.subrange(start as int, e as int).drop_last() =~= s@.subrange(
            start as int,
            e - 1,
        ));
        e = e - 1;
    }
    e
}

/// Same characters in `a[a0..a1]` and `b[b0..b1]`.
fn same_span(a: &Vec<char>, a0: usize, a1: usize, b: &Vec<char>, b0: usize, b1: usize) -> (r: bool)
    requires
        a0 <= a1 <= a@.len(),
        b0 <= b1 <= b@.len(),
    ensures
        r == (a@.subrange(a0 as int, a1 as int) == b@.subrange(b0 as int, b1 as int)),
{
    if a1 - a0 != b1 - b0 {
        assert(a@.subrange(a0 as int, a1 as int).len() != b@.subrange(b0 as int, b1 as int).len());
        return false;
    }
    let mut i: usize = 0;
    while i < a1 - a0
        invariant
            a0 <= a1 <= a@.len(),
            b0 <= b1 <= b@.len(),
            a1 - a0 == b1 - b0,
            i <= a1 - a0,
            a@.subrange(a0 as int, a0 + i) == b@.subrange(b0 as int, b0 + i),
        decreases a1 - a0 - i,
    {
        if a[a0 + i] != b[b0 + i] {
            assert(a@.subrange(a0 as int, a1 as int)[i as int] != b@.subrange(
                b0 as int,
                b1 as int,
            )[i as int]);
            return false;
        }
        assert(a@.subrange(a0 as int, a0 + i + 1) =~= a@.subrange(a0 as int, a0 + i).push(
            a@[a0 + i],
        ));
        assert(b@.subrange(b0 as int, b0 + i + 1) =~= b@.subrange(b0 as int, b0 + i).push(
            b@[b0 + i],
        ));
        i = i + 1;
    }
    true
}

/// Where each line of `s` starts and ends (the ends before any `'\n'`).
fn line_bounds(s: &Vec<char>) -> (r: (Vec<usize>, Vec<usize>))
    ensures
        r.0@.len() == r.1@.len(),
        r.0@.len() == split_lines(s@).len(),
        forall|k: int| 0 <= k < r.0@.len() ==> #[trigger] r.0@[k] <= r.1@[k] <= s@.len(),
        forall|k: int|
            0 <= k < r.0@.len() ==> #[trigger] split_lines(s@)[k] == s@.subrange(
                r.0@[k] as int,
                r.1@[k] as int,
            ),
{
    let mut starts: Vec<usize> = vec![0];
    let mut ends: Vec<usize> = Vec::new();
    let mut i: usize = 0;
    while i < s.len()
        invariant
            i <= s@.len(),
            starts@.len() == ends@.len() + 1,
            starts@.len() == split_lines(s@.subrange(0, i as int)).len(),
            starts@.last() <= i,
            forall|k: int|
                #![trigger starts@[k]]
                0 <= k < ends@.len() ==> starts@[k] <= ends@[k] && ends@[k] <= i,
            forall|k: int|
                0 <= k < ends@.len() ==> #[trigger] split_lines(s@.subrange(0, i as int))[k]
                    == s@.subrange(starts@[k] as int, ends@[k] as int),
            split_lines(s@.subrange(0, i as int)).last() == s@.subrange(
                starts@.last() as int,
                i as int,
            ),
        decreases s@.len() - i,
    {
        let ghost pre = s@.subrange(0, i as int);
        let ghost post = s@.subrange(0, i + 1);
        let ghost old_starts = starts@;
        let ghost old_ends = ends@;
        assert(post.drop_last() =~= pre);
        assert(post.last() == s@[i as int]);
        proof {
            lemma_split_nonempty(pre);
        }
        if s[i] == '\n' {
            ends.push(i);
            starts.push(i + 1);
            assert(split_lines(post) == split_lines(pre).push(Seq::<char>::empty()));
            assert(s@.subrange(i + 1, i + 1) =~= Seq::<char>::empty());
            assert forall|k: int| 0 <= k < ends@.len() implies #[trigger] starts@[k] <= ends@[k]
                <= i + 1 by {
                assert(starts@[k] == old_starts[k]);
                if k < old_ends.len() {
                    assert(ends@[k] == old_ends[k]);
                    assert(old_starts[k] <= old_ends[k] <= i);
                } else {
                    assert(k == old_ends.len());
                    assert(old_starts[k] == old_starts.last());
                }
            }
            assert forall|k: int| 0 <= k < ends@.len() implies #[trigger] split_lines(post)[k]
                == s@.subrange(
                starts@[k] as int,
                ends@[k] as int,
            ) by {
                if k < old_ends.len() {
                    assert(split_lines(pre)[k] == s@.subrange(
                        old_starts[k] as int,
                        old_ends[k] as int,
                    ));
                }
            }
        } else {
            let ghost line = split_lines(pre).last();
            assert(split_lines(post) == split_lines(pre).update(
                split_lines(pre).len() - 1,
                line.push(s@[i as int]),
            ));
            assert(s@.subrange(starts@.last() as int, i + 1) =~= s@.subrange(
                starts@.last() as int,
                i as int,
            ).push(s@[i as int]));
            assert forall|k: int| 0 <= k < ends@.len() implies #[trigger] split_lines(post)[k]
                == s@.subrange(
                starts@[k] as int,
                ends@[k] as int,
            ) by {
                assert(split_lines(pre)[k] == s@.subrange(starts@[k] as int, ends@[k] as int));
            }
            assert forall|k: int| 0 <= k < ends@.len() implies #[trigger] starts@[k] <= ends@[k]
                <= i + 1 by {
                assert(old_starts[k] <= old_ends[k] <= i);
            }
        }
        assert(forall|k: int|
            #![trigger starts@[k]]
            0 <= k < ends@.len() ==> starts@[k] <= ends@[k] && ends@[k] <= i + 1);
        i = i + 1;
    }
    let ghost old_ends = ends@;
    ends.push(s.len());
    assert(s@.subrange(0, s@.len() as int) =~= s@);
    assert forall|k: int| 0 <= k < starts@.len() implies #[trigger] split_lines(s@)[k]
        == s@.subrange(starts@[k] as int, ends@[k] as int) by {
        if k < old_ends.len() {
            assert(split_lines(s@.subrange(0, i as int))[k] == s@.subrange(
                starts@[k] as int,
                ends@[k] as int,
            ));
        }
    }
    (starts, ends)
}

/// Whether two texts have the same lines once the white space at the end
/// of each line is dropped.
pub fn same_trimmed_lines(a: &str, b: &str) -> (r: bool)
    ensures
        r == (trimmed_lines(a@) == trimmed_lines(b@)),
{
    let ac = chars_of(a);
    let bc = chars_of(b);
    let (a_starts, a_ends) = line_bounds(&ac);
    let (b_starts, b_ends) = line_bounds(&bc);
    if a_starts.len() != b_starts.len() {
        assert(trimmed_lines(a@).len() != trimmed_lines(b@).len());
        return false;
    }
    let mut k: usize = 0;
    while k < a_starts.len()
        invariant
            a_starts@.len() == a_ends@.len() == b_starts@.len() == b_ends@.len(),
            a_starts@.len() == split_lines(ac@).len(),
            b_starts@.len() == split_lines(bc@).len(),
            ac@ == a@,
            bc@ == b@,
            forall|j: int| 0 <= j < a_starts@.len() ==> #[trigger] a_starts@[j] <= a_ends@[j] <= ac@.len(),
            forall|j: int|
                0 <= j < a_starts@.len() ==> #[trigger] split_lines(ac@)[j] == ac@.subrange(
                    a_starts@[j] as int,
                    a_ends@[j] as int,
                ),
            forall|j: int| 0 <= j < b_starts@.len() ==> #[trigger] b_starts@[j] <= b_ends@[j] <= bc@.len(),
            forall|j: int|
                0 <= j < b_starts@.len() ==> #[trigger] split_lines(bc@)[j] == bc@.subrange(
                    b_starts@[j] as int,
                    b_ends@[j] as int,
                ),
            k <= a_starts@.len(),
            forall|j: int| 0 <= j < k ==> #[trigger] trimmed_lines(a@)[j] == trimmed_lines(b@)[j],
        decreases a_starts@.len() - k,
    {
        let a_cut = trimmed_end(&ac, a_starts[k], a_ends[k]);
        let b_cut = trimmed_end(&bc, b_starts[k], b_ends[k]);
        assert(split_lines(ac@)[k as int] == ac@.subrange(
            a_starts@[k as int] as int,
            a_ends@[k as int] as int,
        ));
        assert(split_lines(bc@)[k as int] == bc@.subrange(
            b_starts@[k as int] as int,
            b_ends@[k as int] as int,
        ));
        if !same_span(&ac, a_starts[k], a_cut, &bc, b_starts[k], b_cut) {
            assert(trimmed_lines(a@)[k as int] != trimmed_lines(b@)[k as int]);
            return false;
        }
        k = k + 1;
    }
    assert(trimmed_lines(a@) =~= trimmed_lines(b@));
    true
}

/// How the program exited.
#[derive(Clone, Copy, Debug, PartialEq, Eq, Structural)]
pub enum Exit {
    /// It ran past its time limit and was killed.
    TimedOut,
    /// It ended with a non-zero status or by a signal.
    Failed,
    /// It ended with status zero.
    Succeeded,
}

/// The verdict on one run, or `None` where the special judge decides.
pub open spec fn run_verdict(exit: Exit, ty: ProblemType, output: Seq<char>, answer: Seq<char>) -> Option<
    MyResult,
> {
    match exit {
        Exit::TimedOut => Some(MyResult::TimeLimitExceeded),
        Exit::Failed => Some(MyResult::RuntimeError),
        Exit::Succeeded => match ty {
            ProblemType::Spj => None,
            ProblemType::Strict => Some(
                if output == answer {
                    MyResult::Accepted
                } else {
                    MyResult::WrongAnswer
                },
            ),
            _ => Some(
                if trimmed_lines(output) == trimmed_lines(answer) {
                    MyResult::Accepted
                } else {
                    MyResult::WrongAnswer
                },
            ),
        },
    }
}

/// Judges one run of the program on a case, from how it exited and what it
/// printed; `None` where the problem's special judge has to decide.
pub fn case_verdict(exit: Exit, ty: ProblemType, output: &str, answer: &str) -> (r: Option<MyResult>)
    ensures
        r == run_verdict(exit, ty, output@, answer@),
{
    match exit {
        Exit::TimedOut => Some(MyResult::TimeLimitExceeded),
        Exit::Failed => Some(MyResult::RuntimeError),
        Exit::Succeeded => match ty {
            ProblemType::Spj => None,
            ProblemType::Strict => {
                let o = String::from_str(output);
                let a = String::from_str(answer);
                if o == a {
                    Some(MyResult::Accepted)
                } else {
                    Some(MyResult::WrongAnswer)
                }
            },
            _ => {
                if same_trimmed_lines(output, answer) {
                    Some(MyResult::Accepted)
                } else {
                    Some(MyResult::WrongAnswer)
                }
            },
        },
    }
}

/// The name of a verdict, as the special judge writes it and as it is
/// serialised.
pub open spec fn verdict_name(v: MyResult) -> Seq<char> {
    match v {
        MyResult::Waiting => "Waiting"@,
        MyResult::Running => "Running"@,
        MyResult::Accepted => "Accepted"@,
        MyResult::CompilationError => "Compilation Error"@,
        MyResult::CompilationSuccess => "Compilation Success"@,
        MyResult::WrongAnswer => "Wrong Answer"@,
        MyResult::RuntimeError => "Runtime Error"@,
        MyResult::TimeLimitExceeded => "Time Limit Exceeded"@,
        MyResult::MemoryLimitExceeded => "Memory Limit Exceeded"@,
        MyResult::SystemError => "System Error"@,
        MyResult::SPJError => "SPJ Error"@,
        MyResult::Skipped => "Skipped"@,
    }
}

impl MyResult {
    /// The verdict's name.
    pub fn name(&self) -> (r: &'static str)
        ensures
            r@ == verdict_name(*self),
    {
        match self {
            MyResult::Waiting => "Waiting",
            MyResult::Running => "Running",
            MyResult::Accepted => "Accepted",
            MyResult::CompilationError => "Compilation Error",
            MyResult::CompilationSuccess => "Compilation Success",
            MyResult::WrongAnswer => "Wrong Answer",
            MyResult::RuntimeError => "Runtime Error",
            MyResult::TimeLimitExceeded => "Time Limit Exceeded",
            MyResult::MemoryLimitExceeded => "Memory Limit Exceeded",
            MyResult::SystemError => "System Error",
            MyResult::SPJError => "SPJ Error",
            MyResult::Skipped => "Skipped",
        }
    }

    /// The verdict of the given name, if one has it.
    pub fn from_name(s: &str) -> (r: Option<MyResult>)
        ensures
            r == verdict_named(s@),
    {
        let text = String::from_str(s);
        if text == String::from_str("Waiting") {
            Some(MyResult::Waiting)
        } else if text == String::from_str("Running") {
            Some(MyResult::Running)
        } else if text == String::from_str("Accepted") {
            Some(MyResult::Accepted)
        } else if text == String::from_str("Compilation Error") {
            Some(MyResult::CompilationError)
        } else if text == String::from_str("Compilation Success") {
            Some(MyResult::CompilationSuccess)
        } else if text == String::from_str("Wrong Answer") {
            Some(MyResult::WrongAnswer)
        } else if text == String::from_str("Runtime Error") {
            Some(MyResult::RuntimeError)
        } else if text == String::from_str("Time Limit Exceeded") {
            Some(MyResult::TimeLimitExceeded)
        } else if text == String::from_str("Memory Limit Exceeded") {
            Some(MyResult::MemoryLimitExceeded)
        } else if text == String::from_str("System Error") {
            Some(MyResult::SystemError)
        } else if text == String::from_str("SPJ Error") {
            Some(MyResult::SPJError)
        } else if text == String::from_str("Skipped") {
            Some(MyResult::Skipped)
        } else {
            None
        }
    }
}

/// The verdict whose name is `s`, if any.
pub open spec fn verdict_named(s: Seq<char>) -> Option<MyResult> {
    if s == "Waiting"@ {
        Some(MyResult::Waiting)
    } else if s == "Running"@ {
        Some(MyResult::Running)
    } else if s == "Accepted"@ {
        Some(MyResult::Accepted)
    } else if s == "Compilation Error"@ {
        Some(MyResult::CompilationError)
    } else if s == "Compilation Success"@ {
        Some(MyResult::CompilationSuccess)
    } else if s == "Wrong Answer"@ {
        Some(MyResult::WrongAnswer)
    } else if s == "Runtime Error"@ {
        Some(MyResult::RuntimeError)
    } else if s == "Time Limit Exceeded"@ {
        Some(MyResult::TimeLimitExceeded)
    } else if s == "Memory Limit Exceeded"@ {
        Some(MyResult::MemoryLimitExceeded)
    } else if s == "System Error"@ {
        Some(MyResult::SystemError)
    } else if s == "SPJ Error"@ {
        Some(MyResult::SPJError)
    } else if s == "Skipped"@ {
        Some(MyResult::Skipped)
    } else {
        None
    }
}

/// `l` without one `'\r'` at its end.
pub open spec fn strip_cr(l: Seq<char>) -> Seq<char> {
    if l.len() > 0 && l.last() == '\r' {
        l.drop_last()
    } else {
        l
    }
}

/// The lines of `s` as `str::lines` gives them: cut at each `'\n'`, no
/// empty line after a final `'\n'`, and a `'\r'` dropped where it stands
/// right before a `'\n'`.
pub open spec fn text_lines(s: Seq<char>) -> Seq<Seq<char>> {
    let pieces = split_lines(s);
    let kept = if pieces.last().len() == 0 {
        pieces.drop_last()
    } else {
        pieces
    };
    Seq::new(
        kept.len(),
        |i: int|
            if i < pieces.len() - 1 {
                strip_cr(kept[i])
            } else {
                kept[i]
            },
    )
}

/// What the special judge decided, from whether it succeeded and what it
/// printed.
pub open spec fn report_verdict(success: bool, report: Seq<char>) -> MyResult {
    if !success {
        MyResult::Accepted
    } else if text_lines(report).len() == 0 {
        MyResult::SPJError
    } else {
        match verdict_named(text_lines(report)[0]) {
            Some(v) => v,
            None => MyResult::SystemError,
        }
    }
}

/// The note that the special judge left for the case.
pub open spec fn report_info(success: bool, report: Seq<char>) -> Seq<char> {
    if success && text_lines(report).len() >= 2 {
        text_lines(report)[1]
    } else {
        Seq::empty()
    }
}

/// Reads the special judge's report: its first line names the verdict, its
/// second, if any, is a note on the case. A judge that did not succeed
/// leaves the case accepted.
pub fn special_judge_verdict(success: bool, report: &str) -> (r: (MyResult, String))
    ensures
        r.0 == report_verdict(success, report@),
        r.1@ == report_info(success, report@),
{
    if !success {
        return (MyResult::Accepted, String::new());
    }
    let cs = chars_of(report);
    let (starts, ends) = line_bounds(&cs);
    let ghost pieces = split_lines(report@);
    proof {
        lemma_split_nonempty(report@);
    }
    let last = starts.len() - 1;
    let count = if starts[last] == ends[last] {
        last
    } else {
        starts.len()
    };
    assert(pieces[last as int] == report@.subrange(starts@[last as int] as int, ends@[last as int] as int));
    assert(count == text_lines(report@).len());
    if count == 0 {
        return (MyResult::SPJError, String::new());
    }
    let first = line_text(report, &cs, starts[0], ends[0], 0 < last);
    assert(pieces[0] == report@.subrange(starts@[0] as int, ends@[0] as int));
    assert(first@ == text_lines(report@)[0]);
    let verdict = match MyResult::from_name(first.as_str()) {
        Some(v) => v,
        None => MyResult::SystemError,
    };
    let info = if count >= 2 {
        assert(pieces[1] == report@.subrange(starts@[1] as int, ends@[1] as int));
        line_text(report, &cs, starts[1], ends[1], 1 < last)
    } else {
        String::new()
    };
    (verdict, info)
}

/// The text of `s[start..end]`, without one `'\r'` at its end where
/// `strip` asks for it.
fn line_text(s: &str, cs: &Vec<char>, start: usize, end: usize, strip: bool) -> (r: String)
    requires
        cs@ == s@,
        start <= end <= s@.len(),
    ensures
        r@ == if strip {
            strip_cr(s@.subrange(start as int, end as int))
        } else {
            s@.subrange(start as int, end as int)
        },
{
    let stop = if strip && end > start && cs[end - 1] == '\r' {
        assert(s@.subrange(start as int, end as int).drop_last() =~= s@.subrange(
            start as int,
            end - 1,
        ));
        end - 1
    } else {
        end
    };
    String::from_str(s.substring_char(start, stop))
}

/// The texts of a list of strings.
pub open spec fn texts(v: Seq<String>) -> Seq<Seq<char>> {
    v.map_values(|s: String| s@)
}

/// How many of `ts` are `t`.
pub open spec fn occurrences(ts: Seq<Seq<char>>, t: Seq<char>) -> nat
    decreases ts.len(),
{
    if ts.len() == 0 {
        0
    } else {
        occurrences(ts.drop_last(), t) + if ts.last() == t {
            1nat
        } else {
            0nat
        }
    }
}

/// `ts` with each `a` put as `av` and each `b` as `bv`.
pub open spec fn filled(
    ts: Seq<Seq<char>>,
    a: Seq<char>,
    av: Seq<char>,
    b: Seq<char>,
    bv: Seq<char>,
) -> Seq<Seq<char>> {
    ts.map_values(
        |t: Seq<char>|
            if t == a {
                av
            } else if t == b {
                bv
            } else {
                t
            },
    )
}

/// Fills a command template: `a` becomes `a_val` and `b` becomes `b_val`.
/// Each of the two placeholders must stand in the template exactly once.
pub fn fill_template(tokens: &Vec<String>, a: &str, a_val: &str, b: &str, b_val: &str) -> (r:
    Option<Vec<String>>)
    ensures
        r is Some <==> (occurrences(texts(tokens@), a@) == 1 && occurrences(texts(tokens@), b@)
            == 1),
        r matches Some(v) ==> texts(v@) == filled(texts(tokens@), a@, a_val@, b@, b_val@),
{
    let a_text = String::from_str(a);
    let b_text = String::from_str(b);
    let mut out: Vec<String> = Vec::new();
    let mut a_count: usize = 0;
    let mut b_count: usize = 0;
    let mut i: usize = 0;
    while i < tokens.len()
        invariant
            i <= tokens@.len(),
            a_text@ == a@,
            b_text@ == b@,
            a_count == occurrences(texts(tokens@.subrange(0, i as int)), a@),
            b_count == occurrences(texts(tokens@.subrange(0, i as int)), b@),
            a_count <= i,
            b_count <= i,
            texts(out@) == filled(texts(tokens@.subrange(0, i as int)), a@, a_val@, b@, b_val@),
        decreases tokens@.len() - i,
    {
        let ghost pre = texts(tokens@.subrange(0, i as int));
        let ghost post = texts(tokens@.subrange(0, i + 1));
        assert(post.drop_last() =~= pre);
        assert(post.last() == tokens@[i as int]@);
        let t = &tokens[i];
        if *t == a_text {
            a_count = a_count + 1;
        }
        if *t == b_text {
            b_count = b_count + 1;
        }
        let piece = if *t == a_text {
            String::from_str(a_val)
        } else if *t == b_text {
            String::from_str(b_val)
        } else {
            t.clone()
        };
        let ghost old_out = out@;
        let ghost want = if tokens@[i as int]@ == a@ {
            a_val@
        } else if tokens@[i as int]@ == b@ {
            b_val@
        } else {
            tokens@[i as int]@
        };
        assert(piece@ == want);
        out.push(piece);
        assert(texts(out@) =~= texts(old_out).push(want));
        assert(filled(post, a@, a_val@, b@, b_val@) =~= filled(pre, a@, a_val@, b@, b_val@).push(
            want,
        ));
        i = i + 1;
    }
    assert(tokens@.subrange(0, tokens@.len() as int) =~= tokens@);
    if a_count == 1 && b_count == 1 {
        Some(out)
    } else {
        None
    }
}

/// The command that compiles `source` into `artifact` in the given language.
pub fn compile_command(language: &Language, source: &str, artifact: &str) -> (r: Option<Vec<String>>)
    ensures
        r is Some <==> (occurrences(texts(language.command@), "%INPUT%"@) == 1 && occurrences(
            texts(language.command@),
            "%OUTPUT%"@,
        ) == 1),
        r matches Some(v) ==> texts(v@) == filled(
            texts(language.command@),
            "%INPUT%"@,
            source@,
            "%OUTPUT%"@,
            artifact@,
        ),
{
    fill_template(&language.command, "%INPUT%", source, "%OUTPUT%", artifact)
}

/// The command that runs the problem's special judge on `output` against
/// `answer`.
pub fn special_judge_command(problem: &Problem, output: &str, answer: &str) -> (r: Option<
    Vec<String>,
>)
    ensures
        r is Some <==> (problem.misc.special_judge matches Some(c) && occurrences(
            texts(c@),
            "%OUTPUT%"@,
        ) == 1 && occurrences(texts(c@), "%ANSWER%"@) == 1),
        r matches Some(v) ==> problem.misc.special_judge matches Some(c) && texts(v@) == filled(
            texts(c@),
            "%OUTPUT%"@,
            output@,
            "%ANSWER%"@,
            answer@,
        ),
{
    match &problem.misc.special_judge {
        Some(c) => fill_template(c, "%OUTPUT%", output, "%ANSWER%", answer),
        None => None,
    }
}

/// The character of a decimal digit.
pub open spec fn digit_char(d: nat) -> char {
    if d == 0 {
        '0'
    } else if d == 1 {
        '1'
    } else if d == 2 {
        '2'
    } else if d == 3 {
        '3'
    } else if d == 4 {
        '4'
    } else if d == 5 {
        '5'
    } else if d == 6 {
        '6'
    } else if d == 7 {
        '7'
    } else if d == 8 {
        '8'
    } else {
        '9'
    }
}

/// The decimal digits of `n`.
pub open spec fn digits(n: nat) -> Seq<char>
    decreases n,
{
    if n < 10 {
        seq![digit_char(n)]
    } else {
        digits(n / 10).push(digit_char(n % 10))
    }
}

/// `n` written in decimal.
pub open spec fn decimal(n: int) -> Seq<char> {
    if n < 0 {
        seq!['-'] + digits((-n) as nat)
    } else {
        digits(n as nat)
    }
}

fn digit_text(d: u64) -> (r: &'static str)
    requires
        d < 10,
    ensures
        r@ == seq![digit_char(d as nat)],
{
    proof {
        reveal_strlit("0");
        reveal_strlit("1");
        reveal_strlit("2");
        reveal_strlit("3");
        reveal_strlit("4");
        reveal_strlit("5");
        reveal_strlit("6");
        reveal_strlit("7");
        reveal_strlit("8");
        reveal_strlit("9");
    }
    let r = if d == 0 {
        "0"
    } else if d == 1 {
        "1"
    } else if d == 2 {
        "2"
    } else if d == 3 {
        "3"
    } else if d == 4 {
        "4"
    } else if d == 5 {
        "5"
    } else if d == 6 {
        "6"
    } else if d == 7 {
        "7"
    } else if d == 8 {
        "8"
    } else {
        "9"
    };
    assert(r@ =~= seq![digit_char(d as nat)]);
    r
}

fn push_digits(out: &mut String, n: u64)
    ensures
        final(out)@ == old(out)@ + digits(n as nat),
    decreases n,
{
    if n >= 10 {
        push_digits(out, n / 10);
    }
    out.append(digit_text(n % 10));
    assert(old(out)@ + digits(n as nat) =~= if n >= 10 {
        (old(out)@ + digits((n / 10) as nat)).push(digit_char((n % 10) as nat))
    } else {
        old(out)@.push(digit_char(n as nat))
    });
}

/// `prefix` followed by `n` in decimal.
fn with_number(prefix: &str, n: i32) -> (r: String)
    ensures
        r@ == prefix@ + decimal(n as int),
{
    let mut out = String::from_str(prefix);
    if n < 0 {
        proof {
            reveal_strlit("-");
        }
        out.append("-");
        let m: u64 = (-(n as i64)) as u64;
        push_digits(&mut out, m);
        assert(prefix@ + decimal(n as int) =~= prefix@ + seq!['-'] + digits(m as nat));
    } else {
        push_digits(&mut out, n as u64);
    }
    out
}

/// The working directory of the judging of a problem.
pub fn work_dir(problem_id: i32) -> (r: String)
    ensures
        r@ == "./problem"@ + decimal(problem_id as int),
{
    with_number("./problem", problem_id)
}

/// Where the source of a submission is written.
pub fn source_path(dir: &str, file_name: &str) -> (r: String)
    ensures
        r@ == dir@ + "/"@ + file_name@,
{
    let mut out = String::from_str(dir);
    out.append("/");
    out.append(file_name);
    out
}

/// Where the compiled program of a user is put.
pub fn artifact_path(dir: &str, user_id: i32) -> (r: String)
    ensures
        r@ == dir@ + "/job_"@ + decimal(user_id as int),
{
    let mut out = String::from_str(dir);
    out.append("/job_");
    let r = with_number(out.as_str(), user_id);
    r
}

/// Where a program's output is written for the special judge.
pub fn judge_output_path(dir: &str) -> (r: String)
    ensures
        r@ == dir@ + "/output"@,
{
    let mut out = String::from_str(dir);
    out.append("/output");
    out
}

} // verus!
