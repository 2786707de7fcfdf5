use crate::text::{
    chars_of, is_white_space, law_lex_special_splits, lex, push_char, push_chars, split_tokens, views,
};
use vstd::prelude::*;

verus! {

/// The characters of `Success`.
pub open spec fn success_text() -> Seq<char> {
    seq!['S', 'u', 'c', 'c', 'e', 's', 's']
}

/// The characters of `UnknownError`.
pub open spec fn unknown_error_text() -> Seq<char> {
    seq!['U', 'n', 'k', 'n', 'o', 'w', 'n', 'E', 'r', 'r', 'o', 'r']
}

/// The characters of `error[`.
pub open spec fn error_marker() -> Seq<char> {
    seq!['e', 'r', 'r', 'o', 'r', '[']
}

/// The characters that stand as tokens of their own in a target line.
pub open spec fn line_specials() -> Seq<char> {
    seq!['=', ';', '{', '}', '(', ')', '.', ':', ',', '\'', '&', '!']
}

/// The characters that stand alone in a target line are exactly `= ; { } ( ) . : , ' & !`.
pub proof fn law_line_specials(c: char)
    ensures
        line_specials().contains(c) <==> (c == '=' || c == ';' || c == '{' || c == '}' || c == '(' || c == ')' || c == '.' || c == ':' || c == ',' || c == '\'' || c == '&' || c == '!'),
{
    let s = line_specials();
    if c == '=' || c == ';' || c == '{' || c == '}' || c == '(' || c == ')' || c == '.' || c == ':' || c == ',' || c == '\'' || c == '&' || c == '!' {
        let k = choose|k: int| 0 <= k < 12 && s[k] == c;
        assert(s[k] == c);
    }
    if s.contains(c) {
        let k = choose|k: int| 0 <= k < s.len() && s[k] == c;
    }
}

/// Each of `= ; { } ( ) . : , ' & !` in a target line is a token of its own: the tokens of
/// the line are those before it, the character alone, and those after it.
pub proof fn law_line_special_stands_alone(a: Seq<char>, c: char, b: Seq<char>)
    requires
        c == '=' || c == ';' || c == '{' || c == '}' || c == '(' || c == ')' || c == '.' || c == ':' || c == ',' || c == '\'' || c == '&' || c == '!',
        !is_white_space(c),
    ensures
        lex(a + seq![c] + b, line_specials()) == lex(a, line_specials()).push(seq![c]) + lex(b, line_specials()),
{
    law_line_specials(c);
    law_lex_special_splits(a, c, b, line_specials());
}

/// The outcome of a simulated compiler check: success when no error code is set (or the code
/// is `Success`), otherwise the code as the error.
pub fn mock_check_result(mock_error_code: &str) -> (r: Result<String, String>)
    ensures
        (mock_error_code@.len() == 0 || mock_error_code@ == success_text()) ==> (r matches Ok(s)
            && s@ == success_text()),
        !(mock_error_code@.len() == 0 || mock_error_code@ == success_text()) ==> (r matches Err(
            e,
        ) && e@ == mock_error_code@),
{
    let success = "Success".to_owned();
    proof {
        reveal_strlit("Success");
        assert(success@ =~= success_text());
    }
    let code = mock_error_code.to_owned();
    if code.as_str().is_empty() || code == success {
        Ok(success)
    } else {
        Err(code)
    }
}

/// `pat` occurs in `s` at position `i`.
pub open spec fn occurs_at(s: Seq<char>, pat: Seq<char>, i: int) -> bool {
    0 <= i && i + pat.len() <= s.len() && s.subrange(i, i + pat.len()) == pat
}

/// `i` is the first position at or after `from` where `pat` occurs in `s`.
pub open spec fn is_first_occurrence(s: Seq<char>, pat: Seq<char>, from: int, i: int) -> bool {
    &&& from <= i
    &&& occurs_at(s, pat, i)
    &&& forall|j: int| from <= j < i ==> !occurs_at(s, pat, j)
}

/// The error code of a compiler report: the text between the first `error[` and the first `]`
/// after it; `UnknownError` when there is none.
pub open spec fn error_code_of(s: Seq<char>) -> Seq<char> {
    if exists|i: int, j: int| is_first_occurrence(s, error_marker(), 0, i)
        && is_first_occurrence(s, seq![']'], i, j) {
        let (i, j) = choose|i: int, j: int| is_first_occurrence(s, error_marker(), 0, i)
            && is_first_occurrence(s, seq![']'], i, j);
        s.subrange(i + 6, j)
    } else {
        unknown_error_text()
    }
}

/// The first position at or after `from` where `pat` occurs in `cs`, if any.
fn find_from(cs: &Vec<char>, pat: &Vec<char>, from: usize) -> (r: Option<usize>)
    requires
        from <= cs@.len(),
        pat@.len() > 0,
    ensures
        r matches Some(i) ==> is_first_occurrence(cs@, pat@, from as int, i as int),
        r is None ==> forall|j: int| from <= j ==> !occurs_at(cs@, pat@, j),
{
    let n = cs.len();
    let m = pat.len();
    if m > n {
        return None;
    }
    let mut i = from;
    while i <= n - m
        invariant
            from <= i,
            i <= n,
            n == cs@.len(),
            m == pat@.len(),
            m <= n,
            forall|j: int| from <= j < i ==> !occurs_at(cs@, pat@, j),
        decreases n - i,
    {
        let mut k: usize = 0;
        let mut same = true;
        while k < m && same
            invariant
                0 <= k <= m,
                i + m <= n,
                n == cs@.len(),
                m == pat@.len(),
                same ==> forall|q: int| 0 <= q < k ==> cs@[i + q] == pat@[q],
                !same ==> k > 0 && cs@[i + k - 1] != pat@[k - 1],
            decreases m - k,
        {
            if cs[i + k] != pat[k] {
                same = false;
            }
            k = k + 1;
        }
        if same {
            assert(cs@.subrange(i as int, i + m) =~= pat@);
            return Some(i);
        }
        assert(!occurs_at(cs@, pat@, i as int)) by {
            if occurs_at(cs@, pat@, i as int) {
                assert(cs@.subrange(i as int, i + m)[k - 1] == cs@[i + k - 1]);
            }
        }
        i = i + 1;
    }
    None
}

/// A string holding exactly the characters `cs[from..to]`.
fn string_of_range(cs: &Vec<char>, from: usize, to: usize) -> (s: String)
    requires
        from <= to <= cs@.len(),
    ensures
        s@ == cs@.subrange(from as int, to as int),
{
    let mut s = String::new();
    let mut i = from;
    while i < to
        invariant
            from <= i <= to,
            to <= cs@.len(),
            s@ == cs@.subrange(from as int, i as int),
        decreases to - i,
    {
        push_char(&mut s, cs[i]);
        assert(cs@.subrange(from as int, i + 1) =~= cs@.subrange(from as int, i as int).push(cs@[i as int]));
        i = i + 1;
    }
    s
}

/// The error code of a compiler report (see `error_code_of`).
pub fn compiler_error_code(stderr: &str) -> (code: String)
    ensures
        code@ == error_code_of(stderr@),
{
    let cs = chars_of(stderr);
    let marker = chars_of("error[");
    let close = chars_of("]");
    proof {
        reveal_strlit("error[");
        reveal_strlit("]");
        assert(marker@ =~= error_marker());
        assert(close@ =~= seq![']']);
    }
    match find_from(&cs, &marker, 0) {
        Some(i) => {
            match find_from(&cs, &close, i) {
                Some(j) => {
                    proof {
                        assert(is_first_occurrence(cs@, error_marker(), 0, i as int));
                        assert(is_first_occurrence(cs@, seq![']'], i as int, j as int));
                        let (i2, j2) = choose|i2: int, j2: int| is_first_occurrence(cs@, error_marker(), 0, i2)
                            && is_first_occurrence(cs@, seq![']'], i2, j2);
                        lemma_first_occurrence_unique(cs@, error_marker(), 0, i as int, i2);
                        lemma_first_occurrence_unique(cs@, seq![']'], i as int, j as int, j2);
                        // `error[` holds no `]`, so the `]` lies after the marker.
                        if j < i + 6 {
                            assert(cs@.subrange(i as int, i + 6)[j - i] == cs@[j as int]);
                            assert(cs@.subrange(j as int, j + 1)[0] == cs@[j as int]);
                        }
                    }
                    string_of_range(&cs, i + 6, j)
                },
                None => {
                    let u = "UnknownError".to_owned();
                    proof {
                        reveal_strlit("UnknownError");
                        assert(u@ =~= unknown_error_text());
                        assert(!exists|i2: int, j2: int| is_first_occurrence(cs@, error_marker(), 0, i2)
                            && is_first_occurrence(cs@, seq![']'], i2, j2)) by {
                            if exists|i2: int, j2: int| is_first_occurrence(cs@, error_marker(), 0, i2)
                                && is_first_occurrence(cs@, seq![']'], i2, j2) {
                                let (i2, j2) = choose|i2: int, j2: int| is_first_occurrence(cs@, error_marker(), 0, i2)
                                    && is_first_occurrence(cs@, seq![']'], i2, j2);
                                lemma_first_occurrence_unique(cs@, error_marker(), 0, i as int, i2);
                                assert(occurs_at(cs@, seq![']'], j2));
                            }
                        }
                    }
                    u
                },
            }
        },
        None => {
            let u = "UnknownError".to_owned();
            proof {
                reveal_strlit("UnknownError");
                assert(u@ =~= unknown_error_text());
            }
            u
        },
    }
}

/// The first position of an occurrence is unique.
proof fn lemma_first_occurrence_unique(s: Seq<char>, pat: Seq<char>, from: int, i: int, j: int)
    requires
        is_first_occurrence(s, pat, from, i),
        is_first_occurrence(s, pat, from, j),
    ensures
        i == j,
{
}

/// The characters that stand as tokens of their own in a target line.
pub fn line_special_chars() -> (v: Vec<char>)
    ensures
        v@ == line_specials(),
{
    let v = vec!['=', ';', '{', '}', '(', ')', '.', ':', ',', '\'', '&', '!'];
    assert(v@ =~= line_specials());
    v
}

/// The context of a compiler error: the error code, then the tokens of the line.
pub fn context_tokens(error_code: &str, found_line: &str) -> (tokens: Vec<String>)
    ensures
        views(tokens@) == seq![error_code@] + lex(found_line@, line_specials()),
{
    let specials = line_special_chars();
    let rest = split_tokens(found_line, specials.as_slice());
    let mut tokens: Vec<String> = Vec::new();
    tokens.push(error_code.to_owned());
    let mut i: usize = 0;
    while i < rest.len()
        invariant
            0 <= i <= rest@.len(),
            views(tokens@) == seq![error_code@] + views(rest@).take(i as int),
        decreases rest@.len() - i,
    {
        let t = rest[i].clone();
        assert(t@ == rest@[i as int]@);
        let ghost before = tokens@;
        tokens.push(t);
        assert(tokens@ == before.push(t));
        assert(views(tokens@) =~= views(before).push(t@));
        assert(views(rest@).take(i + 1) =~= views(rest@).take(i as int).push(t@));
        assert(views(tokens@) =~= seq![error_code@] + views(rest@).take(i + 1));
        i = i + 1;
    }
    assert(views(rest@).take(rest@.len() as int) =~= views(rest@));
    tokens
}

/// The words of `ws` joined by single spaces.
pub open spec fn joined(ws: Seq<Seq<char>>) -> Seq<char>
    decreases ws.len(),
{
    if ws.len() == 0 {
        Seq::empty()
    } else if ws.len() == 1 {
        ws[0]
    } else {
        joined(ws.drop_last()) + seq![' '] + ws.last()
    }
}

/// The words of `tokens` joined by single spaces.
pub fn join_tokens(tokens: &Vec<String>) -> (s: String)
    ensures
        s@ == joined(views(tokens@)),
{
    let mut s = String::new();
    let mut i: usize = 0;
    while i < tokens.len()
        invariant
            0 <= i <= tokens@.len(),
            s@ == joined(views(tokens@).take(i as int)),
        decreases tokens@.len() - i,
    {
        assert(views(tokens@).take(i + 1).drop_last() =~= views(tokens@).take(i as int));
        if i > 0 {
            push_char(&mut s, ' ');
        }
        push_chars(&mut s, tokens[i].as_str());
        proof {
            if i == 0 {
                assert(s@ =~= joined(views(tokens@).take(1)));
            }
        }
        i = i + 1;
    }
    assert(views(tokens@).take(tokens@.len() as int) =~= views(tokens@));
    s
}

/// Where the adaptation of the target line stands.  The line is always put to the network:
/// with the error code first when the project fails, alone when it compiles.  The network's
/// hypothesis is kept when the project then compiles with it; otherwise the line found is
/// written back.
pub enum AdaptState {
    /// The first compiler check is running.
    AwaitFirstCheck,
    /// The code compiled; the target line is being read.
    AwaitCleanLine,
    /// The code failed with `error_code`; the target line is being read.
    AwaitBrokenLine { error_code: String },
    /// The context (error code, if any, and the line's tokens) is being fed to the network.
    AwaitInjection { found_line: String, context: Vec<String> },
    /// The network is generating a hypothesis.
    AwaitHypothesis { found_line: String },
    /// The hypothesis is being written over the line found.
    AwaitWrite { found_line: String, hypothesis: String },
    /// The compiler checks the hypothesis.
    AwaitRecheck { found_line: String, hypothesis: String },
    /// The network is being rewarded (or punished) for the hypothesis.
    AwaitApproval { found_line: String, hypothesis: String, success: bool },
    /// The line found is being written back.
    AwaitRestore { found_line: String },
    /// The repair is over.
    Finished,
}

/// What the outside world reports back.
pub enum AdaptEvent {
    /// A compiler check ended: `Ok` on success, `Err` with the error code.
    Checked(Result<String, String>),
    /// The first line of the target file.
    LineRead(String),
    /// The network produced these tokens.
    Generated(Vec<String>),
    /// The requested work is done.
    Done,
}

/// What the outside world must do next.
pub enum AdaptAction {
    RunCheck,
    ReadTargetLine,
    /// Feed each token to the network.
    InjectContext(Vec<String>),
    /// Ask the network for a trail from `start_token`, in this context.
    GenerateHypothesis { start_token: String, context: Vec<String> },
    /// Write this line over the target line.
    ApplyHypothesis(String),
    /// Reward (`true`) or punish (`false`) the network.
    ApproveSuccess(bool),
    /// The repair is over, with this line in place.
    Finish(String),
    /// The event did not fit the state; nothing to do.
    Ignore,
}

/// The characters of `let`.
pub open spec fn let_text() -> Seq<char> {
    seq!['l', 'e', 't']
}

/// The repair begins with a compiler check.
pub fn adapt_start() -> (r: (AdaptState, AdaptAction))
    ensures
        r.0 is AwaitFirstCheck,
        r.1 is RunCheck,
{
    (AdaptState::AwaitFirstCheck, AdaptAction::RunCheck)
}

/// The next state and action of the adaptation of the target line, given the last event.
pub fn adapt_step(state: AdaptState, event: AdaptEvent) -> (r: (AdaptState, AdaptAction))
    ensures
        match (state, event) {
            (AdaptState::AwaitFirstCheck, AdaptEvent::Checked(Ok(_))) => r.0 is AwaitCleanLine
                && r.1 is ReadTargetLine,
            (AdaptState::AwaitFirstCheck, AdaptEvent::Checked(Err(code))) => (r.0 matches AdaptState::AwaitBrokenLine { error_code }
                && error_code@ == code@) && r.1 is ReadTargetLine,
            (AdaptState::AwaitCleanLine, AdaptEvent::LineRead(line)) => {
                let ctx = lex(line@, line_specials());
                &&& r.0 matches AdaptState::AwaitInjection { found_line, context }
                    && found_line@ == line@ && views(context@) == ctx
                &&& r.1 matches AdaptAction::InjectContext(c) && views(c@) == ctx
            },
            (AdaptState::AwaitBrokenLine { error_code }, AdaptEvent::LineRead(line)) => {
                let ctx = seq![error_code@] + lex(line@, line_specials());
                &&& r.0 matches AdaptState::AwaitInjection { found_line, context }
                    && found_line@ == line@ && views(context@) == ctx
                &&& r.1 matches AdaptAction::InjectContext(c) && views(c@) == ctx
            },
            (AdaptState::AwaitInjection { found_line, context }, AdaptEvent::Done) => {
                &&& r.0 matches AdaptState::AwaitHypothesis { found_line: b } && b@ == found_line@
                &&& r.1 matches AdaptAction::GenerateHypothesis { start_token, context: c }
                    && start_token@ == let_text() && views(c@) == views(context@)
            },
            (AdaptState::AwaitHypothesis { found_line }, AdaptEvent::Generated(tokens)) => {
                &&& r.0 matches AdaptState::AwaitWrite { found_line: b, hypothesis }
                    && b@ == found_line@ && hypothesis@ == joined(views(tokens@))
                &&& r.1 matches AdaptAction::ApplyHypothesis(h) && h@ == joined(views(tokens@))
            },
            (AdaptState::AwaitWrite { found_line, hypothesis }, AdaptEvent::Done) => {
                &&& r.0 matches AdaptState::AwaitRecheck { found_line: b, hypothesis: h }
                    && b@ == found_line@ && h@ == hypothesis@
                &&& r.1 is RunCheck
            },
            (AdaptState::AwaitRecheck { found_line, hypothesis }, AdaptEvent::Checked(res)) => {
                &&& r.0 matches AdaptState::AwaitApproval { found_line: b, hypothesis: h, success }
                    && b@ == found_line@ && h@ == hypothesis@ && success == res is Ok
                &&& r.1 matches AdaptAction::ApproveSuccess(ok) && ok == res is Ok
            },
            (AdaptState::AwaitApproval { found_line, hypothesis, success }, AdaptEvent::Done) => {
                if success {
                    r.0 is Finished && (r.1 matches AdaptAction::Finish(l) && l@ == hypothesis@)
                } else {
                    (r.0 matches AdaptState::AwaitRestore { found_line: b } && b@ == found_line@)
                        && (r.1 matches AdaptAction::ApplyHypothesis(l) && l@ == found_line@)
                }
            },
            (AdaptState::AwaitRestore { found_line }, AdaptEvent::Done) => r.0 is Finished && (
            r.1 matches AdaptAction::Finish(l) && l@ == found_line@),
            _ => r.1 is Ignore && r.0 == state,
        },
{
    match (state, event) {
        (AdaptState::AwaitFirstCheck, AdaptEvent::Checked(Ok(_))) => {
            (AdaptState::AwaitCleanLine, AdaptAction::ReadTargetLine)
        },
        (AdaptState::AwaitFirstCheck, AdaptEvent::Checked(Err(code))) => {
            (AdaptState::AwaitBrokenLine { error_code: code }, AdaptAction::ReadTargetLine)
        },
        (AdaptState::AwaitCleanLine, AdaptEvent::LineRead(line)) => {
            let specials = line_special_chars();
            let context = split_tokens(line.as_str(), specials.as_slice());
            let action = AdaptAction::InjectContext(clone_strings(&context));
            (AdaptState::AwaitInjection { found_line: line, context }, action)
        },
        (AdaptState::AwaitBrokenLine { error_code }, AdaptEvent::LineRead(line)) => {
            let context = context_tokens(error_code.as_str(), line.as_str());
            let action = AdaptAction::InjectContext(clone_strings(&context));
            (AdaptState::AwaitInjection { found_line: line, context }, action)
        },
        (AdaptState::AwaitInjection { found_line, context }, AdaptEvent::Done) => {
            let start_token = "let".to_owned();
            proof {
                reveal_strlit("let");
                assert(start_token@ =~= let_text());
            }
            (
                AdaptState::AwaitHypothesis { found_line },
                AdaptAction::GenerateHypothesis { start_token, context },
            )
        },
        (AdaptState::AwaitHypothesis { found_line }, AdaptEvent::Generated(tokens)) => {
            let hypothesis = join_tokens(&tokens);
            let action = AdaptAction::ApplyHypothesis(hypothesis.clone());
            (AdaptState::AwaitWrite { found_line, hypothesis }, action)
        },
        (AdaptState::AwaitWrite { found_line, hypothesis }, AdaptEvent::Done) => {
            (AdaptState::AwaitRecheck { found_line, hypothesis }, AdaptAction::RunCheck)
        },
        (AdaptState::AwaitRecheck { found_line, hypothesis }, AdaptEvent::Checked(res)) => {
            let success = res.is_ok();
            (
                AdaptState::AwaitApproval { found_line, hypothesis, success },
                AdaptAction::ApproveSuccess(success),
            )
        },
        (AdaptState::AwaitApproval { found_line, hypothesis, success }, AdaptEvent::Done) => {
            if success {
                (AdaptState::Finished, AdaptAction::Finish(hypothesis))
            } else {
                let restore = found_line.clone();
                (AdaptState::AwaitRestore { found_line }, AdaptAction::ApplyHypothesis(restore))
            }
        },
        (AdaptState::AwaitRestore { found_line }, AdaptEvent::Done) => {
            (AdaptState::Finished, AdaptAction::Finish(found_line))
        },
        (state, _) => (state, AdaptAction::Ignore),
    }
}

/// A copy of `v`, string by string.
pub fn clone_strings(v: &Vec<String>) -> (c: Vec<String>)
    ensures
        views(c@) == views(v@),
{
    let mut c: Vec<String> = Vec::new();
    let mut i: usize = 0;
    while i < v.len()
        invariant
            0 <= i <= v@.len(),
            views(c@) == views(v@).take(i as int),
        decreases v@.len() - i,
    {
        let t = v[i].clone();
        assert(t@ == v@[i as int]@);
        let ghost before = c@;
        c.push(t);
        assert(views(c@) =~= views(before).push(t@));
        assert(views(v@).take(i + 1) =~= views(v@).take(i as int).push(t@));
        assert(views(c@) =~= views(v@).take(i + 1));
        i = i + 1;
    }
    assert(views(v@).take(v@.len() as int) =~= views(v@));
    c
}

} // verus!
