//! What an authorization prints, and how it ends.

use vstd::prelude::*;
use vstd::string::*;

use crate::authorizer::Decision;
use crate::cli::args::AuthorizeArgs;
use crate::cli::digits::texts;
use crate::cli::timing::{timing_lines, timing_text, Timing};

verus! {

/// How the command ends.
#[derive(Debug, Clone, Copy, PartialEq, Eq, Structural)]
pub enum CedarExitCode {
    /// The request was decided, and allowed
    Success,
    /// The request could not be decided
    Failure,
    /// The request was decided, and denied
    AuthorizeDeny,
}

/// A decision with its diagnostics, in words.
#[derive(Debug)]
pub struct Response {
    /// Whether access is granted
    pub decision: Decision,
    /// The policies that the decision is due to
    pub reason: Vec<String>,
    /// The errors that were met on the way
    pub errors: Vec<String>,
}

/// What became of a request.
#[derive(Debug)]
pub enum Outcome {
    /// It was decided
    Decided {
        /// How
        response: Response,
        /// How long that took
        timing: Timing,
    },
    /// It was not, for these errors
    Failed(Vec<String>),
}

impl Outcome {
    /// The times are spans of time.
    pub open spec fn wf(&self) -> bool {
        self matches Outcome::Decided { timing, .. } ==> timing.wf()
    }
}

/// How the command ends after `outcome`.
pub open spec fn exit_code(outcome: Outcome) -> CedarExitCode {
    match outcome {
        Outcome::Decided { response, .. } => match response.decision {
            Decision::Allow => CedarExitCode::Success,
            Decision::Deny => CedarExitCode::AuthorizeDeny,
        },
        Outcome::Failed(_) => CedarExitCode::Failure,
    }
}

/// The decision in words.
pub open spec fn decision_text(decision: Decision) -> Seq<char> {
    match decision {
        Decision::Allow => "ALLOW"@,
        Decision::Deny => "DENY"@,
    }
}

/// The errors that were met, under an empty line, if there are any.
pub open spec fn errors_text(errors: Seq<Seq<char>>) -> Seq<Seq<char>> {
    if errors.len() == 0 {
        Seq::empty()
    } else {
        seq![""@] + errors
    }
}

/// The policies that the decision is due to, under an empty line.
pub open spec fn reason_text(reason: Seq<Seq<char>>) -> Seq<Seq<char>> {
    if reason.len() == 0 {
        seq![""@, "note: no policies applied to this request"@]
    } else {
        seq![""@, "note: this decision was due to the following policies:"@]
            + reason.map_values(|r: Seq<char>| "  "@ + r) + seq![""@]
    }
}

/// A decision in words.
pub open spec fn response_text(response: Response, verbose: bool) -> Seq<Seq<char>> {
    seq![decision_text(response.decision)] + errors_text(texts(response.errors@)) + if verbose {
        reason_text(texts(response.reason@))
    } else {
        Seq::empty()
    }
}

/// What is printed before the request is decided.
pub open spec fn opening_text() -> Seq<Seq<char>> {
    seq![""@]
}

/// What is printed after the request was decided.
pub open spec fn output_text(args: AuthorizeArgs, outcome: Outcome) -> Seq<Seq<char>> {
    match outcome {
        Outcome::Decided { response, timing } => (if args.timing {
            timing_text(timing)
        } else {
            Seq::empty()
        }) + response_text(response, args.verbose),
        Outcome::Failed(errors) => texts(errors@),
    }
}

/// Adds copies of `more` at the end of `lines`, each after `indent`.
fn add_lines(lines: &mut Vec<String>, indent: &str, more: &Vec<String>)
    ensures
        texts(final(lines)@) == texts(old(lines)@) + texts(more@).map_values(
            |line: Seq<char>| indent@ + line,
        ),
{
    let ghost before = texts(lines@);
    let mut i: usize = 0;
    while i < more.len()
        invariant
            i <= more@.len(),
            texts(lines@) == before + texts(more@).take(i as int).map_values(
                |line: Seq<char>| indent@ + line,
            ),
        decreases more@.len() - i,
    {
        let mut line = indent.to_owned();
        line.append(more[i].as_str());
        let ghost known = lines@;
        lines.push(line);
        proof {
            assert(texts(lines@) =~= texts(known).push(indent@ + more@[i as int]@));
            assert(texts(more@).take(i + 1) =~= texts(more@).take(i as int).push(
                more@[i as int]@,
            ));
            assert(texts(more@).take(i + 1).map_values(|line: Seq<char>| indent@ + line)
                =~= texts(more@).take(i as int).map_values(|line: Seq<char>| indent@ + line).push(
                indent@ + more@[i as int]@,
            ));
        }
        i += 1;
    }
    proof {
        assert(texts(more@).take(i as int) =~= texts(more@));
    }
}

/// Adds a copy of `line` at the end of `lines`.
fn add_line(lines: &mut Vec<String>, line: &str)
    ensures
        texts(final(lines)@) == texts(old(lines)@).push(line@),
{
    let ghost known = lines@;
    lines.push(line.to_owned());
    assert(texts(lines@) =~= texts(known).push(line@));
}

/// Adds copies of `more` at the end of `lines`.
fn add_all_lines(lines: &mut Vec<String>, more: &Vec<String>)
    ensures
        texts(final(lines)@) == texts(old(lines)@) + texts(more@),
{
    add_lines(lines, "", more);
    proof {
        reveal_strlit("");
        let plain = texts(more@).map_values(|line: Seq<char>| ""@ + line);
        assert forall|i: int| 0 <= i < plain.len() implies plain[i] == texts(more@)[i] by {
            assert(""@ + texts(more@)[i] =~= texts(more@)[i]);
        }
        assert(plain =~= texts(more@));
    }
}

/// A decision in words, at the end of `lines`.
fn add_response(lines: &mut Vec<String>, response: &Response, verbose: bool)
    ensures
        texts(final(lines)@) == texts(old(lines)@) + response_text(*response, verbose),
{
    let ghost before = texts(lines@);
    match response.decision {
        Decision::Allow => add_line(lines, "ALLOW"),
        Decision::Deny => add_line(lines, "DENY"),
    }
    if response.errors.len() > 0 {
        add_line(lines, "");
        add_all_lines(lines, &response.errors);
    }
    let ghost unexplained = texts(lines@);
    assert(unexplained =~= before + seq![decision_text(response.decision)] + errors_text(
        texts(response.errors@),
    ));
    if verbose {
        add_line(lines, "");
        if response.reason.len() == 0 {
            add_line(lines, "note: no policies applied to this request");
        } else {
            add_line(lines, "note: this decision was due to the following policies:");
            add_lines(lines, "  ", &response.reason);
            add_line(lines, "");
        }
        assert(texts(lines@) =~= unexplained + reason_text(texts(response.reason@)));
    }
    assert(texts(lines@) =~= before + response_text(*response, verbose));
}

/// What the command prints, line by line, before the request is decided: an empty
/// line.
pub fn opening_lines() -> (lines: Vec<String>)
    ensures
        texts(lines@) == opening_text(),
        lines@.len() == 1,
        lines@[0]@ == ""@,
{
    let mut lines: Vec<String> = Vec::new();
    add_line(&mut lines, "");
    assert(texts(lines@) =~= opening_text());
    assert(texts(lines@)[0] == lines@[0]@);
    lines
}

/// What the command prints, line by line, and how it ends, after `outcome`.
pub fn authorize(args: &AuthorizeArgs, outcome: &Outcome) -> (r: (CedarExitCode, Vec<String>))
    requires
        outcome.wf(),
    ensures
        r.0 == exit_code(*outcome),
        r.0 == CedarExitCode::Success <==> (outcome matches Outcome::Decided { response, .. }
            && response.decision == Decision::Allow),
        r.0 == CedarExitCode::AuthorizeDeny <==> (outcome matches Outcome::Decided { response, .. }
            && response.decision == Decision::Deny),
        r.0 == CedarExitCode::Failure <==> outcome is Failed,
        texts(r.1@) == output_text(*args, *outcome),
{
    let mut lines: Vec<String> = Vec::new();
    assert(texts(lines@) =~= Seq::empty());
    let code = match outcome {
        Outcome::Decided { response, timing } => {
            if args.timing {
                add_all_lines(&mut lines, &timing_lines(timing));
            }
            add_response(&mut lines, response, args.verbose);
            match response.decision {
                Decision::Allow => CedarExitCode::Success,
                Decision::Deny => CedarExitCode::AuthorizeDeny,
            }
        },
        Outcome::Failed(errors) => {
            add_all_lines(&mut lines, errors);
            CedarExitCode::Failure
        },
    };
    assert(texts(lines@) =~= output_text(*args, *outcome));
    (code, lines)
}

} // verus!
