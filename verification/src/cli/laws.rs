//! What the command line does, in terms of what it is given: how it ends, what it
//! prints, where trees are kept, and which errors it reports.

use vstd::prelude::*;

use crate::authorizer::Decision;
use crate::cli::args::{AuthorizeArgs, PolicyFormat};
use crate::cli::authorize::{
    decision_text, exit_code, opening_text, output_text, CedarExitCode, Outcome, Response,
};
use crate::cli::cache::{
    cache_directory, cache_name, format_tag, hash_or_zero, lemma_name_parts, names_tell_trees_apart,
    SourceHashes,
};
use crate::cli::digits::{
    decimal, digit, hexadecimal, hexadecimal_range, lemma_hexadecimal_len, texts,
};
use crate::cli::execute::{errors_view, load_errors, LoadError};
use crate::cli::timing::{time_line, timing_text, Timing};

verus! {

/// The command ends with success exactly if the request was decided and is allowed,
/// with a denial exactly if it was decided and is denied, and with a failure exactly
/// if it was not decided.
pub proof fn ends_by_the_decision(outcome: Outcome)
    ensures
        exit_code(outcome) == CedarExitCode::Success <==> (outcome matches Outcome::Decided {
            response,
            ..
        } && response.decision == Decision::Allow),
        exit_code(outcome) == CedarExitCode::AuthorizeDeny <==> (outcome matches Outcome::Decided {
            response,
            ..
        } && response.decision == Decision::Deny),
        exit_code(outcome) == CedarExitCode::Failure <==> outcome is Failed,
{
}

/// Only the decision has a part in how the command ends: not the timing, the errors
/// or the reasons.
pub proof fn ends_alike_on_one_decision(a: Response, s: Timing, b: Response, t: Timing)
    requires
        a.decision == b.decision,
    ensures
        exit_code(Outcome::Decided { response: a, timing: s }) == exit_code(
            Outcome::Decided { response: b, timing: t },
        ),
{
}

/// The value of a character as a digit; sixteen, if it is none.
pub open spec fn digit_value(c: char) -> nat {
    if '0' <= c && c <= '9' {
        (c as int - '0' as int) as nat
    } else if 'a' <= c && c <= 'f' {
        (c as int - 'a' as int + 10) as nat
    } else {
        16
    }
}

/// The number that a list of digits stands for.
pub open spec fn number(s: Seq<char>, base: nat) -> nat
    decreases s.len(),
{
    if s.len() == 0 {
        0
    } else {
        number(s.drop_last(), base) * base + digit_value(s.last())
    }
}

/// Whether all characters are digits of the base.
pub open spec fn are_digits(s: Seq<char>, base: nat) -> bool {
    forall|i: int| 0 <= i < s.len() ==> digit_value(#[trigger] s[i]) < base
}

proof fn lemma_digit_value(d: nat)
    requires
        d < 16,
    ensures
        digit_value(digit(d)) == d,
{
    reveal_strlit("0123456789abcdef");
}

/// Decimal digits stand for the number that they are of, without a leading zero.
pub proof fn decimal_digits_stand_for_the_number(n: nat)
    ensures
        number(decimal(n), 10) == n,
        are_digits(decimal(n), 10),
        decimal(n).len() > 0,
        decimal(n).len() > 1 ==> digit_value(decimal(n)[0]) > 0,
        n > 0 ==> digit_value(decimal(n)[0]) > 0,
    decreases n,
{
    if n < 10 {
        lemma_digit_value(n);
        reveal_with_fuel(number, 2);
        assert(decimal(n).drop_last() =~= Seq::empty());
    } else {
        decimal_digits_stand_for_the_number(n / 10);
        lemma_digit_value(n % 10);
        let front = decimal(n / 10);
        assert(decimal(n).drop_last() =~= front);
        assert(decimal(n).last() == digit(n % 10));
        assert(decimal(n)[0] == front[0]);
        assert forall|i: int| 0 <= i < decimal(n).len() implies digit_value(
            #[trigger] decimal(n)[i],
        ) < 10 by {
            if i < front.len() {
                assert(decimal(n)[i] == front[i]);
            }
        }
    }
}

/// Hexadecimal digits of a number that fits stand for it, with leading zeros.
pub proof fn hexadecimal_digits_stand_for_the_number(n: nat, width: nat)
    requires
        n < hexadecimal_range(width),
    ensures
        number(hexadecimal(n, width), 16) == n,
        are_digits(hexadecimal(n, width), 16),
        hexadecimal(n, width).len() == width,
    decreases width,
{
    lemma_hexadecimal_len(n, width);
    if width > 0 {
        let w = (width - 1) as nat;
        hexadecimal_digits_stand_for_the_number(n / 16, w);
        lemma_digit_value(n % 16);
        let front = hexadecimal(n / 16, w);
        assert(hexadecimal(n, width).drop_last() =~= front);
        assert(hexadecimal(n, width).last() == digit(n % 16));
        assert forall|i: int| 0 <= i < width implies digit_value(
            #[trigger] hexadecimal(n, width)[i],
        ) < 16 by {
            if i < front.len() {
                assert(hexadecimal(n, width)[i] == front[i]);
            }
        }
    }
}

/// Whether `s` is the sixteen hexadecimal digits of the hash.
pub open spec fn is_hash(s: Seq<char>, hash: u64) -> bool {
    s.len() == 16 && are_digits(s, 16) && number(s, 16) == hash
}

/// The hash of contents stands in a name unchanged, and zero for what has no
/// contents.
pub open spec fn is_hash_of(s: Seq<char>, contents: Option<u64>) -> bool {
    match contents {
        Some(hash) => is_hash(s, hash),
        None => is_hash(s, 0),
    }
}

/// The hashes in a name, for sources whose contents have the given hashes.
pub open spec fn hashes_of(
    policies: Option<u64>,
    entities: Option<u64>,
    schema: Option<u64>,
    template_links: Option<u64>,
) -> SourceHashes {
    SourceHashes {
        policies: hash_or_zero(policies),
        entities: hash_or_zero(entities),
        schema: hash_or_zero(schema),
        template_links: hash_or_zero(template_links),
    }
}

/// The path of a kept tree is `target/.cedar/poltree-cache/` and a name that is made
/// of the version, the format of the policies, and the hashes of the contents of all
/// four sources.
pub proof fn path_is_made_of_contents(
    policy_format: PolicyFormat,
    policies: Option<u64>,
    entities: Option<u64>,
    schema: Option<u64>,
    template_links: Option<u64>,
    path: Seq<String>,
)
    requires
        texts(path) == cache_directory().push(
            cache_name(policy_format, hashes_of(policies, entities, schema, template_links)),
        ),
    ensures
        path.len() == 4,
        path[0]@ == "target"@,
        path[1]@ == ".cedar"@,
        path[2]@ == "poltree-cache"@,
        path[3]@.len() == 78,
        path[3]@.take(5) == "v1_pf"@,
        path[3]@[5] == if policy_format is Cedar {
            '1'
        } else {
            '2'
        },
        path[3]@[6] == '_',
        is_hash_of(path[3]@.subrange(7, 23), policies),
        path[3]@[23] == '_',
        is_hash_of(path[3]@.subrange(24, 40), entities),
        path[3]@[40] == '_',
        is_hash_of(path[3]@.subrange(41, 57), schema),
        path[3]@[57] == '_',
        is_hash_of(path[3]@.subrange(58, 74), template_links),
        path[3]@.skip(74) == ".bin"@,
{
    let hashes = hashes_of(policies, entities, schema, template_links);
    let name = cache_name(policy_format, hashes);
    assert(texts(path).len() == path.len());
    assert(texts(path)[0] == path[0]@);
    assert(texts(path)[1] == path[1]@);
    assert(texts(path)[2] == path[2]@);
    assert(texts(path)[3] == path[3]@);
    assert(path[3]@ == name);
    lemma_name_parts(policy_format, hashes);
    assert(u64::MAX < hexadecimal_range(16)) by {
        reveal_with_fuel(hexadecimal_range, 17);
    }
    hexadecimal_digits_stand_for_the_number(hashes.policies as nat, 16);
    hexadecimal_digits_stand_for_the_number(hashes.entities as nat, 16);
    hexadecimal_digits_stand_for_the_number(hashes.schema as nat, 16);
    hexadecimal_digits_stand_for_the_number(hashes.template_links as nat, 16);
    reveal_strlit("0123456789abcdef");
    reveal_strlit("v");
    reveal_strlit("_pf");
    reveal_strlit("_");
    reveal_strlit(".bin");
    reveal_strlit("v1_pf");
    assert(decimal(1) =~= seq!['1']);
    assert(decimal(2) =~= seq!['2']);
    assert(name.take(5) =~= "v1_pf"@);
    assert(name.skip(74) =~= ".bin"@);
}

/// Whether two sources cannot be told apart: their contents have one hash, where a
/// source without contents counts as one of hash zero.
pub open spec fn one_hash(a: Option<u64>, b: Option<u64>) -> bool {
    ||| a == b
    ||| (a is None || a == Some(0u64)) && (b is None || b == Some(0u64))
}

/// Trees built from different contents are kept under different paths: where the
/// paths agree, so do the formats and the hashes of the contents of all sources.
pub proof fn paths_tell_contents_apart(
    f: PolicyFormat,
    a: (Option<u64>, Option<u64>, Option<u64>, Option<u64>),
    g: PolicyFormat,
    b: (Option<u64>, Option<u64>, Option<u64>, Option<u64>),
)
    requires
        cache_directory().push(cache_name(f, hashes_of(a.0, a.1, a.2, a.3)))
            == cache_directory().push(cache_name(g, hashes_of(b.0, b.1, b.2, b.3))),
    ensures
        f == g,
        one_hash(a.0, b.0),
        one_hash(a.1, b.1),
        one_hash(a.2, b.2),
        one_hash(a.3, b.3),
{
    let x = cache_directory().push(cache_name(f, hashes_of(a.0, a.1, a.2, a.3)));
    let y = cache_directory().push(cache_name(g, hashes_of(b.0, b.1, b.2, b.3)));
    assert(x.last() == y.last());
    names_tell_trees_apart(f, hashes_of(a.0, a.1, a.2, a.3), g, hashes_of(b.0, b.1, b.2, b.3));
}

/// The policy formats have the tags one and two.
pub proof fn formats_have_their_tags()
    ensures
        format_tag(PolicyFormat::Cedar) == 1,
        format_tag(PolicyFormat::Json) == 2,
{
}

/// Whether `line` is a label and a time in whole microseconds, in decimal digits.
pub open spec fn tells_time(line: Seq<char>, label: Seq<char>, nanos: nat) -> bool {
    let digits = line.skip(label.len() as int);
    &&& label.is_prefix_of(line)
    &&& digits.len() > 0
    &&& are_digits(digits, 10)
    &&& digits.len() > 1 ==> digit_value(digits[0]) > 0
    &&& 1000 * number(digits, 10) <= nanos < 1000 * number(digits, 10) + 1000
}

proof fn lemma_tells_time(label: Seq<char>, nanos: nat)
    ensures
        tells_time(time_line(label, nanos), label, nanos),
{
    let line = time_line(label, nanos);
    decimal_digits_stand_for_the_number(nanos / 1000);
    assert(line.skip(label.len() as int) =~= decimal(nanos / 1000));
    assert(line.take(label.len() as int) =~= label);
}

/// How many lines tell how long a decision took.
pub open spec fn timing_len(timing: Timing) -> int {
    match timing {
        Timing::Engine { .. } => 1,
        Timing::LoadedTree { .. } => 5,
        Timing::BuiltTree { .. } => 3,
    }
}

/// What the timing lines tell: for a tree that was loaded, the time to read it, the
/// time to decode it, that it was loaded, both times together, and the time to
/// decide; for one that was built, that it was not loaded, the time to build it and
/// the time to decide; and for the engine, the time it took.
pub proof fn timing_lines_tell_times(timing: Timing, lines: Seq<String>)
    requires
        texts(lines) == timing_text(timing),
    ensures
        lines.len() == timing_len(timing),
        timing matches Timing::Engine { nanos } ==> tells_time(
            lines[0]@,
            "Authorization Time (micro seconds) : "@,
            nanos as nat,
        ),
        timing matches Timing::LoadedTree { read, decode, evaluation } ==> {
            &&& tells_time(lines[0]@, "Cache read (micro seconds) : "@, read as nat)
            &&& tells_time(lines[1]@, "Cache deserialize (micro seconds) : "@, decode as nat)
            &&& lines[2]@ == "Tree Cache Hit               : true"@
            &&& tells_time(
                lines[3]@,
                "Tree Load Time (micro seconds) : "@,
                (read + decode) as nat,
            )
            &&& tells_time(
                lines[4]@,
                "Tree Evaluation Time (micro seconds) : "@,
                evaluation as nat,
            )
        },
        timing matches Timing::BuiltTree { build, evaluation } ==> {
            &&& lines[0]@ == "Tree Cache Hit               : false"@
            &&& tells_time(lines[1]@, "Tree Build Time (micro seconds) : "@, build as nat)
            &&& tells_time(
                lines[2]@,
                "Tree Evaluation Time (micro seconds) : "@,
                evaluation as nat,
            )
        },
{
    assert(texts(lines).len() == lines.len());
    assert forall|i: int| 0 <= i < lines.len() implies #[trigger] texts(lines)[i] == lines[i]@ by {}
    match timing {
        Timing::Engine { nanos } => {
            lemma_tells_time("Authorization Time (micro seconds) : "@, nanos as nat);
            assert(texts(lines)[0] == lines[0]@);
        },
        Timing::LoadedTree { read, decode, evaluation } => {
            lemma_tells_time("Cache read (micro seconds) : "@, read as nat);
            lemma_tells_time("Cache deserialize (micro seconds) : "@, decode as nat);
            lemma_tells_time("Tree Load Time (micro seconds) : "@, (read + decode) as nat);
            lemma_tells_time("Tree Evaluation Time (micro seconds) : "@, evaluation as nat);
            assert(texts(lines)[0] == lines[0]@);
            assert(texts(lines)[1] == lines[1]@);
            assert(texts(lines)[2] == lines[2]@);
            assert(texts(lines)[3] == lines[3]@);
            assert(texts(lines)[4] == lines[4]@);
        },
        Timing::BuiltTree { build, evaluation } => {
            lemma_tells_time("Tree Build Time (micro seconds) : "@, build as nat);
            lemma_tells_time("Tree Evaluation Time (micro seconds) : "@, evaluation as nat);
            assert(texts(lines)[0] == lines[0]@);
            assert(texts(lines)[1] == lines[1]@);
            assert(texts(lines)[2] == lines[2]@);
        },
    }
}

/// What is printed of a decision, line by line: the times if they are asked for, the
/// decision, the errors under an empty line if there are any, and, if that is asked
/// for, the reasons under an empty line, or that there are none.
pub proof fn prints_decision_errors_and_reasons(
    args: AuthorizeArgs,
    response: Response,
    timing: Timing,
    lines: Seq<String>,
)
    requires
        texts(lines) == output_text(args, Outcome::Decided { response, timing }),
    ensures
        ({
            let errors = response.errors@;
            let reason = response.reason@;
            let t = if args.timing {
                timing_len(timing)
            } else {
                0
            };
            let b = t + 1 + if errors.len() > 0 {
                errors.len() + 1
            } else {
                0
            };
            &&& lines.len() >= b
            &&& args.timing ==> texts(lines.take(t)) == timing_text(timing)
            &&& lines[t]@ == if response.decision == Decision::Allow {
                "ALLOW"@
            } else {
                "DENY"@
            }
            &&& errors.len() > 0 ==> lines[t + 1]@ == ""@
            &&& forall|i: int|
                0 <= i < errors.len() ==> lines[t + 2 + i]@ == (#[trigger] errors[i])@
            &&& !args.verbose ==> lines.len() == b
            &&& args.verbose ==> lines.len() >= b + 2 && lines[b]@ == ""@
            &&& args.verbose && reason.len() == 0 ==> {
                &&& lines.len() == b + 2
                &&& lines[b + 1]@ == "note: no policies applied to this request"@
            }
            &&& args.verbose && reason.len() > 0 ==> {
                &&& lines.len() == b + 3 + reason.len()
                &&& lines[b + 1]@ == "note: this decision was due to the following policies:"@
                &&& forall|i: int|
                    0 <= i < reason.len() ==> lines[b + 2 + i]@ == "  "@ + (
                    #[trigger] reason[i])@
                &&& lines.last()@ == ""@
            }
        }),
{
    let errors = response.errors@;
    let reason = response.reason@;
    let all = texts(lines);
    let t: int = if args.timing {
        timing_len(timing)
    } else {
        0
    };
    let b = t + 1 + if errors.len() > 0 {
        errors.len() + 1
    } else {
        0
    };
    assert(timing_text(timing).len() == timing_len(timing));
    assert(all.len() == lines.len());
    assert forall|i: int| 0 <= i < lines.len() implies #[trigger] all[i] == lines[i]@ by {}
    assert(texts(errors).len() == errors.len());
    assert(texts(reason).len() == reason.len());
    if args.timing {
        assert(texts(lines.take(t)) =~= timing_text(timing)) by {
            assert forall|i: int| 0 <= i < t implies texts(lines.take(t))[i] == timing_text(
                timing,
            )[i] by {
                assert(all[i] == timing_text(timing)[i]);
                assert(lines.take(t)[i] == lines[i]);
            }
        }
    }
    assert(all[t] == decision_text(response.decision));
    if errors.len() > 0 {
        assert(all[t + 1] == ""@);
        assert forall|i: int| 0 <= i < errors.len() implies lines[t + 2 + i]@ == (
        #[trigger] errors[i])@ by {
            assert(all[t + 2 + i] == texts(errors)[i]);
        }
    }
    if args.verbose {
        assert(all[b] == ""@);
        if reason.len() == 0 {
            assert(all[b + 1] == "note: no policies applied to this request"@);
        } else {
            assert(all[b + 1] == "note: this decision was due to the following policies:"@);
            assert forall|i: int| 0 <= i < reason.len() implies lines[b + 2 + i]@ == "  "@ + (
            #[trigger] reason[i])@ by {
                assert(all[b + 2 + i] == "  "@ + texts(reason)[i]);
            }
            assert(all[b + 2 + reason.len()] == ""@);
        }
    }
}

/// What is printed of a request that could not be decided: its errors, and nothing
/// else. What is printed before a request is decided: an empty line.
pub proof fn prints_errors_of_failure(
    args: AuthorizeArgs,
    errors: Vec<String>,
    lines: Seq<String>,
    opening: Seq<String>,
)
    requires
        texts(lines) == output_text(args, Outcome::Failed(errors)),
        texts(opening) == opening_text(),
    ensures
        lines.len() == errors@.len(),
        forall|i: int| 0 <= i < lines.len() ==> (#[trigger] lines[i])@ == errors@[i]@,
        opening.len() == 1,
        opening[0]@ == ""@,
{
    assert(texts(lines).len() == lines.len());
    assert(texts(errors@).len() == errors@.len());
    assert(texts(opening).len() == opening.len());
    assert(texts(opening)[0] == opening[0]@);
    assert forall|i: int| 0 <= i < lines.len() implies (#[trigger] lines[i])@ == errors@[i]@ by {
        assert(texts(lines)[i] == lines[i]@);
        assert(texts(errors@)[i] == errors@[i]@);
    }
}

/// How many of the errors there are.
pub open spec fn one_if_any<E>(error: Option<E>) -> int {
    if error is Some {
        1
    } else {
        0
    }
}

/// The errors that are reported: one for each part that could not be loaded, in the
/// order policies, schema, entities, request; that of the request is headed as one,
/// and no other has a heading.
pub proof fn reports_one_error_for_each_failure<R, E>(
    policies: Option<E>,
    schema: Option<E>,
    entities: Option<E>,
    request: Result<R, E>,
    errors: Seq<LoadError<E>>,
)
    requires
        errors_view(errors) == load_errors(policies, schema, entities, request),
    ensures
        ({
            let s = one_if_any(policies);
            let e = s + one_if_any(schema);
            let r = e + one_if_any(entities);
            &&& errors.len() == r + if request is Err {
                1int
            } else {
                0
            }
            &&& policies matches Some(x) ==> errors[0].cause == x && errors[0].heading is None
            &&& schema matches Some(x) ==> errors[s].cause == x && errors[s].heading is None
            &&& entities matches Some(x) ==> errors[e].cause == x && errors[e].heading is None
            &&& request matches Err(x) ==> {
                &&& errors[r].cause == x
                &&& errors[r].heading matches Some(heading) && heading@
                    == "failed to parse request"@
            }
        }),
{
    let s = one_if_any(policies);
    let e = s + one_if_any(schema);
    let r = e + one_if_any(entities);
    let all = errors_view(errors);
    assert(all.len() == errors.len());
    assert forall|i: int| 0 <= i < errors.len() implies #[trigger] all[i] == errors[i]@ by {}
    if policies is Some {
        assert(all[0] == (None::<Seq<char>>, policies->0));
    }
    if schema is Some {
        assert(all[s] == (None::<Seq<char>>, schema->0));
    }
    if entities is Some {
        assert(all[e] == (None::<Seq<char>>, entities->0));
    }
    if request is Err {
        assert(all[r] == (Some("failed to parse request"@), request->Err_0));
    }
}

} // verus!
