use poltree::authorizer::Decision;
use poltree::cli::args::{
    AuthorizeArgs, OptionalSchemaArgs, PoliciesArgs, PolicyFormat, RequestArgs,
};
use poltree::cli::authorize::{authorize, opening_lines, CedarExitCode, Outcome, Response};
use poltree::cli::cache::{
    cache_file_name, cache_path, cache_sources, policy_format_tag, source_hash, source_hashes,
    Source, SourceHashes, POLTREE_CACHE_VERSION,
};
use poltree::cli::content_hash::ContentHash;
use poltree::cli::digits::{append_decimal, append_hexadecimal};
use poltree::cli::execute::{first_step, loaded_or, loaded_request, next_step, Event, Step};
use poltree::cli::timing::{timing_lines, Timing};

fn policies_args(file: Option<&str>, links: Option<&str>) -> PoliciesArgs {
    PoliciesArgs {
        policies_file: file.map(|f| f.to_string()),
        policy_format: PolicyFormat::Cedar,
        template_linked_file: links.map(|f| f.to_string()),
    }
}

fn args(verbose: bool, timing: bool) -> AuthorizeArgs {
    AuthorizeArgs {
        request: RequestArgs { request_json_file: "request.json".to_string() },
        policies: policies_args(None, None),
        schema: OptionalSchemaArgs { schema_file: None },
        entities_file: "entities.json".to_string(),
        verbose,
        timing,
        use_poltree: false,
    }
}

fn decided(decision: Decision, reason: &[&str], errors: &[&str]) -> Outcome {
    Outcome::Decided {
        response: Response {
            decision,
            reason: reason.iter().map(|r| r.to_string()).collect(),
            errors: errors.iter().map(|e| e.to_string()).collect(),
        },
        timing: Timing::Engine { nanos: 12_345_678 },
    }
}

fn run(use_poltree: bool, events: &[Event]) -> Step {
    let mut step = first_step(use_poltree);
    for event in events {
        step = next_step(step, *event);
    }
    step
}

#[test]
fn decimal_digits() {
    for n in [0, 7, 10, 99, 100, 1_234_567_890, u128::MAX] {
        let mut out = String::from("n=");
        append_decimal(&mut out, n);
        assert_eq!(out, format!("n={n}"));
    }
}

#[test]
fn hexadecimal_digits() {
    for n in [0, 1, 15, 16, 255, 0xdead_beef, u64::MAX] {
        let mut out = String::new();
        append_hexadecimal(&mut out, n, 16);
        assert_eq!(out, format!("{n:016x}"));
    }
    let mut out = String::new();
    append_hexadecimal(&mut out, 0x1234, 2);
    assert_eq!(out, "34");
}

#[test]
fn format_tags() {
    assert_eq!(policy_format_tag(PolicyFormat::Cedar), 1);
    assert_eq!(policy_format_tag(PolicyFormat::Json), 2);
    assert_eq!(POLTREE_CACHE_VERSION, 1);
}

#[test]
fn cache_file_names() {
    let hashes = SourceHashes {
        policies: 0x0123_4567_89ab_cdef,
        entities: 0xff,
        schema: 0,
        template_links: u64::MAX,
    };
    assert_eq!(
        cache_file_name(PolicyFormat::Json, hashes),
        "v1_pf2_0123456789abcdef_00000000000000ff_0000000000000000_ffffffffffffffff.bin"
    );
    assert_eq!(
        cache_file_name(PolicyFormat::Cedar, hashes),
        "v1_pf1_0123456789abcdef_00000000000000ff_0000000000000000_ffffffffffffffff.bin"
    );
}

#[test]
fn cache_names_differ_with_each_source() {
    let base = SourceHashes { policies: 1, entities: 2, schema: 3, template_links: 4 };
    let names = [
        cache_file_name(PolicyFormat::Cedar, base),
        cache_file_name(PolicyFormat::Json, base),
        cache_file_name(PolicyFormat::Cedar, SourceHashes { policies: 9, ..base }),
        cache_file_name(PolicyFormat::Cedar, SourceHashes { entities: 9, ..base }),
        cache_file_name(PolicyFormat::Cedar, SourceHashes { schema: 9, ..base }),
        cache_file_name(PolicyFormat::Cedar, SourceHashes { template_links: 9, ..base }),
    ];
    for i in 0..names.len() {
        for j in 0..i {
            assert_ne!(names[i], names[j]);
        }
    }
}

#[test]
fn no_cache_without_policies_file() {
    let policies = policies_args(None, Some("links.json"));
    assert!(cache_sources(&policies, "entities.json", Some("schema.json")).is_none());
}

#[test]
fn cache_sources_of_all_files() {
    let policies = policies_args(Some("p.cedar"), Some("links.json"));
    let sources = cache_sources(&policies, "e.json", Some("s.json")).unwrap();
    assert!(matches!(sources.policies, Source::File(f) if f == "p.cedar"));
    assert!(matches!(sources.entities, Source::File(f) if f == "e.json"));
    assert!(matches!(sources.schema, Source::File(f) if f == "s.json"));
    assert!(matches!(sources.template_links, Source::FileIfPresent(f) if f == "links.json"));
}

#[test]
fn cache_sources_of_fewest_files() {
    let policies = policies_args(Some("p.cedar"), None);
    let sources = cache_sources(&policies, "e.json", None).unwrap();
    assert!(matches!(sources.schema, Source::Nothing));
    assert!(matches!(sources.template_links, Source::Nothing));
}

#[test]
fn source_without_contents_has_hash_zero() {
    assert_eq!(source_hash(None), 0);
    assert_eq!(source_hash(Some(5)), 5);
    assert!(Source::File("p".to_string()).is_hashed(false));
    assert!(Source::FileIfPresent("t".to_string()).is_hashed(true));
    assert!(!Source::FileIfPresent("t".to_string()).is_hashed(false));
    assert!(!Source::Nothing.is_hashed(true));
}

#[test]
fn cache_path_below_current_directory() {
    let empty = Some(ContentHash::new().digest());
    let hashes = source_hashes(empty, empty, None, None);
    assert_eq!(
        cache_path(PolicyFormat::Json, hashes),
        vec![
            "target",
            ".cedar",
            "poltree-cache",
            "v1_pf2_2d06800538d394c2_2d06800538d394c2_0000000000000000_0000000000000000.bin",
        ]
    );
}

#[test]
fn hash_of_nothing() {
    let mut hash = ContentHash::new();
    assert_eq!(hash.digest(), 0x2d06_8005_38d3_94c2);
    assert!(!hash.feed(&[1, 2, 3], 0));
    assert_eq!(hash.digest(), 0x2d06_8005_38d3_94c2);
}

#[test]
fn hash_takes_only_what_was_read() {
    let mut hash = ContentHash::new();
    assert!(hash.feed(b"policy and leftovers", 6));
    assert_eq!(hash.digest(), xxhash_rust::xxh3::xxh3_64(b"policy"));
    assert_ne!(hash.digest(), xxhash_rust::xxh3::xxh3_64(b"policy and leftovers"));
}

#[test]
fn hash_does_not_depend_on_reads() {
    let contents: Vec<u8> = (0..100_000u32).map(|i| (i * 7 % 251) as u8).collect();
    let whole = xxhash_rust::xxh3::xxh3_64(&contents);
    for size in [1usize, 63, 64, 256, 257, 1000, 65_536] {
        let mut hash = ContentHash::new();
        for chunk in contents.chunks(size) {
            assert!(hash.feed(chunk, chunk.len()));
        }
        assert_eq!(hash.digest(), whole);
    }
}

fn load(
    policies: Option<&'static str>,
    schema: Option<&'static str>,
    entities: Option<&'static str>,
    request: Result<u8, &'static str>,
) -> Result<u8, Vec<(Option<String>, &'static str)>> {
    loaded_request(policies, schema, entities, request)
        .map_err(|errors| errors.into_iter().map(|e| (e.heading, e.cause)).collect())
}

#[test]
fn loaded_or_falls_back() {
    assert_eq!(loaded_or(Ok::<u8, &str>(7), 0), (7, None));
    assert_eq!(loaded_or(Err::<u8, &str>("bad"), 0), (0, Some("bad")));
}

#[test]
fn request_is_decided_if_all_is_loaded() {
    assert_eq!(load(None, None, None, Ok(7)), Ok(7));
}

#[test]
fn errors_are_collected_in_order() {
    let heading = || Some("failed to parse request".to_string());
    assert_eq!(
        load(Some("p"), Some("s"), Some("e"), Err("r")),
        Err(vec![(None, "p"), (None, "s"), (None, "e"), (heading(), "r")])
    );
    assert_eq!(
        load(Some("p"), None, Some("e"), Err("r")),
        Err(vec![(None, "p"), (None, "e"), (heading(), "r")])
    );
    assert_eq!(load(None, Some("s"), None, Ok(7)), Err(vec![(None, "s")]));
    assert_eq!(load(None, None, None, Err("r")), Err(vec![(heading(), "r")]));
}

#[test]
fn engine_decides_without_tree() {
    assert_eq!(run(false, &[]), Step::Authorize);
    assert_eq!(run(true, &[]), Step::Locate);
}

#[test]
fn kept_tree_is_used() {
    let events = [
        Event::Located(true),
        Event::Present(true),
        Event::Loaded(true),
        Event::Decoded(true),
    ];
    assert_eq!(run(true, &events), Step::Evaluate { hit: true });
}

#[test]
fn tree_is_built_and_kept_if_there_is_none() {
    let fronts: [&[Event]; 3] = [
        &[Event::Located(true), Event::Present(false)],
        &[Event::Located(true), Event::Present(true), Event::Loaded(false)],
        &[
            Event::Located(true),
            Event::Present(true),
            Event::Loaded(true),
            Event::Decoded(false),
        ],
    ];
    for front in fronts {
        let mut events = front.to_vec();
        assert_eq!(run(true, &events), Step::Build { keep: true });
        events.push(Event::Built);
        assert_eq!(run(true, &events), Step::Encode);
        events.push(Event::Encoded(true));
        assert_eq!(run(true, &events), Step::Write);
        events.push(Event::Written);
        assert_eq!(run(true, &events), Step::Evaluate { hit: false });
    }
}

#[test]
fn tree_that_cannot_be_encoded_is_not_written() {
    let events = [
        Event::Located(true),
        Event::Present(false),
        Event::Built,
        Event::Encoded(false),
    ];
    assert_eq!(run(true, &events), Step::Evaluate { hit: false });
}

#[test]
fn tree_is_not_kept_without_a_place() {
    let events = [Event::Located(false), Event::Built];
    assert_eq!(run(true, &events), Step::Evaluate { hit: false });
}

#[test]
fn timing_of_engine() {
    assert_eq!(
        timing_lines(&Timing::Engine { nanos: 12_345_678 }),
        vec!["Authorization Time (micro seconds) : 12345"]
    );
}

#[test]
fn timing_of_loaded_tree() {
    let timing = Timing::LoadedTree { read: 1_999, decode: 2_001, evaluation: 999 };
    assert_eq!(
        timing_lines(&timing),
        vec![
            "Cache read (micro seconds) : 1",
            "Cache deserialize (micro seconds) : 2",
            "Tree Cache Hit               : true",
            "Tree Load Time (micro seconds) : 4",
            "Tree Evaluation Time (micro seconds) : 0",
        ]
    );
}

#[test]
fn timing_of_built_tree() {
    let timing = Timing::BuiltTree { build: 5_000, evaluation: 1_000_000_000 };
    assert_eq!(
        timing_lines(&timing),
        vec![
            "Tree Cache Hit               : false",
            "Tree Build Time (micro seconds) : 5",
            "Tree Evaluation Time (micro seconds) : 1000000",
        ]
    );
}

#[test]
fn empty_line_is_printed_first() {
    assert_eq!(opening_lines(), vec![""]);
}

#[test]
fn allowance_is_printed() {
    let (code, lines) = authorize(&args(false, false), &decided(Decision::Allow, &["p0"], &[]));
    assert_eq!(code, CedarExitCode::Success);
    assert_eq!(lines, vec!["ALLOW"]);
}

#[test]
fn denial_is_printed_with_errors_and_timing() {
    let (code, lines) =
        authorize(&args(false, true), &decided(Decision::Deny, &[], &["first", "second"]));
    assert_eq!(code, CedarExitCode::AuthorizeDeny);
    assert_eq!(
        lines,
        vec![
            "Authorization Time (micro seconds) : 12345",
            "DENY",
            "",
            "first",
            "second",
        ]
    );
}

#[test]
fn verbose_output_names_policies() {
    let (_, lines) = authorize(&args(true, false), &decided(Decision::Allow, &["p0", "p1"], &[]));
    assert_eq!(
        lines,
        vec![
            "ALLOW",
            "",
            "note: this decision was due to the following policies:",
            "  p0",
            "  p1",
            "",
        ]
    );
}

#[test]
fn verbose_output_without_policies() {
    let (_, lines) = authorize(&args(true, false), &decided(Decision::Deny, &[], &[]));
    assert_eq!(lines, vec!["DENY", "", "note: no policies applied to this request"]);
}

#[test]
fn failure_prints_errors() {
    let outcome = Outcome::Failed(vec!["bad policies".to_string(), "bad request".to_string()]);
    let (code, lines) = authorize(&args(true, true), &outcome);
    assert_eq!(code, CedarExitCode::Failure);
    assert_eq!(lines, vec!["bad policies", "bad request"]);
}
