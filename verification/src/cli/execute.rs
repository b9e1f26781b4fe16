//! Which way a request is decided: what must be loaded first, and how a policy
//! tree is taken from where it was kept, or built and kept.

use vstd::prelude::*;

verus! {

/// What was loaded, or `otherwise` and the error if it could not be.
pub fn loaded_or<T, E>(loaded: Result<T, E>, otherwise: T) -> (r: (T, Option<E>))
    ensures
        r == match loaded {
            Ok(value) => (value, None::<E>),
            Err(e) => (otherwise, Some(e)),
        },
{
    match loaded {
        Ok(value) => (value, None),
        Err(e) => (otherwise, Some(e)),
    }
}

/// What an error of the request is headed with.
pub const REQUEST_ERROR: &'static str = "failed to parse request";

/// An error that was met while something was loaded.
#[derive(Debug)]
pub struct LoadError<E> {
    /// What it is headed with, if anything
    pub heading: Option<String>,
    /// The error itself
    pub cause: E,
}

impl<E> LoadError<E> {
    /// The text that the error is headed with, if any, and the error itself.
    pub open spec fn view(&self) -> (Option<Seq<char>>, E) {
        (
            match self.heading {
                Some(heading) => Some(heading@),
                None => None,
            },
            self.cause,
        )
    }
}

/// The headings and causes of a list of errors.
pub open spec fn errors_view<E>(errors: Seq<LoadError<E>>) -> Seq<(Option<Seq<char>>, E)> {
    errors.map_values(|e: LoadError<E>| e@)
}

/// An error without a heading, if there is one.
pub open spec fn bare<E>(error: Option<E>) -> Seq<(Option<Seq<char>>, E)> {
    match error {
        Some(e) => seq![(None, e)],
        None => Seq::empty(),
    }
}

/// The errors that were met while the policies, the schema, the entities and the
/// request were loaded, in this order. The error of the request is headed as one,
/// and no other error has a heading.
pub open spec fn load_errors<R, E>(
    policies: Option<E>,
    schema: Option<E>,
    entities: Option<E>,
    request: Result<R, E>,
) -> Seq<(Option<Seq<char>>, E)> {
    bare(policies) + bare(schema) + bare(entities) + match request {
        Ok(_) => Seq::empty(),
        Err(e) => seq![(Some("failed to parse request"@), e)],
    }
}

/// Adds an error without a heading, if there is one.
fn add_bare<E>(errors: &mut Vec<LoadError<E>>, error: Option<E>)
    ensures
        errors_view(final(errors)@) == errors_view(old(errors)@) + bare(error),
{
    let ghost before = errors@;
    if let Some(cause) = error {
        errors.push(LoadError { heading: None, cause });
    }
    assert(errors_view(errors@) =~= errors_view(before) + bare(error));
}

/// The request to decide, if it and all that it is decided by were loaded;
/// otherwise all errors that were met.
pub fn loaded_request<R, E>(
    policies: Option<E>,
    schema: Option<E>,
    entities: Option<E>,
    request: Result<R, E>,
) -> (r: Result<R, Vec<LoadError<E>>>)
    ensures
        r is Ok <==> policies is None && schema is None && entities is None && request is Ok,
        r matches Ok(loaded) ==> request == Ok::<R, E>(loaded),
        r matches Err(errors) ==> errors_view(errors@) == load_errors(
            policies,
            schema,
            entities,
            request,
        ),
{
    let mut errors: Vec<LoadError<E>> = Vec::new();
    assert(errors_view(errors@) =~= Seq::empty());
    add_bare(&mut errors, policies);
    add_bare(&mut errors, schema);
    add_bare(&mut errors, entities);
    let ghost before = errors_view(errors@);
    assert(before =~= bare(policies) + bare(schema) + bare(entities));
    assert(before.len() == errors@.len());
    match request {
        Ok(loaded) => {
            if errors.len() == 0 {
                Ok(loaded)
            } else {
                assert(errors_view(errors@) =~= load_errors(policies, schema, entities, request));
                Err(errors)
            }
        },
        Err(cause) => {
            errors.push(LoadError { heading: Some(REQUEST_ERROR.to_owned()), cause });
            assert(errors_view(errors@) =~= load_errors(policies, schema, entities, request));
            Err(errors)
        },
    }
}

/// What is to be done next to decide a request.
#[derive(Debug, Clone, Copy, PartialEq, Eq, Structural)]
pub enum Step {
    /// Let the engine decide
    Authorize,
    /// Work out where the tree is kept
    Locate,
    /// See whether it is there
    Look,
    /// Read it
    Read,
    /// Decode it
    Decode,
    /// Build it
    Build {
        /// Whether there is a place to keep it
        keep: bool,
    },
    /// Encode it
    Encode,
    /// Write it to where it is kept
    Write,
    /// Let the tree decide
    Evaluate {
        /// Whether it was loaded from where it was kept
        hit: bool,
    },
}

/// What came of a step.
#[derive(Debug, Clone, Copy, PartialEq, Eq, Structural)]
pub enum Event {
    /// There is a place to keep the tree, or there is none
    Located(bool),
    /// There is something there, or there is not
    Present(bool),
    /// It was read, or could not be
    Loaded(bool),
    /// It was decoded, or could not be
    Decoded(bool),
    /// The tree was built
    Built,
    /// It was encoded, or could not be
    Encoded(bool),
    /// Writing was tried
    Written,
}

/// Whether `event` can come of `step`.
pub open spec fn answers(step: Step, event: Event) -> bool {
    match step {
        Step::Authorize => false,
        Step::Locate => event is Located,
        Step::Look => event is Present,
        Step::Read => event is Loaded,
        Step::Decode => event is Decoded,
        Step::Build { .. } => event is Built,
        Step::Encode => event is Encoded,
        Step::Write => event is Written,
        Step::Evaluate { .. } => false,
    }
}

/// The step after `step`, of which `event` came. What was kept is used if it is
/// there and can be read and decoded; otherwise the tree is built, and kept if
/// there is a place for it and it can be encoded.
pub open spec fn step_after(step: Step, event: Event) -> Step {
    match (step, event) {
        (Step::Locate, Event::Located(true)) => Step::Look,
        (Step::Locate, _) => Step::Build { keep: false },
        (Step::Look, Event::Present(true)) => Step::Read,
        (Step::Look, _) => Step::Build { keep: true },
        (Step::Read, Event::Loaded(true)) => Step::Decode,
        (Step::Read, _) => Step::Build { keep: true },
        (Step::Decode, Event::Decoded(true)) => Step::Evaluate { hit: true },
        (Step::Decode, _) => Step::Build { keep: true },
        (Step::Build { keep: true }, _) => Step::Encode,
        (Step::Encode, Event::Encoded(true)) => Step::Write,
        _ => Step::Evaluate { hit: false },
    }
}

/// The first step.
pub open spec fn starting_step(use_poltree: bool) -> Step {
    if use_poltree {
        Step::Locate
    } else {
        Step::Authorize
    }
}

/// The first step: to let the engine decide, or to see to the tree.
pub fn first_step(use_poltree: bool) -> (step: Step)
    ensures
        step == starting_step(use_poltree),
{
    if use_poltree {
        Step::Locate
    } else {
        Step::Authorize
    }
}

/// The step after `step`, of which `event` came.
pub fn next_step(step: Step, event: Event) -> (next: Step)
    requires
        answers(step, event),
    ensures
        next == step_after(step, event),
{
    match (step, event) {
        (Step::Locate, Event::Located(true)) => Step::Look,
        (Step::Locate, _) => Step::Build { keep: false },
        (Step::Look, Event::Present(true)) => Step::Read,
        (Step::Look, _) => Step::Build { keep: true },
        (Step::Read, Event::Loaded(true)) => Step::Decode,
        (Step::Read, _) => Step::Build { keep: true },
        (Step::Decode, Event::Decoded(true)) => Step::Evaluate { hit: true },
        (Step::Decode, _) => Step::Build { keep: true },
        (Step::Build { keep: true }, _) => Step::Encode,
        (Step::Encode, Event::Encoded(true)) => Step::Write,
        _ => Step::Evaluate { hit: false },
    }
}

/// The step that is reached from the start when `events` came of the steps.
pub open spec fn reached(use_poltree: bool, events: Seq<Event>) -> Step
    decreases events.len(),
{
    if events.len() == 0 {
        starting_step(use_poltree)
    } else {
        step_after(reached(use_poltree, events.drop_last()), events.last())
    }
}

/// Whether `events` can come of the steps, one after the other.
pub open spec fn is_run(use_poltree: bool, events: Seq<Event>) -> bool
    decreases events.len(),
{
    events.len() > 0 ==> {
        &&& is_run(use_poltree, events.drop_last())
        &&& answers(reached(use_poltree, events.drop_last()), events.last())
    }
}

/// Whether nothing is left but to decide.
pub open spec fn is_last(step: Step) -> bool {
    step is Authorize || step is Evaluate
}

/// How many steps there can still be.
pub open spec fn steps_left(step: Step) -> nat {
    match step {
        Step::Authorize => 0,
        Step::Locate => 7,
        Step::Look => 6,
        Step::Read => 5,
        Step::Decode => 4,
        Step::Build { .. } => 3,
        Step::Encode => 2,
        Step::Write => 1,
        Step::Evaluate { .. } => 0,
    }
}

/// Every run comes to an end: it has at most seven events, and goes on until
/// nothing is left but to decide.
pub proof fn runs_end(use_poltree: bool, events: Seq<Event>)
    requires
        is_run(use_poltree, events),
    ensures
        events.len() + steps_left(reached(use_poltree, events)) <= 7,
        !is_last(reached(use_poltree, events)) <==> exists|event: Event|
            answers(reached(use_poltree, events), event),
    decreases events.len(),
{
    if events.len() > 0 {
        runs_end(use_poltree, events.drop_last());
    }
    let step = reached(use_poltree, events);
    assert(answers(Step::Locate, Event::Located(true)));
    assert(answers(Step::Look, Event::Present(true)));
    assert(answers(Step::Read, Event::Loaded(true)));
    assert(answers(Step::Decode, Event::Decoded(true)));
    assert(step is Build ==> answers(step, Event::Built));
    assert(answers(Step::Encode, Event::Encoded(true)));
    assert(answers(Step::Write, Event::Written));
}

/// The engine decides exactly if no tree is asked for.
pub proof fn engine_decides_without_tree(use_poltree: bool, events: Seq<Event>)
    requires
        is_run(use_poltree, events),
    ensures
        reached(use_poltree, events) is Authorize <==> !use_poltree,
    decreases events.len(),
{
    if events.len() > 0 {
        engine_decides_without_tree(use_poltree, events.drop_last());
    }
}

/// The events of a run in which the tree was loaded from where it was kept.
pub open spec fn hit_events() -> Seq<Event> {
    seq![
        Event::Located(true),
        Event::Present(true),
        Event::Loaded(true),
        Event::Decoded(true),
    ]
}

/// A tree is loaded from where it was kept exactly if it is found there, read and
/// decoded.
pub proof fn hit_exactly_if_decoded(events: Seq<Event>)
    requires
        is_run(true, events),
    ensures
        reached(true, events) == (Step::Evaluate { hit: true }) <==> events == hit_events(),
{
    lemma_way_down(events);
    if events == hit_events() {
        reveal_with_fuel(reached, 5);
        assert(events.drop_last() =~= seq![
            Event::Located(true),
            Event::Present(true),
            Event::Loaded(true),
        ]);
        assert(events.drop_last().drop_last() =~= seq![
            Event::Located(true),
            Event::Present(true),
        ]);
        assert(events.drop_last().drop_last().drop_last() =~= seq![Event::Located(true)]);
    }
}

/// The events before the steps that look for the tree where it was kept.
proof fn lemma_way_down(events: Seq<Event>)
    requires
        is_run(true, events),
    ensures
        reached(true, events) is Locate ==> events =~= hit_events().take(0),
        reached(true, events) is Look ==> events =~= hit_events().take(1),
        reached(true, events) is Read ==> events =~= hit_events().take(2),
        reached(true, events) is Decode ==> events =~= hit_events().take(3),
        reached(true, events) == (Step::Evaluate { hit: true }) ==> events =~= hit_events(),
    decreases events.len(),
{
    if events.len() > 0 {
        lemma_way_down(events.drop_last());
        assert(events =~= events.drop_last().push(events.last()));
    }
}

/// How often the tree was built.
pub open spec fn builds(events: Seq<Event>) -> nat {
    events.filter(|event: Event| event == Event::Built).len()
}

/// When a tree decides, it was built once, or it was loaded and not built.
pub proof fn builds_once_unless_hit(events: Seq<Event>)
    requires
        is_run(true, events),
        is_last(reached(true, events)),
    ensures
        builds(events) == if reached(true, events) == (Step::Evaluate { hit: true }) {
            0nat
        } else {
            1nat
        },
{
    lemma_builds(events);
}

proof fn lemma_builds(events: Seq<Event>)
    requires
        is_run(true, events),
    ensures
        builds(events) == match reached(true, events) {
            Step::Encode | Step::Write | Step::Evaluate { hit: false } => 1nat,
            _ => 0nat,
        },
    decreases events.len(),
{
    reveal(Seq::filter);
    if events.len() > 0 {
        lemma_builds(events.drop_last());
        engine_decides_without_tree(true, events.drop_last());
    }
}

/// A tree is written to where it is kept only if there is such a place, and the
/// tree was built and encoded just before; so never if it was loaded from there.
pub proof fn writes_only_what_was_built(events: Seq<Event>, i: int)
    requires
        is_run(true, events),
        0 <= i < events.len(),
        events[i] == Event::Written,
    ensures
        events[0] == Event::Located(true),
        2 <= i,
        events[i - 2] == Event::Built,
        events[i - 1] == Event::Encoded(true),
        i == events.len() - 1,
        reached(true, events) == (Step::Evaluate { hit: false }),
    decreases events.len(),
{
    let before = events.drop_last();
    if i < events.len() - 1 {
        writes_only_what_was_built(before, i);
    } else {
        lemma_way_up(before);
    }
}

/// A tree that was built is kept, unless there is no place for it or it cannot be
/// encoded.
pub proof fn keeps_what_was_built(events: Seq<Event>)
    requires
        is_run(true, events),
        reached(true, events) == (Step::Evaluate { hit: false }),
    ensures
        events.len() > 0,
        match events.last() {
            Event::Written => true,
            Event::Encoded(encoded) => !encoded,
            Event::Built => events == seq![Event::Located(false), Event::Built],
            _ => false,
        },
{
    let before = events.drop_last();
    lemma_way_up(before);
    engine_decides_without_tree(true, before);
    assert(events =~= before.push(events.last()));
}

/// The events before the steps that keep a tree.
proof fn lemma_way_up(events: Seq<Event>)
    requires
        is_run(true, events),
    ensures
        match reached(true, events) {
            Step::Build { keep: false } => events =~= seq![Event::Located(false)],
            Step::Build { keep: true } => events.len() > 0 && events[0] == Event::Located(true),
            Step::Encode => {
                &&& events.len() > 1
                &&& events[0] == Event::Located(true)
                &&& events.last() == Event::Built
            },
            Step::Write => {
                &&& events.len() > 2
                &&& events[0] == Event::Located(true)
                &&& events[events.len() - 2] == Event::Built
                &&& events.last() == Event::Encoded(true)
            },
            _ => true,
        },
    decreases events.len(),
{
    if events.len() > 0 {
        lemma_way_up(events.drop_last());
        lemma_way_down(events.drop_last());
    }
}

} // verus!
