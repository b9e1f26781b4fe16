//! How long a decision took, in words.

use vstd::prelude::*;
use vstd::string::*;

use crate::cli::digits::{append_decimal, decimal, texts};

verus! {

/// The longest span of time there is, in nanoseconds.
pub const LONGEST_NANOS: u128 = 18_446_744_073_709_551_615_999_999_999;

/// How long the parts of a decision took, in nanoseconds.
#[derive(Debug, Clone, Copy)]
pub enum Timing {
    /// The engine decided
    Engine {
        /// How long it took
        nanos: u128,
    },
    /// A tree that was kept decided
    LoadedTree {
        /// How long it took to read
        read: u128,
        /// How long it took to decode
        decode: u128,
        /// How long it took to decide
        evaluation: u128,
    },
    /// A tree that was built decided
    BuiltTree {
        /// How long it took to build, with all that came before
        build: u128,
        /// How long it took to decide
        evaluation: u128,
    },
}

impl Timing {
    /// The time to load a tree is a span of time.
    pub open spec fn wf(self) -> bool {
        self matches Timing::LoadedTree { read, decode, .. } ==> read + decode <= LONGEST_NANOS
    }
}

/// A label, and a time in microseconds.
pub open spec fn time_line(label: Seq<char>, nanos: nat) -> Seq<char> {
    label + decimal(nanos / 1000)
}

/// The lines that tell how long a decision took.
pub open spec fn timing_text(timing: Timing) -> Seq<Seq<char>> {
    match timing {
        Timing::Engine { nanos } => seq![
            time_line("Authorization Time (micro seconds) : "@, nanos as nat),
        ],
        Timing::LoadedTree { read, decode, evaluation } => seq![
            time_line("Cache read (micro seconds) : "@, read as nat),
            time_line("Cache deserialize (micro seconds) : "@, decode as nat),
            "Tree Cache Hit               : true"@,
            time_line("Tree Load Time (micro seconds) : "@, (read + decode) as nat),
            time_line("Tree Evaluation Time (micro seconds) : "@, evaluation as nat),
        ],
        Timing::BuiltTree { build, evaluation } => seq![
            "Tree Cache Hit               : false"@,
            time_line("Tree Build Time (micro seconds) : "@, build as nat),
            time_line("Tree Evaluation Time (micro seconds) : "@, evaluation as nat),
        ],
    }
}

fn timed(label: &str, nanos: u128) -> (line: String)
    ensures
        line@ == time_line(label@, nanos as nat),
{
    let mut line = label.to_owned();
    append_decimal(&mut line, nanos / 1000);
    line
}

/// The lines that tell how long a decision took.
pub fn timing_lines(timing: &Timing) -> (lines: Vec<String>)
    requires
        timing.wf(),
    ensures
        texts(lines@) == timing_text(*timing),
{
    let mut lines: Vec<String> = Vec::new();
    match *timing {
        Timing::Engine { nanos } => {
            lines.push(timed("Authorization Time (micro seconds) : ", nanos));
        },
        Timing::LoadedTree { read, decode, evaluation } => {
            lines.push(timed("Cache read (micro seconds) : ", read));
            lines.push(timed("Cache deserialize (micro seconds) : ", decode));
            lines.push("Tree Cache Hit               : true".to_owned());
            lines.push(timed("Tree Load Time (micro seconds) : ", read + decode));
            lines.push(timed("Tree Evaluation Time (micro seconds) : ", evaluation));
        },
        Timing::BuiltTree { build, evaluation } => {
            lines.push("Tree Cache Hit               : false".to_owned());
            lines.push(timed("Tree Build Time (micro seconds) : ", build));
            lines.push(timed("Tree Evaluation Time (micro seconds) : ", evaluation));
        },
    }
    assert(texts(lines@) =~= timing_text(*timing));
    lines
}

} // verus!
