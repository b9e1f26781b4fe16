//! What the command line is given.

use vstd::prelude::*;

verus! {

/// The syntax that policies are written in.
#[derive(Debug, Clone, Copy, PartialEq, Eq, Structural)]
pub enum PolicyFormat {
    /// The policy language
    Cedar,
    /// JSON
    Json,
}

/// Where the request to decide is.
#[derive(Debug)]
pub struct RequestArgs {
    /// File with the request, in JSON
    pub request_json_file: String,
}

/// Where the policies are.
#[derive(Debug)]
pub struct PoliciesArgs {
    /// File with the policies; they are read from the standard input if there is
    /// none
    pub policies_file: Option<String>,
    /// The syntax that they are written in
    pub policy_format: PolicyFormat,
    /// File with the links of templates
    pub template_linked_file: Option<String>,
}

/// Where the schema is.
#[derive(Debug)]
pub struct OptionalSchemaArgs {
    /// File with the schema
    pub schema_file: Option<String>,
}

/// What an authorization is given.
#[derive(Debug)]
pub struct AuthorizeArgs {
    /// Where the request to decide is
    pub request: RequestArgs,
    /// Where the policies are
    pub policies: PoliciesArgs,
    /// Where the schema is, which gives the store action entities, and by which
    /// the entities are parsed
    pub schema: OptionalSchemaArgs,
    /// File with the entities, in JSON
    pub entities_file: String,
    /// Whether to print which policies applied
    pub verbose: bool,
    /// Whether to print how long it took
    pub timing: bool,
    /// Whether to decide by a policy tree
    pub use_poltree: bool,
}

} // verus!
