# poltree

A verified policy tree for attribute-based access control.

Policies that ask only that attributes of the principal, the resource or the
context have given values, and that the principal, the action and the resource
are given ones or of given types, are kept in a decision tree. A request is
decided by looking up, at each node, the value that it gives one key. All other
policies, and all that forbid, are reported as residual: an evaluator of whole
conditions has to deal with them, and its decision is combined with the tree's.

## Layout

- `src/ast.rs`, `src/entities.rs`, `src/authorizer.rs`: policies, requests, the
  entity store, decisions.
- `src/poltree/`: extraction of constraints, the index, the tree, the search, and
  in `laws.rs` what holds of the whole: the tree allows a request exactly where an
  indexed policy applies to it, by policies that do.
- `src/cli/`: what the command line is given, the names under which trees are
  kept, the steps by which one is loaded or built, and what is printed.
- `src/keyed.rs`, `src/seqs.rs`, `src/text.rs`: lists as sets and maps, facts about
  sequences, strings.
- `app/`: the program: argument parsing, files, JSON, the measure by which trees
  are split (floating point), and the form in which trees are kept. It accepts
  policy sets without residual policies.

The library trusts what it says of `smol_str::SmolStr`, of
`xxhash_rust::xxh3::Xxh3`, of `str::strip_prefix` and of `Arc::clone`; each such
statement stands beside the item it is about.
