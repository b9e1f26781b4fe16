//! Where a policy tree is kept between runs: in a file whose name tells what the
//! tree was built from.

use vstd::prelude::*;
use vstd::string::*;

use crate::cli::args::{PoliciesArgs, PolicyFormat};
use crate::cli::digits::{
    append_decimal, append_hexadecimal, decimal, decimal_tells_numbers_apart, hexadecimal,
    hexadecimal_range, hexadecimal_tells_numbers_apart, lemma_hexadecimal_len, texts,
};

verus! {

/// The version of the layout that trees are kept in.
pub const POLTREE_CACHE_VERSION: u32 = 1;

/// The number that stands for a policy format in a name.
pub open spec fn format_tag(policy_format: PolicyFormat) -> u8 {
    match policy_format {
        PolicyFormat::Cedar => 1,
        PolicyFormat::Json => 2,
    }
}

/// The number that stands for a policy format in a name.
pub fn policy_format_tag(policy_format: PolicyFormat) -> (tag: u8)
    ensures
        tag == format_tag(policy_format),
        policy_format is Cedar ==> tag == 1,
        policy_format is Json ==> tag == 2,
{
    match policy_format {
        PolicyFormat::Cedar => 1,
        PolicyFormat::Json => 2,
    }
}

/// What one of the hashes in a name is taken of.
#[derive(Debug)]
pub enum Source {
    /// The contents of a file, which must be there
    File(String),
    /// The contents of a file; nothing, if it is not there
    FileIfPresent(String),
    /// Nothing
    Nothing,
}

/// What a tree is built from.
#[derive(Debug)]
pub struct Sources {
    /// The policies
    pub policies: Source,
    /// The entities
    pub entities: Source,
    /// The schema
    pub schema: Source,
    /// The links of templates
    pub template_links: Source,
}

impl Source {
    /// Whether this is the file `name`, which must be there.
    pub open spec fn is_file(&self, name: Seq<char>) -> bool {
        self matches Source::File(file) && file@ == name
    }

    /// Whether this is the file `name`, or nothing if it is not there.
    pub open spec fn is_file_if_present(&self, name: Seq<char>) -> bool {
        self matches Source::FileIfPresent(file) && file@ == name
    }

    /// Whether there are contents to hash: of a file that must be there in any
    /// case, of another one if it is `present`, of nothing never.
    pub fn is_hashed(&self, present: bool) -> (r: bool)
        ensures
            r == match *self {
                Source::File(_) => true,
                Source::FileIfPresent(_) => present,
                Source::Nothing => false,
            },
    {
        match self {
            Source::File(_) => true,
            Source::FileIfPresent(_) => present,
            Source::Nothing => false,
        }
    }
}

/// What the tree for these arguments is built from. There is no tree to keep if
/// the policies are not in a file.
pub fn cache_sources(
    policies: &PoliciesArgs,
    entities_file: &str,
    schema_file: Option<&str>,
) -> (sources: Option<Sources>)
    ensures
        sources is Some <==> policies.policies_file is Some,
        sources matches Some(s) ==> {
            &&& s.policies.is_file(policies.policies_file->0@)
            &&& s.entities.is_file(entities_file@)
            &&& match schema_file {
                Some(file) => s.schema.is_file(file@),
                None => s.schema is Nothing,
            }
            &&& match policies.template_linked_file {
                Some(file) => s.template_links.is_file_if_present(file@),
                None => s.template_links is Nothing,
            }
        },
{
    let policies_file = match &policies.policies_file {
        Some(file) => file.clone(),
        None => {
            return None;
        },
    };
    let schema = match schema_file {
        Some(file) => Source::File(file.to_owned()),
        None => Source::Nothing,
    };
    let template_links = match &policies.template_linked_file {
        Some(file) => Source::FileIfPresent(file.clone()),
        None => Source::Nothing,
    };
    Some(
        Sources {
            policies: Source::File(policies_file),
            entities: Source::File(entities_file.to_owned()),
            schema,
            template_links,
        },
    )
}

/// The hashes of what a tree is built from.
#[derive(Debug, Clone, Copy)]
pub struct SourceHashes {
    /// Of the policies
    pub policies: u64,
    /// Of the entities
    pub entities: u64,
    /// Of the schema
    pub schema: u64,
    /// Of the links of templates
    pub template_links: u64,
}

/// The hash that stands for what is not given or not there.
pub const NO_CONTENTS: u64 = 0;

/// The hash of what has contents, and zero for what has none.
pub open spec fn hash_or_zero(contents: Option<u64>) -> u64 {
    match contents {
        Some(hash) => hash,
        None => 0,
    }
}

/// The hash in a name for a source whose contents have the hash `contents`; `None`
/// stands for a source that is not given or not there.
pub fn source_hash(contents: Option<u64>) -> (hash: u64)
    ensures
        hash == hash_or_zero(contents),
        contents matches Some(h) ==> hash == h,
        contents is None ==> hash == 0,
{
    match contents {
        Some(hash) => hash,
        None => NO_CONTENTS,
    }
}

/// The hashes in a name, from those of the contents of each source; `None` stands
/// for a source that is not given or not there.
pub fn source_hashes(
    policies: Option<u64>,
    entities: Option<u64>,
    schema: Option<u64>,
    template_links: Option<u64>,
) -> (hashes: SourceHashes)
    ensures
        hashes.policies == hash_or_zero(policies),
        hashes.entities == hash_or_zero(entities),
        hashes.schema == hash_or_zero(schema),
        hashes.template_links == hash_or_zero(template_links),
        policies matches Some(h) ==> hashes.policies == h,
        entities matches Some(h) ==> hashes.entities == h,
        schema matches Some(h) ==> hashes.schema == h,
        template_links matches Some(h) ==> hashes.template_links == h,
        policies is None ==> hashes.policies == 0,
        entities is None ==> hashes.entities == 0,
        schema is None ==> hashes.schema == 0,
        template_links is None ==> hashes.template_links == 0,
{
    SourceHashes {
        policies: source_hash(policies),
        entities: source_hash(entities),
        schema: source_hash(schema),
        template_links: source_hash(template_links),
    }
}

/// The directories, below the current one, that trees are kept in.
pub open spec fn cache_directory() -> Seq<Seq<char>> {
    seq!["target"@, ".cedar"@, "poltree-cache"@]
}

/// The name of the file in which a tree is kept.
pub open spec fn cache_name(policy_format: PolicyFormat, hashes: SourceHashes) -> Seq<char> {
    "v"@ + decimal(POLTREE_CACHE_VERSION as nat) + "_pf"@ + decimal(
        format_tag(policy_format) as nat,
    ) + "_"@ + hexadecimal(hashes.policies as nat, 16) + "_"@ + hexadecimal(
        hashes.entities as nat,
        16,
    ) + "_"@ + hexadecimal(hashes.schema as nat, 16) + "_"@ + hexadecimal(
        hashes.template_links as nat,
        16,
    ) + ".bin"@
}

/// The name of the file in which the tree built from sources with these hashes
/// is kept.
pub fn cache_file_name(policy_format: PolicyFormat, hashes: SourceHashes) -> (name: String)
    ensures
        name@ == cache_name(policy_format, hashes),
{
    let mut name = "v".to_owned();
    append_decimal(&mut name, POLTREE_CACHE_VERSION as u128);
    name.append("_pf");
    append_decimal(&mut name, policy_format_tag(policy_format) as u128);
    name.append("_");
    append_hexadecimal(&mut name, hashes.policies, 16);
    name.append("_");
    append_hexadecimal(&mut name, hashes.entities, 16);
    name.append("_");
    append_hexadecimal(&mut name, hashes.schema, 16);
    name.append("_");
    append_hexadecimal(&mut name, hashes.template_links, 16);
    name.append(".bin");
    name
}

/// The path of that file below the current directory: its directories, one below
/// the other, and its name.
pub fn cache_path(policy_format: PolicyFormat, hashes: SourceHashes) -> (path: Vec<String>)
    ensures
        texts(path@) == cache_directory().push(cache_name(policy_format, hashes)),
{
    let mut path: Vec<String> = Vec::new();
    path.push("target".to_owned());
    path.push(".cedar".to_owned());
    path.push("poltree-cache".to_owned());
    path.push(cache_file_name(policy_format, hashes));
    assert(texts(path@) =~= cache_directory().push(cache_name(policy_format, hashes)));
    path
}

/// The name tells the format of the policies and all four hashes: two trees are
/// kept under one name only if they agree in them.
pub proof fn names_tell_trees_apart(
    f: PolicyFormat,
    a: SourceHashes,
    g: PolicyFormat,
    b: SourceHashes,
)
    requires
        cache_name(f, a) == cache_name(g, b),
    ensures
        f == g,
        a == b,
{
    lemma_name_parts(f, a);
    lemma_name_parts(g, b);
    decimal_tells_numbers_apart(format_tag(f) as nat, format_tag(g) as nat);
    assert(u64::MAX < hexadecimal_range(16)) by {
        reveal_with_fuel(hexadecimal_range, 17);
    }
    hexadecimal_tells_numbers_apart(a.policies as nat, b.policies as nat, 16);
    hexadecimal_tells_numbers_apart(a.entities as nat, b.entities as nat, 16);
    hexadecimal_tells_numbers_apart(a.schema as nat, b.schema as nat, 16);
    hexadecimal_tells_numbers_apart(a.template_links as nat, b.template_links as nat, 16);
}

/// Where the parts of a name are.
pub proof fn lemma_name_parts(f: PolicyFormat, h: SourceHashes)
    ensures
        cache_name(f, h).subrange(5, 6) == decimal(format_tag(f) as nat),
        cache_name(f, h).subrange(7, 23) == hexadecimal(h.policies as nat, 16),
        cache_name(f, h).subrange(24, 40) == hexadecimal(h.entities as nat, 16),
        cache_name(f, h).subrange(41, 57) == hexadecimal(h.schema as nat, 16),
        cache_name(f, h).subrange(58, 74) == hexadecimal(h.template_links as nat, 16),
{
    reveal_strlit("v");
    reveal_strlit("_pf");
    reveal_strlit("_");
    reveal_strlit(".bin");
    lemma_hexadecimal_len(h.policies as nat, 16);
    lemma_hexadecimal_len(h.entities as nat, 16);
    lemma_hexadecimal_len(h.schema as nat, 16);
    lemma_hexadecimal_len(h.template_links as nat, 16);
}

} // verus!
