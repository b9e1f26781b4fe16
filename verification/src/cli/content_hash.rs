//! The hash of a file's contents, taken while the file is read.

use vstd::prelude::*;
use vstd::slice::slice_subrange;
use xxhash_rust::xxh3::Xxh3;

verus! {

/// `xxhash_rust::xxh3::Xxh3`, a hasher that is given its input piece by piece.
#[verifier::external_type_specification]
#[verifier::external_body]
pub struct ExXxh3(Xxh3);

/// The bytes that a hasher was given.
pub uninterp spec fn xxh3_input(hasher: Xxh3) -> Seq<u8>;

/// Whether a hasher has the default secret and no seed.
pub uninterp spec fn xxh3_is_default(hasher: Xxh3) -> bool;

/// The 64-bit XXH3 hash of `bytes`, with the default secret and no seed.
pub uninterp spec fn xxh3_64(bytes: Seq<u8>) -> u64;

/// `Xxh3::new`: a hasher with the default secret and no seed, which was given
/// nothing.
pub assume_specification[ Xxh3::new ]() -> (hasher: Xxh3)
    ensures
        xxh3_is_default(hasher),
        xxh3_input(hasher) == Seq::<u8>::empty(),
;

/// `Xxh3::update`: the hasher was given `input` after what it was given before.
pub assume_specification[ Xxh3::update ](hasher: &mut Xxh3, input: &[u8])
    ensures
        xxh3_is_default(*final(hasher)) == xxh3_is_default(*old(hasher)),
        xxh3_input(*final(hasher)) == xxh3_input(*old(hasher)) + input@,
;

/// `Xxh3::digest`: the hash of the bytes that the hasher was given, however they
/// were split into pieces.
pub assume_specification[ Xxh3::digest ](hasher: &Xxh3) -> (hash: u64)
    ensures
        xxh3_is_default(*hasher) ==> hash == xxh3_64(xxh3_input(*hasher)),
;

/// The hash of the bytes of a file that were read so far.
pub struct ContentHash {
    hasher: Xxh3,
}

impl ContentHash {
    /// Hashers keep the default settings.
    pub closed spec fn wf(&self) -> bool {
        xxh3_is_default(self.hasher)
    }

    /// Nothing was read.
    pub fn new() -> (r: Self)
        ensures
            r.wf(),
            r@ == Seq::<u8>::empty(),
    {
        ContentHash { hasher: Xxh3::new() }
    }

    /// Takes note of one read into `buffer`, of `read` bytes. Says whether there
    /// may be more to read: a read of nothing is the end of the file.
    pub fn feed(&mut self, buffer: &[u8], read: usize) -> (more: bool)
        requires
            old(self).wf(),
            read <= buffer@.len(),
        ensures
            final(self).wf(),
            final(self)@ == old(self)@ + buffer@.take(read as int),
            more == (read > 0),
    {
        if read == 0 {
            assert(self@ + buffer@.take(0) =~= self@);
            return false;
        }
        self.hasher.update(slice_subrange(buffer, 0, read));
        true
    }

    /// The hash of what was read.
    pub fn digest(&self) -> (hash: u64)
        requires
            self.wf(),
        ensures
            hash == xxh3_64(self@),
    {
        self.hasher.digest()
    }
}

impl View for ContentHash {
    type V = Seq<u8>;

    closed spec fn view(&self) -> Seq<u8> {
        xxh3_input(self.hasher)
    }
}

/// What was read after a number of reads, one after the other.
pub open spec fn after_reads(before: Seq<u8>, reads: Seq<Seq<u8>>) -> Seq<u8>
    decreases reads.len(),
{
    if reads.len() == 0 {
        before
    } else {
        after_reads(before, reads.drop_last()) + reads.last()
    }
}

/// A file's hash does not depend on how it was read: reads that come to the same
/// contents give the same hash.
pub proof fn hash_depends_on_contents_only(reads: Seq<Seq<u8>>, others: Seq<Seq<u8>>)
    requires
        reads.flatten() == others.flatten(),
    ensures
        xxh3_64(after_reads(Seq::empty(), reads)) == xxh3_64(after_reads(Seq::empty(), others)),
{
    lemma_after_reads(reads);
    lemma_after_reads(others);
}

proof fn lemma_after_reads(reads: Seq<Seq<u8>>)
    ensures
        after_reads(Seq::empty(), reads) == reads.flatten(),
    decreases reads.len(),
{
    reads.lemma_flatten_and_flatten_alt_are_equivalent();
    if reads.len() > 0 {
        lemma_after_reads(reads.drop_last());
        reads.drop_last().lemma_flatten_and_flatten_alt_are_equivalent();
    }
}

} // verus!
