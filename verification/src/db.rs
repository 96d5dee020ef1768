//! Caches the current build status.
//!
//! The database records, for every build that ran, when it last started and
//! finished and the hash of its input set, and for every output file, which
//! build produced it and when it was last seen.

pub mod in_memory;
pub mod journal;
pub mod redb;

use crate::bytes::{le_value, lemma_le_value_injective, read_le_u128};
use vstd::prelude::*;

verus! {

/// A point in time, as nanoseconds since the Unix epoch.
pub type Timestamp = u128;

/// A hash that uniquely identifies a build command.
///
/// Generate one with [`crate::graph::hash_build`].
#[derive(Clone, Copy, PartialEq, Eq, Hash, Debug)]
pub struct BuildHash(pub [u8; 16]);

/// A hash of a build's input environments.
///
/// Generate one with [`crate::graph::hash_input_set`].
#[derive(Clone, Copy, PartialEq, Eq, Hash, Debug)]
pub struct InputHash(pub [u8; 16]);

/// The information associated with a specific file in the DB.
#[derive(Clone, Copy, Debug)]
pub struct FileInfo {
    /// The timestamp of the file when it was last checked in the build system
    pub last_seen: Timestamp,
    /// The build that generated this file
    pub generated_by: BuildHash,
}

/// The information associated with a specific build in the DB.
#[derive(Debug)]
pub struct BuildInfo {
    /// The last time this build was started
    pub last_start: Timestamp,
    /// The last time this build was successfully completed
    pub last_end: Option<Timestamp>,
    /// The hash of the fixed input set (file, env var, etc.) to this build when
    /// it last ran.
    pub input_set_digest: InputHash,
    /// Additional inputs that were not part of the input set hash, but
    /// should be considered as dependencies for this build.
    pub additional_inputs: Vec<String>,
}


/// The mathematical value of a [`BuildInfo`].
pub struct BuildInfoView {
    pub last_start: Timestamp,
    pub last_end: Option<Timestamp>,
    pub input_set_digest: InputHash,
    pub additional_inputs: Seq<Seq<char>>,
}

impl View for BuildInfo {
    type V = BuildInfoView;

    open spec fn view(&self) -> BuildInfoView {
        BuildInfoView {
            last_start: self.last_start,
            last_end: self.last_end,
            input_set_digest: self.input_set_digest,
            additional_inputs: self.additional_inputs@.map_values(|s: String| s@),
        }
    }
}

/// The view of an optional build information.
pub open spec fn opt_build_view(o: Option<BuildInfo>) -> Option<BuildInfoView> {
    match o {
        Some(i) => Some(i@),
        None => None,
    }
}

impl Clone for BuildInfo {
    fn clone(&self) -> (r: Self)
        ensures
            r@ == self@,
    {
        let mut inputs: Vec<String> = Vec::new();
        let mut i: usize = 0;
        while i < self.additional_inputs.len()
            invariant
                i <= self.additional_inputs@.len(),
                inputs@ == self.additional_inputs@.take(i as int),
            decreases self.additional_inputs@.len() - i,
        {
            inputs.push(self.additional_inputs[i].clone());
            proof {
                assert(self.additional_inputs@.take(i + 1) =~= self.additional_inputs@.take(i as int).push(
                    self.additional_inputs@[i as int],
                ));
            }
            i = i + 1;
        }
        assert(self.additional_inputs@.take(i as int) =~= self.additional_inputs@);
        assert(inputs@.map_values(|s: String| s@) =~= self.additional_inputs@.map_values(|s: String| s@));
        BuildInfo {
            last_start: self.last_start,
            last_end: self.last_end,
            input_set_digest: self.input_set_digest,
            additional_inputs: inputs,
        }
    }
}

/// The integer key under which a build hash is stored: its bytes read as a
/// little-endian number.
pub open spec fn build_key(h: BuildHash) -> u128 {
    le_value(h.0@) as u128
}

/// Distinct build hashes have distinct keys.
pub proof fn lemma_build_key_injective(a: BuildHash, b: BuildHash)
    requires
        build_key(a) == build_key(b),
    ensures
        a == b,
{
    broadcast use vstd::array::group_array_axioms;

    assert(a.0@.len() == 16 && b.0@.len() == 16);
    crate::bytes::lemma_le_value_bound(a.0@);
    crate::bytes::lemma_le_value_bound(b.0@);
    crate::bytes::lemma_pow256_16();
    lemma_le_value_injective(a.0@, b.0@);
    assert(a.0 =~= b.0);
}

/// The key of a build hash.
pub fn build_key_of(h: &BuildHash) -> (k: u128)
    ensures
        k == build_key(*h),
{
    broadcast use vstd::array::group_array_axioms;

    let s = h.0.as_slice();
    assert(s@.len() == 16);
    let k = read_le_u128(s, 0);
    assert(s@.subrange(0, 16) =~= h.0@);
    k
}

/// The integer an input hash is compared by: its bytes read as a
/// little-endian number.
pub open spec fn input_key(h: InputHash) -> u128 {
    le_value(h.0@) as u128
}

/// Distinct input hashes have distinct keys.
pub proof fn lemma_input_key_injective(a: InputHash, b: InputHash)
    requires
        input_key(a) == input_key(b),
    ensures
        a == b,
{
    broadcast use vstd::array::group_array_axioms;

    assert(a.0@.len() == 16 && b.0@.len() == 16);
    crate::bytes::lemma_le_value_bound(a.0@);
    crate::bytes::lemma_le_value_bound(b.0@);
    crate::bytes::lemma_pow256_16();
    lemma_le_value_injective(a.0@, b.0@);
    assert(a.0 =~= b.0);
}

/// The key of an input hash.
pub fn input_key_of(h: &InputHash) -> (k: u128)
    ensures
        k == input_key(*h),
{
    broadcast use vstd::array::group_array_axioms;

    let s = h.0.as_slice();
    assert(s@.len() == 16);
    let k = read_le_u128(s, 0);
    assert(s@.subrange(0, 16) =~= h.0@);
    k
}

/// Whether two build hashes are equal.
pub fn same_build_hash(a: &BuildHash, b: &BuildHash) -> (r: bool)
    ensures
        r == (*a == *b),
{
    let r = build_key_of(a) == build_key_of(b);
    proof {
        if r {
            lemma_build_key_injective(*a, *b);
        }
    }
    r
}

/// Whether two input hashes are equal.
pub fn same_input_hash(a: &InputHash, b: &InputHash) -> (r: bool)
    ensures
        r == (*a == *b),
{
    let r = input_key_of(a) == input_key_of(b);
    proof {
        if r {
            lemma_input_key_injective(*a, *b);
        }
    }
    r
}

/// The input hash of a build: the first half of its input set digest.
pub fn input_hash_of_digest(d: &[u8; 32]) -> (h: InputHash)
    ensures
        h.0@ == d@.subrange(0, 16),
{
    let mut a: [u8; 16] = [0u8; 16];
    let mut i: usize = 0;
    while i < 16
        invariant
            i <= 16,
            d@.len() == 32,
            a@.len() == 16,
            forall|j: int| 0 <= j < i ==> a@[j] == d@[j],
        decreases 16 - i,
    {
        a.set(i, d[i]);
        i = i + 1;
    }
    assert(a@ =~= d@.subrange(0, 16));
    InputHash(a)
}

/// What a build database holds.
pub struct DbView {
    /// The information of each build that is recorded.
    pub builds: Map<BuildHash, BuildInfoView>,
    /// The information of each file that is recorded, by path.
    pub files: Map<Seq<char>, FileInfo>,
}

impl DbView {
    /// The empty database.
    pub open spec fn empty() -> DbView {
        DbView { builds: Map::empty(), files: Map::empty() }
    }

    /// The information recorded for a build, if any.
    pub open spec fn build_info(self, h: BuildHash) -> Option<BuildInfoView> {
        if self.builds.contains_key(h) {
            Some(self.builds[h])
        } else {
            None
        }
    }

    /// The information recorded for a file, if any.
    pub open spec fn file_info(self, p: Seq<char>) -> Option<FileInfo> {
        if self.files.contains_key(p) {
            Some(self.files[p])
        } else {
            None
        }
    }
}

/// Trait for reading from the build database.
///
/// Implementations answer from one consistent state of the database: as
/// long as the reader is not mutated, the same query gets the same answer.
pub trait DbReader {
    /// The state of the database this reader answers from.
    spec fn contents(&self) -> DbView;

    /// The information recorded for the build, if any.
    fn get_build_info(&self, hash: BuildHash) -> (r: Option<BuildInfo>)
        ensures
            opt_build_view(r) == self.contents().build_info(hash),
    ;

    /// The information recorded for the file, if any.
    fn get_file_info(&self, path: &str) -> (r: Option<FileInfo>)
        ensures
            r == self.contents().file_info(path@),
    ;
}

/// Trait for writing to the build database.
pub trait DbWriter: DbReader {
    /// Record the information of a build, replacing what was recorded.
    fn set_build_info(&mut self, hash: BuildHash, info: BuildInfo)
        ensures
            final(self).contents() == (DbView {
                builds: old(self).contents().builds.insert(hash, info@),
                files: old(self).contents().files,
            }),
    ;

    /// Forget the information of a build.
    fn invalidate_build(&mut self, hash: BuildHash)
        ensures
            final(self).contents() == (DbView {
                builds: old(self).contents().builds.remove(hash),
                files: old(self).contents().files,
            }),
    ;

    /// Record the information of a file, replacing what was recorded.
    fn set_file_info(&mut self, path: &str, info: FileInfo)
        ensures
            final(self).contents() == (DbView {
                builds: old(self).contents().builds,
                files: old(self).contents().files.insert(path@, info),
            }),
    ;

    /// Forget the information of a file.
    fn invalidate_file(&mut self, path: &str)
        ensures
            final(self).contents() == (DbView {
                builds: old(self).contents().builds,
                files: old(self).contents().files.remove(path@),
            }),
    ;
}

/// A trait for the database caching build and file information.
pub trait ExecDb: DbWriter {
    /// Get the schema version of stored data.
    fn get_schema_version(&self) -> u64;

    /// Destroy all stored data and reset to an empty state.
    ///
    /// This might be used on schema version mismatch.
    fn reset(&mut self)
        ensures
            final(self).contents() == DbView::empty(),
    ;
}

} // verus!
