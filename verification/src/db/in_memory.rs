//! In-memory implementation of the build database.

use crate::db::{
    build_key, build_key_of, lemma_build_key_injective, BuildHash, BuildInfo, BuildInfoView, DbReader, DbView,
    DbWriter, ExecDb, FileInfo,
};
use vstd::hash_map::{HashMapWithView, StringHashMap};
use vstd::prelude::*;

verus! {

/// A build database held in memory.
pub struct InMemoryDb {
    schema_version: u64,
    build_info: HashMapWithView<u128, BuildInfo>,
    file_info: StringHashMap<FileInfo>,
}

impl InMemoryDb {
    /// A new, empty database of schema version 1.
    pub fn new() -> (db: Self)
        ensures
            db.contents() == DbView::empty(),
            db.spec_schema_version() == 1,
    {
        broadcast use vstd::std_specs::hash::group_hash_axioms;

        let db = InMemoryDb {
            schema_version: 1,
            build_info: HashMapWithView::new(),
            file_info: StringHashMap::new(),
        };
        assert(db.contents().builds =~= Map::<BuildHash, BuildInfoView>::empty());
        db
    }

    /// The schema version of the stored data.
    pub closed spec fn spec_schema_version(&self) -> u64 {
        self.schema_version
    }
}

impl Default for InMemoryDb {
    /// A new, empty database, as [`InMemoryDb::new`] gives.
    fn default() -> (db: Self)
        ensures
            db.contents() == DbView::empty(),
            db.spec_schema_version() == 1,
    {
        InMemoryDb::new()
    }
}

impl DbReader for InMemoryDb {
    closed spec fn contents(&self) -> DbView {
        DbView {
            builds: Map::new(
                |h: BuildHash| self.build_info@.contains_key(build_key(h)),
                |h: BuildHash| self.build_info@[build_key(h)]@,
            ),
            files: self.file_info@,
        }
    }

    fn get_build_info(&self, hash: BuildHash) -> (r: Option<BuildInfo>) {
        let k = build_key_of(&hash);
        match self.build_info.get(&k) {
            Some(info) => Some(info.clone()),
            None => None,
        }
    }

    fn get_file_info(&self, path: &str) -> (r: Option<FileInfo>) {
        match self.file_info.get(path) {
            Some(info) => Some(*info),
            None => None,
        }
    }
}

impl DbWriter for InMemoryDb {
    fn set_build_info(&mut self, hash: BuildHash, info: BuildInfo) {
        let k = build_key_of(&hash);
        let ghost i = info;
        self.build_info.insert(k, info);
        proof {
            assert forall|h: BuildHash| build_key(h) == k implies h == hash by {
                lemma_build_key_injective(h, hash);
            }
            assert(self.contents().builds =~= old(self).contents().builds.insert(hash, i@));
        }
    }

    fn invalidate_build(&mut self, hash: BuildHash) {
        let k = build_key_of(&hash);
        self.build_info.remove(&k);
        proof {
            assert forall|h: BuildHash| build_key(h) == k implies h == hash by {
                lemma_build_key_injective(h, hash);
            }
            assert(self.contents().builds =~= old(self).contents().builds.remove(hash));
        }
    }

    fn set_file_info(&mut self, path: &str, info: FileInfo) {
        self.file_info.insert(path.to_owned(), info);
        assert(self.contents().builds =~= old(self).contents().builds);
    }

    fn invalidate_file(&mut self, path: &str) {
        self.file_info.remove(path);
        assert(self.contents().builds =~= old(self).contents().builds);
    }
}

impl ExecDb for InMemoryDb {
    fn get_schema_version(&self) -> (r: u64)
        ensures
            r == self.spec_schema_version(),
    {
        self.schema_version
    }

    fn reset(&mut self)
        ensures
            final(self).spec_schema_version() == old(self).spec_schema_version(),
    {
        self.build_info.clear();
        self.file_info.clear();
        assert(self.contents().builds =~= Map::<BuildHash, BuildInfoView>::empty());
    }
}


/// A read transaction on an in-memory database: it answers from the
/// database it borrows.
pub struct Reader<'r>(pub &'r InMemoryDb);

/// A write transaction on an in-memory database: it reads and writes the
/// database it borrows.
pub struct Writer<'w>(pub &'w mut InMemoryDb);

impl InMemoryDb {
    /// Begin reading the database.
    pub fn begin_read(&self) -> (r: Reader<'_>)
        ensures
            r.contents() == self.contents(),
    {
        Reader(self)
    }

    /// Begin writing the database.
    pub fn begin_write(&mut self) -> (w: Writer<'_>)
        ensures
            w.contents() == old(self).contents(),
            final(self).contents() == final(w.0).contents(),
    {
        Writer(self)
    }
}

impl<'r> DbReader for Reader<'r> {
    closed spec fn contents(&self) -> DbView {
        self.0.contents()
    }

    fn get_build_info(&self, hash: BuildHash) -> (r: Option<BuildInfo>) {
        self.0.get_build_info(hash)
    }

    fn get_file_info(&self, path: &str) -> (r: Option<FileInfo>) {
        self.0.get_file_info(path)
    }
}

impl<'w> DbReader for Writer<'w> {
    closed spec fn contents(&self) -> DbView {
        self.0.contents()
    }

    fn get_build_info(&self, hash: BuildHash) -> (r: Option<BuildInfo>) {
        self.0.get_build_info(hash)
    }

    fn get_file_info(&self, path: &str) -> (r: Option<FileInfo>) {
        self.0.get_file_info(path)
    }
}

impl<'w> DbWriter for Writer<'w> {
    fn set_build_info(&mut self, hash: BuildHash, info: BuildInfo) {
        self.0.set_build_info(hash, info);
    }

    fn invalidate_build(&mut self, hash: BuildHash) {
        self.0.invalidate_build(hash);
    }

    fn set_file_info(&mut self, path: &str, info: FileInfo) {
        self.0.set_file_info(path, info);
    }

    fn invalidate_file(&mut self, path: &str) {
        self.0.invalidate_file(path);
    }
}

} // verus!
