//! A build database held in memory that keeps a journal of the changes
//! made to it, so that they can be written to lasting storage after a run.

use crate::db::in_memory::InMemoryDb;
use crate::db::{BuildHash, BuildInfo, BuildInfoView, DbReader, DbView, DbWriter, ExecDb, FileInfo};
use vstd::prelude::*;

verus! {

/// A change made to a build database.
#[derive(Debug)]
pub enum DbChange {
    /// The information of a build was recorded.
    SetBuild(BuildHash, BuildInfo),
    /// The information of a build was forgotten.
    InvalidateBuild(BuildHash),
    /// The information of a file was recorded.
    SetFile(String, FileInfo),
    /// The information of a file was forgotten.
    InvalidateFile(String),
    /// Everything was forgotten.
    Reset,
}

/// The mathematical value of a [`DbChange`].
pub enum DbChangeView {
    SetBuild(BuildHash, BuildInfoView),
    InvalidateBuild(BuildHash),
    SetFile(Seq<char>, FileInfo),
    InvalidateFile(Seq<char>),
    Reset,
}

impl View for DbChange {
    type V = DbChangeView;

    open spec fn view(&self) -> DbChangeView {
        match self {
            DbChange::SetBuild(h, i) => DbChangeView::SetBuild(*h, i@),
            DbChange::InvalidateBuild(h) => DbChangeView::InvalidateBuild(*h),
            DbChange::SetFile(p, i) => DbChangeView::SetFile(p@, *i),
            DbChange::InvalidateFile(p) => DbChangeView::InvalidateFile(p@),
            DbChange::Reset => DbChangeView::Reset,
        }
    }
}

/// The views of a list of changes.
pub open spec fn change_views(cs: Seq<DbChange>) -> Seq<DbChangeView> {
    cs.map_values(|c: DbChange| c@)
}

/// The database after one change.
pub open spec fn apply_change(db: DbView, c: DbChangeView) -> DbView {
    match c {
        DbChangeView::SetBuild(h, i) => DbView { builds: db.builds.insert(h, i), files: db.files },
        DbChangeView::InvalidateBuild(h) => DbView { builds: db.builds.remove(h), files: db.files },
        DbChangeView::SetFile(p, i) => DbView { builds: db.builds, files: db.files.insert(p, i) },
        DbChangeView::InvalidateFile(p) => DbView { builds: db.builds, files: db.files.remove(p) },
        DbChangeView::Reset => DbView::empty(),
    }
}

/// The database after the changes, in order.
pub open spec fn apply_changes(db: DbView, cs: Seq<DbChangeView>) -> DbView
    decreases cs.len(),
{
    if cs.len() == 0 {
        db
    } else {
        apply_change(apply_changes(db, cs.drop_last()), cs.last())
    }
}

/// A build database held in memory that keeps a journal of the changes
/// made to it.
pub struct JournalDb {
    mem: InMemoryDb,
    changes: Vec<DbChange>,
    base: Ghost<DbView>,
}

impl JournalDb {
    /// The changes made since the journal was last taken.
    pub closed spec fn spec_changes(&self) -> Seq<DbChangeView> {
        change_views(self.changes@)
    }

    /// The state of the database when the journal was last taken.
    pub closed spec fn spec_base(&self) -> DbView {
        self.base@
    }

    /// The schema version of the stored data.
    pub closed spec fn spec_schema_version(&self) -> u64 {
        self.mem.spec_schema_version()
    }

    /// The journal accounts for the database: the changes applied to the
    /// state it started from give the state it is in.
    pub open spec fn journal_holds(&self) -> bool {
        apply_changes(self.spec_base(), self.spec_changes()) == self.contents()
    }

    /// Keep a journal of the changes made to the database from now on.
    pub fn new(mem: InMemoryDb) -> (r: Self)
        ensures
            r.contents() == mem.contents(),
            r.spec_schema_version() == mem.spec_schema_version(),
            r.spec_base() == mem.contents(),
            r.spec_changes() == Seq::<DbChangeView>::empty(),
            r.journal_holds(),
    {
        let ghost base = mem.contents();
        let r = JournalDb { mem, changes: Vec::new(), base: Ghost(base) };
        assert(r.spec_changes() =~= Seq::<DbChangeView>::empty());
        r
    }

    /// Take the changes made so far; the journal starts again from the
    /// present state.
    pub fn take_changes(&mut self) -> (r: Vec<DbChange>)
        ensures
            change_views(r@) == old(self).spec_changes(),
            final(self).contents() == old(self).contents(),
            final(self).spec_base() == old(self).contents(),
            final(self).spec_changes() == Seq::<DbChangeView>::empty(),
            final(self).journal_holds(),
    {
        let mut r: Vec<DbChange> = Vec::new();
        std::mem::swap(&mut r, &mut self.changes);
        self.base = Ghost(self.mem.contents());
        assert(self.spec_changes() =~= Seq::<DbChangeView>::empty());
        r
    }

    /// Stop keeping a journal, and get the database back.
    pub fn into_inner(self) -> (r: InMemoryDb)
        ensures
            r.contents() == self.contents(),
            r.spec_schema_version() == self.spec_schema_version(),
    {
        self.mem
    }

    /// Record a change in the journal.
    fn log(&mut self, c: DbChange)
        ensures
            final(self).mem == old(self).mem,
            final(self).base == old(self).base,
            final(self).spec_changes() == old(self).spec_changes().push(c@),
    {
        self.changes.push(c);
        assert(self.spec_changes() =~= old(self).spec_changes().push(c@));
    }
}

impl DbReader for JournalDb {
    closed spec fn contents(&self) -> DbView {
        self.mem.contents()
    }

    fn get_build_info(&self, hash: BuildHash) -> (r: Option<BuildInfo>) {
        self.mem.get_build_info(hash)
    }

    fn get_file_info(&self, path: &str) -> (r: Option<FileInfo>) {
        self.mem.get_file_info(path)
    }
}

impl DbWriter for JournalDb {
    fn set_build_info(&mut self, hash: BuildHash, info: BuildInfo)
        ensures
            final(self).spec_changes() == old(self).spec_changes().push(DbChangeView::SetBuild(hash, info@)),
            old(self).journal_holds() ==> final(self).journal_holds(),
    {
        let copy = info.clone();
        self.mem.set_build_info(hash, info);
        self.log(DbChange::SetBuild(hash, copy));
        proof {
            lemma_replay_one_more(old(self).spec_base(), old(self).spec_changes(), DbChangeView::SetBuild(hash, copy@));
        }
    }

    fn invalidate_build(&mut self, hash: BuildHash)
        ensures
            final(self).spec_changes() == old(self).spec_changes().push(DbChangeView::InvalidateBuild(hash)),
            old(self).journal_holds() ==> final(self).journal_holds(),
    {
        self.mem.invalidate_build(hash);
        self.log(DbChange::InvalidateBuild(hash));
        proof {
            lemma_replay_one_more(old(self).spec_base(), old(self).spec_changes(), DbChangeView::InvalidateBuild(hash));
        }
    }

    fn set_file_info(&mut self, path: &str, info: FileInfo)
        ensures
            final(self).spec_changes() == old(self).spec_changes().push(DbChangeView::SetFile(path@, info)),
            old(self).journal_holds() ==> final(self).journal_holds(),
    {
        self.mem.set_file_info(path, info);
        self.log(DbChange::SetFile(path.to_owned(), info));
        proof {
            lemma_replay_one_more(old(self).spec_base(), old(self).spec_changes(), DbChangeView::SetFile(path@, info));
        }
    }

    fn invalidate_file(&mut self, path: &str)
        ensures
            final(self).spec_changes() == old(self).spec_changes().push(DbChangeView::InvalidateFile(path@)),
            old(self).journal_holds() ==> final(self).journal_holds(),
    {
        self.mem.invalidate_file(path);
        self.log(DbChange::InvalidateFile(path.to_owned()));
        proof {
            lemma_replay_one_more(old(self).spec_base(), old(self).spec_changes(), DbChangeView::InvalidateFile(path@));
        }
    }
}

impl ExecDb for JournalDb {
    fn get_schema_version(&self) -> (r: u64)
        ensures
            r == self.spec_schema_version(),
    {
        self.mem.get_schema_version()
    }

    fn reset(&mut self)
        ensures
            final(self).spec_changes() == old(self).spec_changes().push(DbChangeView::Reset),
            old(self).journal_holds() ==> final(self).journal_holds(),
            final(self).spec_schema_version() == old(self).spec_schema_version(),
    {
        self.mem.reset();
        self.log(DbChange::Reset);
        proof {
            lemma_replay_one_more(old(self).spec_base(), old(self).spec_changes(), DbChangeView::Reset);
        }
    }
}

/// Replaying the journal onto the state it started from gives the state
/// after one more change, once that change is in the journal too: the
/// journal is a faithful record, change by change.
pub proof fn lemma_replay_one_more(base: DbView, cs: Seq<DbChangeView>, c: DbChangeView)
    ensures
        apply_changes(base, cs.push(c)) == apply_change(apply_changes(base, cs), c),
{
    assert(cs.push(c).drop_last() =~= cs);
}

} // verus!
