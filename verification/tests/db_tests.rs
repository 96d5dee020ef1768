//! The build database held in memory.

use n2o5::db::in_memory::InMemoryDb;
use n2o5::db::journal::{DbChange, JournalDb};
use n2o5::db::{BuildHash, BuildInfo, DbReader, DbWriter, ExecDb, FileInfo, InputHash};

fn info(start: u128) -> BuildInfo {
    BuildInfo {
        last_start: start,
        last_end: Some(start + 5),
        input_set_digest: InputHash([7; 16]),
        additional_inputs: vec!["extra.h".to_string()],
    }
}

#[test]
fn build_record_reads_back_what_was_written() {
    let mut db = InMemoryDb::new();
    let h = BuildHash([1; 16]);
    let other = BuildHash([2; 16]);
    assert!(db.get_build_info(h).is_none());
    db.set_build_info(h, info(10));
    let got = db.get_build_info(h).unwrap();
    assert_eq!(got.last_start, 10);
    assert_eq!(got.last_end, Some(15));
    assert_eq!(got.input_set_digest, InputHash([7; 16]));
    assert_eq!(got.additional_inputs, vec!["extra.h".to_string()]);
    assert!(db.get_build_info(other).is_none());
    db.set_build_info(h, info(20));
    assert_eq!(db.get_build_info(h).unwrap().last_start, 20);
}

#[test]
fn file_record_reads_back_what_was_written() {
    let mut db = InMemoryDb::new();
    let fi = FileInfo { last_seen: 3, generated_by: BuildHash([9; 16]) };
    db.set_file_info("out.o", fi);
    let got = db.get_file_info("out.o").unwrap();
    assert_eq!(got.last_seen, 3);
    assert_eq!(got.generated_by, BuildHash([9; 16]));
    assert!(db.get_file_info("other.o").is_none());
}

#[test]
fn removed_records_read_as_absent() {
    let mut db = InMemoryDb::new();
    let h = BuildHash([1; 16]);
    db.set_build_info(h, info(1));
    db.set_file_info("a", FileInfo { last_seen: 1, generated_by: h });
    db.invalidate_build(h);
    db.invalidate_file("a");
    assert!(db.get_build_info(h).is_none());
    assert!(db.get_file_info("a").is_none());
}

#[test]
fn reset_empties_the_database() {
    let mut db = InMemoryDb::new();
    assert_eq!(db.get_schema_version(), 1);
    let h = BuildHash([1; 16]);
    db.set_build_info(h, info(1));
    db.set_file_info("a", FileInfo { last_seen: 1, generated_by: h });
    db.reset();
    assert!(db.get_build_info(h).is_none());
    assert!(db.get_file_info("a").is_none());
}

#[test]
fn transactions_read_and_write_the_database() {
    let mut db = InMemoryDb::new();
    let h = BuildHash([4; 16]);
    {
        let mut w = db.begin_write();
        w.set_file_info("x", FileInfo { last_seen: 8, generated_by: h });
        assert!(w.get_file_info("x").is_some());
    }
    let r = db.begin_read();
    assert_eq!(r.get_file_info("x").unwrap().last_seen, 8);
    assert!(r.get_build_info(h).is_none());
}

#[test]
fn journal_records_each_change_in_order() {
    let mut base = InMemoryDb::new();
    let h = BuildHash([3; 16]);
    base.set_file_info("old", FileInfo { last_seen: 1, generated_by: h });
    let mut db = JournalDb::new(base);
    assert!(db.get_file_info("old").is_some());
    db.set_build_info(h, info(5));
    db.set_file_info("new", FileInfo { last_seen: 5, generated_by: h });
    db.invalidate_file("old");
    let changes = db.take_changes();
    assert_eq!(changes.len(), 3);
    assert!(matches!(&changes[0], DbChange::SetBuild(x, i) if *x == h && i.last_start == 5));
    assert!(matches!(&changes[1], DbChange::SetFile(p, i) if p == "new" && i.last_seen == 5));
    assert!(matches!(&changes[2], DbChange::InvalidateFile(p) if p == "old"));
    assert!(db.take_changes().is_empty());
    db.reset();
    let changes = db.take_changes();
    assert!(matches!(&changes[..], [DbChange::Reset]));
    let mem = db.into_inner();
    assert!(mem.get_file_info("new").is_none());
}
