use cloppy_ntfs::errors::ErrorKind;
use cloppy_ntfs::file_entity::FileEntity;
use cloppy_ntfs::file_entity::FileId;
use cloppy_ntfs::file_entity::FileType;
use cloppy_ntfs::files::Files;
use cloppy_ntfs::files::ResumeKey;

fn root() -> FileEntity {
    FileEntity::new(FileId::directory(5), FileId::directory(5), ".".to_string(), 0, 0x02)
}

fn dir_a() -> FileEntity {
    FileEntity::new(FileId::directory(40), FileId::directory(5), "A".to_string(), 0, 0x02)
}

fn file_a_txt() -> FileEntity {
    FileEntity::new(FileId::file(41), FileId::directory(40), "a.txt".to_string(), 12, 0)
}

fn small_index() -> Files {
    let mut files = Files::new(8);
    // out of order on purpose: the child arrives before its parent
    files.bulk_add(vec![file_a_txt(), dir_a(), root()]);
    files
}

#[test]
fn file_id_accessors() {
    let id = FileId::file(7);
    assert_eq!(7, id.id());
    assert_eq!(FileType::FILE, id.f_type());
    let id = FileId::directory(7);
    assert_eq!(FileType::DIRECTORY, id.f_type());
    assert_ne!(FileId::file(7), FileId::directory(7));
}

#[test]
fn entity_accessors() {
    let e = file_a_txt();
    assert_eq!(FileId::file(41), e.id());
    assert_eq!(FileId::directory(40), e.parent_id());
    assert_eq!("a.txt", e.name());
    assert_eq!(12, e.size());
    assert_eq!(0, e.flags());
}

#[test]
fn end_to_end_synthetic_index() {
    let files = small_index();
    let path = files.path_of(FileId::file(41)).unwrap();
    assert_eq!(vec!["A".to_string(), "a.txt".to_string()], path);
    // both "A" and "a.txt" match a case-insensitive substring search
    assert_eq!(2, files.count("a"));
    let (page, _) = files.search("a.txt", 10, None);
    assert_eq!(1, page.len());
    assert_eq!(FileId::file(41), page[0].id());
}

#[test]
fn path_of_root_direct_child() {
    let files = small_index();
    let path = files.path_of(FileId::directory(40)).unwrap();
    assert_eq!(vec!["A".to_string()], path);
}

#[test]
fn path_of_removed_entity_is_broken_chain() {
    let mut files = small_index();
    files.remove(FileId::file(41));
    assert_eq!(ErrorKind::BrokenChain, files.path_of(FileId::file(41)).unwrap_err());
}

#[test]
fn path_of_dangling_parent_is_broken_chain() {
    let mut files = small_index();
    files.remove(FileId::directory(40));
    assert_eq!(ErrorKind::BrokenChain, files.path_of(FileId::file(41)).unwrap_err());
}

#[test]
fn upsert_then_remove_leaves_no_trace() {
    let mut files = small_index();
    let ghostly = FileEntity::new(
        FileId::file(99),
        FileId::directory(5),
        "apparition.txt".to_string(),
        1,
        0,
    );
    files.upsert(ghostly);
    assert_eq!(3, files.count("a"));
    files.remove(FileId::file(99));
    let (page, _) = files.search("a", 100, None);
    assert_eq!(2, page.len());
    assert!(page.iter().all(|e| e.id() != FileId::file(99)));
}

#[test]
fn upsert_is_idempotent() {
    let mut files = small_index();
    files.upsert(file_a_txt());
    files.upsert(file_a_txt());
    assert_eq!(1, files.count("a.txt"));
}

#[test]
fn remove_absent_is_a_no_op() {
    let mut files = small_index();
    files.remove(FileId::file(1234));
    assert_eq!(2, files.count("a"));
}

#[test]
fn upsert_replaces_by_identity() {
    let mut files = small_index();
    let renamed = FileEntity::new(
        FileId::file(41),
        FileId::directory(40),
        "b.txt".to_string(),
        15,
        0,
    );
    files.upsert(renamed);
    assert_eq!(0, files.count("a.txt"));
    let (page, _) = files.search("b.txt", 10, None);
    assert_eq!(1, page.len());
    assert_eq!(15, page[0].size());
}

#[test]
fn search_pages_are_disjoint_and_rebuild_the_whole() {
    let mut files = Files::new(16);
    let mut batch = Vec::new();
    for i in 0..7u32 {
        batch.push(FileEntity::new(
            FileId::file(100 + i),
            FileId::directory(5),
            format!("note{}.md", i),
            i as i64,
            0,
        ));
    }
    files.bulk_add(batch);
    let (all, _) = files.search("note", 100, None);
    assert_eq!(7, all.len());
    let (page1, key1) = files.search("note", 3, None);
    assert_eq!(3, page1.len());
    let key1: ResumeKey = key1.unwrap();
    let (page2, key2) = files.search("note", 3, Some(&key1));
    assert_eq!(3, page2.len());
    let key2: ResumeKey = key2.unwrap();
    let (page3, key3) = files.search("note", 3, Some(&key2));
    assert_eq!(1, page3.len());
    assert!(key3.is_none());
    let mut joined = Vec::new();
    joined.extend(page1);
    joined.extend(page2);
    joined.extend(page3);
    assert_eq!(all, joined);
    for i in 0..joined.len() {
        for j in i + 1..joined.len() {
            assert_ne!(joined[i].id(), joined[j].id());
        }
    }
}

#[test]
fn search_is_case_insensitive() {
    let mut files = Files::new(4);
    files.upsert(FileEntity::new(
        FileId::file(1),
        FileId::directory(5),
        "ReadMe.TXT".to_string(),
        0,
        0,
    ));
    assert_eq!(1, files.count("readme"));
    assert_eq!(1, files.count("README.txt"));
    assert_eq!(0, files.count("readmex"));
    let (page, _) = files.search("me.t", 10, None);
    assert_eq!(1, page.len());
}

#[test]
fn search_orders_by_name_then_id() {
    let mut files = Files::new(8);
    files.bulk_add(vec![
        FileEntity::new(FileId::file(3), FileId::directory(5), "b".to_string(), 0, 0),
        FileEntity::new(FileId::file(2), FileId::directory(5), "a".to_string(), 0, 0),
        FileEntity::new(FileId::directory(2), FileId::directory(5), "a".to_string(), 0, 2),
    ]);
    let (page, _) = files.search("", 10, None);
    assert_eq!(3, page.len());
    assert_eq!("a", page[0].name());
    assert_eq!(FileId::directory(2), page[0].id());
    assert_eq!(FileId::file(2), page[1].id());
    assert_eq!("b", page[2].name());
}
