use markdown_fs::errors::FsErrorKind;
use markdown_fs::listing::EntryFilter;
use markdown_fs::store::FileStore;

fn store_with_tmp() -> FileStore {
    let mut st = FileStore::new();
    st.create_dir(&String::from("/tmp")).unwrap();
    st
}

#[test]
fn scenario_markdown_note_lifecycle() {
    let mut st = store_with_tmp();
    let path = String::from("/tmp/t.md");
    st.create_file(&path, &String::from("# Title")).unwrap();
    assert_eq!(st.read_file(&path).unwrap(), "# Title");
    st.update_file(&path, &String::from("# New")).unwrap();
    assert_eq!(st.read_file(&path).unwrap(), "# New");
    st.delete_file(&path).unwrap();
    let err = st.read_file(&path).unwrap_err();
    assert_eq!(err.kind, FsErrorKind::NotFound);
}

#[test]
fn create_then_read_round_trip() {
    let mut st = store_with_tmp();
    let path = String::from("/tmp/notes.md");
    let content = String::from("line one\nline two\n");
    st.create_file(&path, &content).unwrap();
    assert_eq!(st.read_file(&path).unwrap(), content);
}

#[test]
fn create_then_read_empty_content() {
    let mut st = store_with_tmp();
    let path = String::from("/tmp/empty.md");
    st.create_file(&path, &String::from("")).unwrap();
    assert_eq!(st.read_file(&path).unwrap(), "");
}

#[test]
fn create_truncates_existing_file() {
    let mut st = store_with_tmp();
    let path = String::from("/tmp/a.md");
    st.create_file(&path, &String::from("a much longer original text")).unwrap();
    st.create_file(&path, &String::from("short")).unwrap();
    assert_eq!(st.read_file(&path).unwrap(), "short");
}

#[test]
fn update_overwrites_in_full_not_append() {
    let mut st = store_with_tmp();
    let path = String::from("/tmp/a.md");
    st.create_file(&path, &String::from("original content")).unwrap();
    st.update_file(&path, &String::from("new")).unwrap();
    assert_eq!(st.read_file(&path).unwrap(), "new");
}

#[test]
fn update_missing_file_fails() {
    let mut st = store_with_tmp();
    let err = st.update_file(&String::from("/tmp/missing.md"), &String::from("x")).unwrap_err();
    assert_eq!(err.kind, FsErrorKind::NotFound);
}

#[test]
fn delete_missing_file_fails() {
    let mut st = store_with_tmp();
    let err = st.delete_file(&String::from("/tmp/missing.md")).unwrap_err();
    assert_eq!(err.kind, FsErrorKind::NotFound);
    assert_eq!(err.message, "no such file or directory");
}

#[test]
fn delete_twice_fails_the_second_time() {
    let mut st = store_with_tmp();
    let path = String::from("/tmp/a.md");
    st.create_file(&path, &String::from("x")).unwrap();
    st.delete_file(&path).unwrap();
    let err = st.delete_file(&path).unwrap_err();
    assert_eq!(err.kind, FsErrorKind::NotFound);
}

#[test]
fn create_file_without_parent_directory_fails() {
    let mut st = FileStore::new();
    let err = st.create_file(&String::from("/tmp/a.md"), &String::from("x")).unwrap_err();
    assert_eq!(err.kind, FsErrorKind::NotFound);
    let err = st.create_file(&String::from("noslash"), &String::from("x")).unwrap_err();
    assert_eq!(err.kind, FsErrorKind::NotFound);
}

#[test]
fn create_file_over_directory_fails() {
    let mut st = store_with_tmp();
    let err = st.create_file(&String::from("/tmp"), &String::from("x")).unwrap_err();
    assert_eq!(err.kind, FsErrorKind::Other);
    assert_eq!(err.message, "is a directory");
}

#[test]
fn create_dir_twice_fails() {
    let mut st = store_with_tmp();
    let err = st.create_dir(&String::from("/tmp")).unwrap_err();
    assert_eq!(err.kind, FsErrorKind::AlreadyExists);
    assert_eq!(err.message, "file exists");
}

#[test]
fn create_dir_over_file_fails() {
    let mut st = store_with_tmp();
    st.create_file(&String::from("/tmp/a.md"), &String::from("x")).unwrap();
    let err = st.create_dir(&String::from("/tmp/a.md")).unwrap_err();
    assert_eq!(err.kind, FsErrorKind::AlreadyExists);
}

#[test]
fn scenario_listing_one_subdir_one_file() {
    let mut st = store_with_tmp();
    st.create_dir(&String::from("/tmp/sub")).unwrap();
    st.create_file(&String::from("/tmp/a.md"), &String::from("x")).unwrap();

    let mut all = st.list_directory(&String::from("/tmp"), EntryFilter::AllEntries).unwrap();
    all.sort();
    assert_eq!(all, vec![String::from("a.md"), String::from("sub")]);

    let dirs_only = st.list_directory(&String::from("/tmp"), EntryFilter::DirectoriesOnly).unwrap();
    assert_eq!(dirs_only, vec![String::from("sub")]);
}

#[test]
fn listing_sees_only_direct_children() {
    let mut st = store_with_tmp();
    st.create_dir(&String::from("/tmp/sub")).unwrap();
    st.create_file(&String::from("/tmp/sub/deep.md"), &String::from("x")).unwrap();
    st.create_file(&String::from("/tmp/top.md"), &String::from("x")).unwrap();

    let mut all = st.list_directory(&String::from("/tmp"), EntryFilter::AllEntries).unwrap();
    all.sort();
    assert_eq!(all, vec![String::from("sub"), String::from("top.md")]);

    let sub = st.list_directory(&String::from("/tmp/sub"), EntryFilter::AllEntries).unwrap();
    assert_eq!(sub, vec![String::from("deep.md")]);
}

#[test]
fn listing_root_directory() {
    let st = store_with_tmp();
    let root = st.list_directory(&String::from(""), EntryFilter::AllEntries).unwrap();
    assert_eq!(root, vec![String::from("tmp")]);
}

#[test]
fn listing_missing_directory_fails() {
    let st = FileStore::new();
    let err = st.list_directory(&String::from("/nowhere"), EntryFilter::AllEntries).unwrap_err();
    assert_eq!(err.kind, FsErrorKind::NotFound);
}

#[test]
fn listing_a_file_path_fails() {
    let mut st = store_with_tmp();
    st.create_file(&String::from("/tmp/a.md"), &String::from("x")).unwrap();
    let err = st.list_directory(&String::from("/tmp/a.md"), EntryFilter::AllEntries).unwrap_err();
    assert_eq!(err.kind, FsErrorKind::Other);
    assert_eq!(err.message, "not a directory");
}

#[test]
fn read_directory_path_fails_as_is_a_directory() {
    let st = store_with_tmp();
    let err = st.read_file(&String::from("/tmp")).unwrap_err();
    assert_eq!(err.kind, FsErrorKind::Other);
    assert_eq!(err.message, "is a directory");
}
