use mailfind::dirent::{Dirent, DT_DIR, DT_REG};
use mailfind::dirlist::{changes_dir, is_dir_path, needs_mtime, BufSize, Dirlist, Get, ReadStep, BIG_BUFFER, SMALL_BUFFER};

const DT_LNK: u8 = 10;

fn d(ino: u64, d_type: u8, name: &[u8]) -> Dirent {
    Dirent { ino, reclen: 24, d_type, name: name.to_vec() }
}

fn files_listing() -> Dirlist {
    let mut l = Dirlist::new(BufSize::Big);
    let a = l.register_dir("/m/a/Maildir/new/");
    let recs = vec![d(1, DT_DIR, b"."), d(2, DT_DIR, b".."), d(3, DT_REG, b"one"), d(4, DT_LNK, b"two")];
    l.add_records(a, Get::OnlyFiles, 96, &recs, &vec![0, 0, 300, 100]);
    let b = l.register_dir("/m/b/Maildir/cur/");
    let recs = vec![d(5, DT_REG, b"three"), d(6, DT_REG, b"four")];
    l.add_records(b, Get::OnlyFiles, 48, &recs, &vec![300, 500]);
    l
}

fn names(l: &Dirlist) -> Vec<String> {
    (0..l.len()).map(|i| l.get_filename(i).unwrap()).collect()
}

#[test]
fn new_listings_are_empty() {
    let big = Dirlist::new(BufSize::Big);
    let small = Dirlist::new(BufSize::Small);
    assert_eq!(big.len(), 0);
    assert_eq!(big.free_space(), BIG_BUFFER);
    assert_eq!(BIG_BUFFER, 5_048_576);
    assert_eq!(small.free_space(), SMALL_BUFFER);
    assert_eq!(SMALL_BUFFER, 4096);
}

#[test]
fn dir_paths_end_with_slash() {
    assert!(is_dir_path("/root/mail/"));
    assert!(is_dir_path("/"));
    assert!(!is_dir_path("/root/mail"));
    assert!(!is_dir_path(""));
}

#[test]
fn registering_a_directory_twice_gives_one_index() {
    let mut l = Dirlist::new(BufSize::Small);
    let a = l.register_dir("/x/");
    let b = l.register_dir("/y/");
    let a2 = l.register_dir("/x/");
    assert_eq!(a, 0);
    assert_eq!(b, 1);
    assert_eq!(a2, 0);
}

#[test]
fn files_read_skips_directories_and_keys_by_mtime() {
    let l = files_listing();
    assert_eq!(
        names(&l),
        vec!["/m/a/Maildir/new/one", "/m/a/Maildir/new/two", "/m/b/Maildir/cur/three", "/m/b/Maildir/cur/four"]
    );
    assert_eq!(l.check_mtime(), vec![300, 100, 300, 500]);
    assert_eq!(l.free_space(), BIG_BUFFER - 144);
}

#[test]
fn dirs_read_skips_files_and_dot_entries() {
    let mut l = Dirlist::new(BufSize::Small);
    let root = l.register_dir("/srv/mail/");
    let recs = vec![
        d(10, DT_DIR, b"."),
        d(11, DT_DIR, b".."),
        d(12, DT_DIR, b"alice"),
        d(13, DT_REG, b"notes.txt"),
        d(14, DT_DIR, b".hidden"),
        d(15, DT_LNK, b"bob"),
    ];
    l.add_records(root, Get::OnlyDirs, 144, &recs, &vec![0; 6]);
    assert_eq!(l.get_filenames(), vec!["/srv/mail/alice", "/srv/mail/.hidden", "/srv/mail/bob"]);
    assert_eq!(l.check_mtime(), vec![12, 14, 15]);
    assert_eq!(l.free_space(), SMALL_BUFFER - 144);
}

#[test]
fn mtime_is_needed_only_for_kept_files() {
    assert!(needs_mtime(Get::OnlyFiles, &d(1, DT_REG, b"a")));
    assert!(needs_mtime(Get::OnlyFiles, &d(1, DT_LNK, b"a")));
    assert!(!needs_mtime(Get::OnlyFiles, &d(1, DT_DIR, b"a")));
    assert!(!needs_mtime(Get::OnlyDirs, &d(1, DT_DIR, b"a")));
}

#[test]
fn filename_past_the_end_is_none() {
    let l = files_listing();
    assert_eq!(l.get_filename(5), None);
    assert_eq!(l.get_filename(100), None);
}

#[test]
fn utf8_names_are_decoded() {
    let mut l = Dirlist::new(BufSize::Small);
    let dir = l.register_dir("/d/");
    l.add_records(dir, Get::OnlyFiles, 48, &vec![d(1, DT_REG, "caf\u{e9}".as_bytes()), d(2, DT_REG, &[0x66, 0xff])], &vec![1, 2]);
    assert!(l.filename_is_utf8(0));
    assert!(!l.filename_is_utf8(1));
    assert_eq!(l.get_filename(0), Some("/d/caf\u{e9}".to_string()));
}

#[test]
fn sort_puts_newest_first_and_keeps_ties_in_order() {
    let mut l = files_listing();
    l.sort();
    assert_eq!(
        names(&l),
        vec!["/m/b/Maildir/cur/four", "/m/a/Maildir/new/one", "/m/b/Maildir/cur/three", "/m/a/Maildir/new/two"]
    );
    assert_eq!(l.check_mtime(), vec![500, 300, 300, 100]);
}

#[test]
fn sorting_twice_changes_nothing() {
    let mut l = files_listing();
    l.sort();
    let once = names(&l);
    l.sort();
    assert_eq!(names(&l), once);
}

#[test]
fn check_mtime_reports_at_most_five() {
    let mut l = Dirlist::new(BufSize::Small);
    let dir = l.register_dir("/d/");
    let recs: Vec<Dirent> = (0..8).map(|i| d(i, DT_REG, b"f")).collect();
    l.add_records(dir, Get::OnlyFiles, 0, &recs, &(10..18).collect());
    assert_eq!(l.check_mtime(), vec![10, 11, 12, 13, 14]);
}

#[test]
fn iteration_reads_each_byte_as_a_character() {
    let mut l = Dirlist::new(BufSize::Small);
    let dir = l.register_dir("/d/");
    l.add_records(dir, Get::OnlyFiles, 48, &vec![d(1, DT_REG, b"plain"), d(2, DT_REG, &[0x63, 0xe9])], &vec![1, 2]);
    assert_eq!(l.get_filename(0), Some("/d/plain".to_string()));
    let mut it = l.into_iter();
    assert_eq!(it.next(), Some("/d/plain".to_string()));
    assert_eq!(it.next(), Some("/d/c\u{e9}".to_string()));
    assert_eq!(it.next(), None);
    assert_eq!(it.next(), None);
}

#[test]
fn only_file_reads_change_directory() {
    assert!(changes_dir(Get::OnlyFiles));
    assert!(!changes_dir(Get::OnlyDirs));
}

#[test]
fn records_added_one_at_a_time_list_as_a_batch() {
    let mut one = Dirlist::new(BufSize::Small);
    let dir = one.register_dir("/d/");
    for (i, name) in [b"a", b"b", b"c"].iter().enumerate() {
        one.add_records(dir, Get::OnlyFiles, 0, &vec![d(i as u64, DT_REG, *name)], &vec![i as u64]);
    }
    one.add_records(dir, Get::OnlyFiles, 72, &vec![], &vec![]);
    assert_eq!(one.get_filenames(), vec!["/d/a", "/d/b", "/d/c"]);
    assert_eq!(one.free_space(), SMALL_BUFFER - 72);
}

#[test]
fn reads_fill_the_space_left_and_stop_on_an_empty_read() {
    let mut l = Dirlist::new(BufSize::Small);
    let dir = l.register_dir("/d/");
    assert!(matches!(l.next_read(None), ReadStep::Fill(n) if n == SMALL_BUFFER));
    l.add_records(dir, Get::OnlyFiles, 1000, &vec![], &vec![]);
    assert!(matches!(l.next_read(Some(1000)), ReadStep::Fill(n) if n == SMALL_BUFFER - 1000));
    assert!(matches!(l.next_read(Some(0)), ReadStep::Finish));
    l.add_records(dir, Get::OnlyFiles, SMALL_BUFFER - 1000, &vec![], &vec![]);
    assert!(matches!(l.next_read(Some(5)), ReadStep::Full));
    assert!(matches!(l.next_read(Some(0)), ReadStep::Finish));
}
