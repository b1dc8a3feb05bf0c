use mailfind::search::{buffer_contains, is_gzipped, maildir_paths, Scan, MAILDIR_COUNT, SEARCH_LIMIT};

#[test]
fn six_folders_per_mailbox_in_order() {
    let homes = vec![b"/mail/alice".to_vec(), b"/mail/bob".to_vec()];
    let paths: Vec<String> = maildir_paths(&homes).into_iter().map(|p| String::from_utf8(p).unwrap()).collect();
    assert_eq!(paths.len(), 2 * MAILDIR_COUNT);
    assert_eq!(
        paths,
        vec![
            "/mail/alice/Maildir/new/",
            "/mail/alice/Maildir/cur/",
            "/mail/alice/Maildir/.Trash/new/",
            "/mail/alice/Maildir/.Trash/cur/",
            "/mail/alice/Maildir/.Junk/new/",
            "/mail/alice/Maildir/.Junk/cur/",
            "/mail/bob/Maildir/new/",
            "/mail/bob/Maildir/cur/",
            "/mail/bob/Maildir/.Trash/new/",
            "/mail/bob/Maildir/.Trash/cur/",
            "/mail/bob/Maildir/.Junk/new/",
            "/mail/bob/Maildir/.Junk/cur/",
        ]
    );
}

#[test]
fn no_mailboxes_no_folders() {
    assert!(maildir_paths(&vec![]).is_empty());
}

#[test]
fn gzip_magic_is_recognized() {
    assert!(is_gzipped(&[0x1f, 0x8b]));
    assert!(!is_gzipped(&[0x8b, 0x1f]));
    assert!(!is_gzipped(b"Fr"));
    assert!(!is_gzipped(&[0x1f]));
}

#[test]
fn needle_is_found_anywhere_in_the_buffer() {
    let mut buf = vec![0u8; 4096];
    buf[..11].copy_from_slice(b"Subject: hi");
    assert!(buffer_contains(&buf, "Subject"));
    assert!(buffer_contains(&buf, "t: h"));
    assert!(!buffer_contains(&buf, "subject"));
    assert!(buffer_contains(&buf, ""));
    assert!(buffer_contains(b"end of caf\xc3\xa9", "caf\u{e9}"));
    assert!(!buffer_contains(b"ab", "abc"));
}

#[test]
fn scan_stops_at_first_match() {
    let mut scan = Scan::new(10);
    assert_eq!(scan.next_file(), Some(0));
    scan.report(false);
    assert_eq!(scan.next_file(), Some(1));
    scan.report(false);
    assert_eq!(scan.next_file(), Some(2));
    scan.report(true);
    assert_eq!(scan.next_file(), None);
    assert_eq!(scan.found(), Some(2));
}

#[test]
fn scan_looks_at_no_more_than_the_limit() {
    let mut scan = Scan::new(1000);
    let mut seen = 0;
    while let Some(i) = scan.next_file() {
        assert_eq!(i, seen);
        seen += 1;
        scan.report(false);
    }
    assert_eq!(seen, SEARCH_LIMIT);
    assert_eq!(SEARCH_LIMIT, 300);
    assert_eq!(scan.found(), None);
}

#[test]
fn scan_of_few_messages_looks_at_all() {
    let mut scan = Scan::new(3);
    let mut seen = vec![];
    while let Some(i) = scan.next_file() {
        seen.push(i);
        scan.report(false);
    }
    assert_eq!(seen, vec![0, 1, 2]);
    let mut empty = Scan::new(0);
    assert_eq!(empty.next_file(), None);
    assert_eq!(empty.found(), None);
    let _ = &mut empty;
}

#[test]
fn folder_paths_keep_non_utf8_mailbox_names() {
    let homes = vec![vec![b'/', 0xff, b'x']];
    let paths = maildir_paths(&homes);
    assert_eq!(paths[0], b"/\xffx/Maildir/new/".to_vec());
    assert_eq!(paths[5], b"/\xffx/Maildir/.Junk/cur/".to_vec());
}
