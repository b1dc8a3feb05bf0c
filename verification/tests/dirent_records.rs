use mailfind::dirent::{parse_dirents, Dirent, DT_DIR, DT_REG};

fn record(ino: u64, d_type: u8, name: &[u8], reclen: usize) -> Vec<u8> {
    let mut r = Vec::new();
    r.extend_from_slice(&ino.to_le_bytes());
    r.extend_from_slice(&0i64.to_le_bytes());
    r.extend_from_slice(&(reclen as u16).to_le_bytes());
    r.push(d_type);
    r.extend_from_slice(name);
    r.push(0);
    while r.len() < reclen {
        r.push(0);
    }
    r
}

fn aligned(name: &[u8]) -> usize {
    (19 + name.len() + 1 + 7) / 8 * 8
}

fn rec(ino: u64, d_type: u8, name: &[u8]) -> Vec<u8> {
    record(ino, d_type, name, aligned(name))
}

fn summary(v: &[Dirent]) -> Vec<(u64, u16, u8, Vec<u8>)> {
    v.iter().map(|d| (d.ino, d.reclen, d.d_type, d.name.clone())).collect()
}

#[test]
fn empty_buffer_has_no_records() {
    let v = parse_dirents(&[]).unwrap();
    assert!(v.is_empty());
}

#[test]
fn single_record_fields() {
    let buf = rec(0x0102_0304_0506_0708, DT_REG, b"msg1");
    let v = parse_dirents(&buf).unwrap();
    assert_eq!(summary(&v), vec![(0x0102_0304_0506_0708, 24, DT_REG, b"msg1".to_vec())]);
}

#[test]
fn records_in_buffer_order() {
    let mut buf = rec(1, DT_DIR, b".");
    buf.extend(rec(2, DT_DIR, b".."));
    buf.extend(rec(77, DT_REG, b"1600000000.M1P2.host:2,S"));
    let v = parse_dirents(&buf).unwrap();
    assert_eq!(
        summary(&v),
        vec![
            (1, 24, DT_DIR, b".".to_vec()),
            (2, 24, DT_DIR, b"..".to_vec()),
            (77, 48, DT_REG, b"1600000000.M1P2.host:2,S".to_vec()),
        ]
    );
}

#[test]
fn name_stops_at_first_nul_inside_padding() {
    let mut buf = record(9, DT_REG, b"ab", 32);
    buf[24] = b'z';
    let v = parse_dirents(&buf).unwrap();
    assert_eq!(v[0].name, b"ab".to_vec());
    assert_eq!(v[0].reclen, 32);
}

#[test]
fn zero_record_length_is_rejected() {
    let mut buf = rec(1, DT_REG, b"x");
    buf[16] = 0;
    buf[17] = 0;
    assert!(parse_dirents(&buf).is_none());
}

#[test]
fn record_longer_than_buffer_is_rejected() {
    let buf = rec(1, DT_REG, b"x");
    assert!(parse_dirents(&buf[..buf.len() - 1]).is_none());
}

#[test]
fn short_header_is_rejected() {
    assert!(parse_dirents(&[0u8; 10]).is_none());
}

#[test]
fn name_without_nul_is_rejected() {
    let mut buf = rec(1, DT_REG, b"abcd");
    for b in buf[19..].iter_mut() {
        *b = b'a';
    }
    assert!(parse_dirents(&buf).is_none());
}

#[test]
fn two_reads_parse_as_one() {
    let a = rec(5, DT_REG, b"first");
    let b = rec(6, DT_DIR, b"second");
    let mut ab = a.clone();
    ab.extend(b.iter());
    let mut joined = summary(&parse_dirents(&a).unwrap());
    joined.extend(summary(&parse_dirents(&b).unwrap()));
    assert_eq!(summary(&parse_dirents(&ab).unwrap()), joined);
}
