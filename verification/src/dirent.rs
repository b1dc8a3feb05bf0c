//! The record format that the Linux `getdents64` system call writes into a
//! buffer: a sequence of `linux_dirent64` records, each made of
//!
//! | offset | size | field                                   |
//! |--------|------|-----------------------------------------|
//! | 0      | 8    | `d_ino`, inode number, little endian    |
//! | 8      | 8    | `d_off`, offset of the next record      |
//! | 16     | 2    | `d_reclen`, length of this record       |
//! | 18     | 1    | `d_type`, file type                     |
//! | 19     | ...  | `d_name`, NUL-terminated file name      |
//!
//! and padded up to `d_reclen` bytes.

use vstd::prelude::*;

verus! {

/// Offset of `d_name` inside a record: the length of the fixed header.
pub const NAME_OFFSET: usize = 19;

/// `d_type` of a directory.
pub const DT_DIR: u8 = 4;

/// `d_type` of a regular file.
pub const DT_REG: u8 = 8;

/// One decoded record: what the directory logic reads of it.
pub struct Dirent {
    /// `d_ino`.
    pub ino: u64,
    /// `d_reclen`: how many bytes the record takes in the buffer.
    pub reclen: u16,
    /// `d_type`.
    pub d_type: u8,
    /// `d_name` without its terminating NUL.
    pub name: Vec<u8>,
}

/// The mathematical value of a record.
pub struct DirentSpec {
    pub ino: u64,
    pub reclen: u16,
    pub d_type: u8,
    pub name: Seq<u8>,
}

impl View for Dirent {
    type V = DirentSpec;

    open spec fn view(&self) -> DirentSpec {
        DirentSpec { ino: self.ino, reclen: self.reclen, d_type: self.d_type, name: self.name@ }
    }
}

/// The views of a sequence of records.
pub open spec fn dirent_views(v: Seq<Dirent>) -> Seq<DirentSpec> {
    v.map_values(|d: Dirent| d@)
}

/// The little-endian 16-bit number stored at `b[at..at + 2]`.
pub open spec fn le_u16(b: Seq<u8>, at: int) -> int {
    b[at] + 256 * b[at + 1]
}

/// The little-endian 64-bit number stored at `b[at..at + 8]`.
pub open spec fn le_u64(b: Seq<u8>, at: int) -> int {
    b[at] + 0x100 * b[at + 1] + 0x1_0000 * b[at + 2] + 0x100_0000 * b[at + 3]
        + 0x1_0000_0000 * b[at + 4] + 0x100_0000_0000 * b[at + 5]
        + 0x1_0000_0000_0000 * b[at + 6] + 0x100_0000_0000_0000 * b[at + 7]
}

/// The index of the first NUL byte of `b` in `[i, end)`, or `end` if there is none.
pub open spec fn first_nul(b: Seq<u8>, i: int, end: int) -> int
    decreases end - i,
{
    if i >= end {
        end
    } else if b[i] == 0 {
        i
    } else {
        first_nul(b, i + 1, end)
    }
}

/// The `d_reclen` of the record at the start of `b`.
pub open spec fn record_len(b: Seq<u8>) -> int {
    le_u16(b, 16)
}

/// The start of `b` holds a whole record: its header fits, its length covers
/// the header and a NUL, lies inside `b`, and its name ends with a NUL inside
/// the record.
pub open spec fn record_ok(b: Seq<u8>) -> bool {
    &&& b.len() >= NAME_OFFSET
    &&& NAME_OFFSET < record_len(b) <= b.len()
    &&& first_nul(b, NAME_OFFSET as int, record_len(b)) < record_len(b)
}

/// The record at the start of `b`.
pub open spec fn record_at(b: Seq<u8>) -> DirentSpec {
    DirentSpec {
        ino: le_u64(b, 0) as u64,
        reclen: record_len(b) as u16,
        d_type: b[18],
        name: b.subrange(NAME_OFFSET as int, first_nul(b, NAME_OFFSET as int, record_len(b))),
    }
}

/// The records that `b` holds, back to back, if it is made of whole records.
pub open spec fn parse_records(b: Seq<u8>) -> Option<Seq<DirentSpec>>
    decreases b.len(),
{
    if b.len() == 0 {
        Some(Seq::empty())
    } else if !record_ok(b) {
        None
    } else {
        match parse_records(b.skip(record_len(b))) {
            Some(rest) => Some(seq![record_at(b)] + rest),
            None => None,
        }
    }
}

/// `parse_records(whole)` in terms of what is already decoded (`done`) and
/// what is left (`rest`).
pub open spec fn parse_after(done: Seq<DirentSpec>, rest: Seq<u8>) -> Option<Seq<DirentSpec>> {
    match parse_records(rest) {
        Some(r) => Some(done + r),
        None => None,
    }
}

proof fn lemma_first_nul_bounds(b: Seq<u8>, i: int, end: int)
    requires
        i <= end,
    ensures
        i <= first_nul(b, i, end) <= end,
        first_nul(b, i, end) < end ==> b[first_nul(b, i, end)] == 0,
        forall|k: int| i <= k < first_nul(b, i, end) ==> b[k] != 0,
    decreases end - i,
{
    if i < end && b[i] != 0 {
        lemma_first_nul_bounds(b, i + 1, end);
    }
}

proof fn lemma_first_nul_shift(b: Seq<u8>, pos: int, i: int, end: int)
    requires
        0 <= pos,
        0 <= i <= end,
        pos + end <= b.len(),
    ensures
        first_nul(b.skip(pos), i, end) == first_nul(b, pos + i, pos + end) - pos,
    decreases end - i,
{
    if i < end && b.skip(pos)[i] != 0 {
        lemma_first_nul_shift(b, pos, i + 1, end);
    }
}

/// Decodes the little-endian number of `width` bytes at `buf[at..]`.
fn read_le(buf: &[u8], at: usize, width: usize) -> (r: u64)
    requires
        width == 2 || width == 8,
        at + width <= buf@.len(),
    ensures
        width == 2 ==> r == le_u16(buf@, at as int),
        width == 8 ==> r == le_u64(buf@, at as int),
{
    if width == 2 {
        buf[at] as u64 + 256 * (buf[at + 1] as u64)
    } else {
        buf[at] as u64 + 0x100 * (buf[at + 1] as u64) + 0x1_0000 * (buf[at + 2] as u64)
            + 0x100_0000 * (buf[at + 3] as u64) + 0x1_0000_0000 * (buf[at + 4] as u64)
            + 0x100_0000_0000 * (buf[at + 5] as u64) + 0x1_0000_0000_0000 * (buf[at + 6] as u64)
            + 0x100_0000_0000_0000 * (buf[at + 7] as u64)
    }
}

/// Splits the first `nread` bytes of a `getdents64` buffer into its records,
/// in buffer order. `None` when the bytes are not a sequence of whole records.
pub fn parse_dirents(buf: &[u8]) -> (r: Option<Vec<Dirent>>)
    ensures
        r is None <==> parse_records(buf@) is None,
        r matches Some(v) ==> parse_records(buf@) == Some(dirent_views(v@)),
{
    let len = buf.len();
    let mut out: Vec<Dirent> = Vec::new();
    let mut pos: usize = 0;
    assert(buf@.skip(0) =~= buf@);
    while pos < len
        invariant
            len == buf@.len(),
            pos <= len,
            parse_records(buf@) == parse_after(dirent_views(out@), buf@.skip(pos as int)),
        decreases len - pos,
    {
        let ghost rest = buf@.skip(pos as int);
        if len - pos < NAME_OFFSET {
            return None;
        }
        let reclen = read_le(buf, pos + 16, 2) as usize;
        assert(reclen == record_len(rest));
        if reclen <= NAME_OFFSET || reclen > len - pos {
            return None;
        }
        let end = pos + reclen;
        let mut k = pos + NAME_OFFSET;
        let mut name: Vec<u8> = Vec::new();
        while k < end && buf[k] != 0
            invariant
                len == buf@.len(),
                pos + NAME_OFFSET <= k <= end <= len,
                forall|j: int| pos + NAME_OFFSET <= j < k ==> buf@[j] != 0,
                name@ =~= buf@.subrange(pos + NAME_OFFSET, k as int),
                first_nul(buf@, pos + NAME_OFFSET, end as int) == first_nul(buf@, k as int, end as int),
            decreases end - k,
        {
            name.push(buf[k]);
            k = k + 1;
        }
        proof {
            lemma_first_nul_shift(buf@, pos as int, NAME_OFFSET as int, reclen as int);
        }
        if k == end {
            return None;
        }
        let ino = read_le(buf, pos, 8);
        let d_type = buf[pos + 18];
        let ghost done = dirent_views(out@);
        let d = Dirent { ino, reclen: reclen as u16, d_type, name };
        proof {
            assert(first_nul(buf@, k as int, end as int) == k);
            assert(first_nul(rest, NAME_OFFSET as int, reclen as int) == k - pos);
            assert(record_ok(rest));
            assert(le_u64(rest, 0) == le_u64(buf@, pos as int));
            assert(rest.subrange(NAME_OFFSET as int, k - pos) =~= name@);
            assert(d@ == record_at(rest));
            assert(rest.skip(reclen as int) =~= buf@.skip(end as int));
        }
        out.push(d);
        proof {
            assert(dirent_views(out@) =~= done.push(d@));
            assert(done.push(d@) + seq![] =~= done + seq![d@]);
            match parse_records(buf@.skip(end as int)) {
                Some(r) => {
                    assert(done + (seq![d@] + r) =~= dirent_views(out@) + r);
                },
                None => {},
            }
        }
        pos = end;
    }
    proof {
        assert(buf@.skip(pos as int) =~= Seq::<u8>::empty());
        assert(dirent_views(out@) + Seq::<DirentSpec>::empty() =~= dirent_views(out@));
    }
    Some(out)
}

proof fn lemma_first_nul_agree(x: Seq<u8>, y: Seq<u8>, i: int, end: int)
    requires
        0 <= i <= end,
        end <= x.len(),
        end <= y.len(),
        forall|k: int| i <= k < end ==> x[k] == y[k],
    ensures
        first_nul(x, i, end) == first_nul(y, i, end),
    decreases end - i,
{
    if i < end {
        lemma_first_nul_agree(x, y, i + 1, end);
    }
}

/// Records read in two goes are the records of the two reads joined: the
/// bytes of whole records followed by more bytes parse as those records
/// followed by the records of the bytes after them.
pub proof fn lemma_parse_concat(a: Seq<u8>, b: Seq<u8>)
    requires
        parse_records(a) is Some,
    ensures
        parse_records(a + b) == parse_after(parse_records(a)->Some_0, b),
    decreases a.len(),
{
    let ab = a + b;
    if a.len() == 0 {
        assert(ab =~= b);
        match parse_records(b) {
            Some(r) => {
                assert(Seq::<DirentSpec>::empty() + r =~= r);
            },
            None => {},
        }
    } else {
        let r = record_len(a);
        assert(record_ok(a));
        assert(record_len(ab) == r);
        lemma_first_nul_agree(a, ab, NAME_OFFSET as int, r);
        lemma_first_nul_bounds(a, NAME_OFFSET as int, r);
        assert(record_ok(ab));
        assert(le_u64(ab, 0) == le_u64(a, 0));
        assert(ab.subrange(NAME_OFFSET as int, first_nul(a, NAME_OFFSET as int, r))
            =~= a.subrange(NAME_OFFSET as int, first_nul(a, NAME_OFFSET as int, r)));
        assert(record_at(ab) == record_at(a));
        assert(ab.skip(r) =~= a.skip(r) + b);
        lemma_parse_concat(a.skip(r), b);
        let first = seq![record_at(a)];
        let rest_a = parse_records(a.skip(r))->Some_0;
        match parse_records(b) {
            Some(rb) => {
                assert(first + (rest_a + rb) =~= (first + rest_a) + rb);
            },
            None => {},
        }
    }
}

} // verus!
