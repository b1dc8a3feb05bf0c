//! Where the messages are, which of them are compressed, and the search
//! through the newest of them for a string.

use vstd::prelude::*;
use bstr::ByteSlice;

verus! {

/// How many of the newest messages a search looks at.
pub const SEARCH_LIMIT: usize = 300;

/// The number of message folders under each mailbox.
pub const MAILDIR_COUNT: usize = 6;

/// How many bytes of the start of a message the search looks at.
pub const HEAD_LEN: usize = 4096;

/// The folder `j` of a mailbox, relative to the mailbox.
pub open spec fn maildir_spec(j: int) -> Seq<char> {
    if j == 0 {
        "/Maildir/new/"@
    } else if j == 1 {
        "/Maildir/cur/"@
    } else if j == 2 {
        "/Maildir/.Trash/new/"@
    } else if j == 3 {
        "/Maildir/.Trash/cur/"@
    } else if j == 4 {
        "/Maildir/.Junk/new/"@
    } else {
        "/Maildir/.Junk/cur/"@
    }
}

fn maildir(j: usize) -> (r: &'static str)
    requires
        j < MAILDIR_COUNT,
    ensures
        r@ == maildir_spec(j as int),
{
    if j == 0 {
        "/Maildir/new/"
    } else if j == 1 {
        "/Maildir/cur/"
    } else if j == 2 {
        "/Maildir/.Trash/new/"
    } else if j == 3 {
        "/Maildir/.Trash/cur/"
    } else if j == 4 {
        "/Maildir/.Junk/new/"
    } else {
        "/Maildir/.Junk/cur/"
    }
}

/// The bytes of the path of folder `j` of a mailbox, relative to the mailbox.
pub open spec fn maildir_bytes(j: int) -> Seq<u8> {
    vstd::utf8::encode_utf8(maildir_spec(j))
}

/// The path of folder `j` of the mailbox `home`.
fn maildir_path(home: &Vec<u8>, j: usize) -> (r: Vec<u8>)
    requires
        j < MAILDIR_COUNT,
    ensures
        r@ == home@ + maildir_bytes(j as int),
{
    let mut path = home.clone();
    assert(path@ =~= home@);
    let dir = maildir(j).as_bytes();
    let n = dir.len();
    for k in 0..n
        invariant
            n == dir@.len(),
            dir@ == maildir_bytes(j as int),
            path@ =~= home@ + dir@.take(k as int),
    {
        path.push(dir[k]);
        assert(dir@.take(k + 1) =~= dir@.take(k as int).push(dir@[k as int]));
    }
    assert(dir@.take(n as int) =~= dir@);
    path
}

/// The message folders of the given mailboxes, as path bytes: for each
/// mailbox in turn, its new and current messages, then those of its trash
/// and of its junk folder.
pub fn maildir_paths(homes: &Vec<Vec<u8>>) -> (r: Vec<Vec<u8>>)
    requires
        homes@.len() * MAILDIR_COUNT <= usize::MAX,
    ensures
        r@.len() == homes@.len() * MAILDIR_COUNT,
        forall|i: int, j: int|
            0 <= i < homes@.len() && 0 <= j < MAILDIR_COUNT ==> #[trigger] r@[i * MAILDIR_COUNT + j]@
                == homes@[i]@ + maildir_bytes(j),
{
    let mut r: Vec<Vec<u8>> = Vec::new();
    let n = homes.len();
    for i in 0..n
        invariant
            n == homes@.len(),
            n * MAILDIR_COUNT <= usize::MAX,
            r@.len() == i * MAILDIR_COUNT,
            forall|a: int, b: int|
                0 <= a < i && 0 <= b < MAILDIR_COUNT ==> #[trigger] r@[a * MAILDIR_COUNT + b]@
                    == homes@[a]@ + maildir_bytes(b),
    {
        for j in 0..MAILDIR_COUNT
            invariant
                n == homes@.len(),
                i < n,
                n * MAILDIR_COUNT <= usize::MAX,
                r@.len() == i * MAILDIR_COUNT + j,
                forall|a: int, b: int|
                    0 <= a < i && 0 <= b < MAILDIR_COUNT ==> #[trigger] r@[a * MAILDIR_COUNT + b]@
                        == homes@[a]@ + maildir_bytes(b),
                forall|b: int| 0 <= b < j ==> #[trigger] r@[i * MAILDIR_COUNT + b]@ == homes@[i as int]@ + maildir_bytes(b),
        {
            r.push(maildir_path(&homes[i], j));
        }
    }
    r
}

/// The two bytes that start a gzip stream.
pub open spec fn gzip_magic() -> Seq<u8> {
    seq![0x1fu8, 0x8bu8]
}

/// Whether the first bytes of a file are the gzip magic number.
pub fn is_gzipped(first_two: &[u8]) -> (r: bool)
    ensures
        r == (first_two@ == gzip_magic()),
{
    let r = first_two.len() == 2 && first_two[0] == 0x1f && first_two[1] == 0x8b;
    assert(r ==> first_two@ =~= gzip_magic());
    r
}

/// `needle` occurs in `hay` as a run of consecutive bytes.
pub open spec fn occurs_in(needle: Seq<u8>, hay: Seq<u8>) -> bool {
    exists|i: int| 0 <= i && i + needle.len() <= hay.len() && #[trigger] hay.subrange(i, i + needle.len()) == needle
}

/// `bstr::ByteSlice::contains_str`: whether the needle occurs in `hay`.
/// Claimed, as its documentation says: true exactly when the needle's bytes
/// occur in `hay` as a run of consecutive bytes.
#[verifier::external_body]
fn bytes_contain(hay: &[u8], needle: &[u8]) -> (r: bool)
    ensures
        r == occurs_in(needle@, hay@),
{
    hay.contains_str(needle)
}

/// Whether the UTF-8 bytes of `needle` occur in `buffer`.
pub fn buffer_contains(buffer: &[u8], needle: &str) -> (r: bool)
    ensures
        r == occurs_in(vstd::utf8::encode_utf8(needle@), buffer@),
{
    bytes_contain(buffer, needle.as_bytes())
}

/// A search through the newest messages, one message at a time, that stops
/// at the first one that holds the needle.
pub struct Scan {
    limit: usize,
    next: usize,
    found: Option<usize>,
}

/// The state of a search: how many messages it may look at, how many it has
/// looked at, and the message it found.
pub struct ScanView {
    pub limit: nat,
    pub next: nat,
    pub found: Option<nat>,
}

impl View for Scan {
    type V = ScanView;

    closed spec fn view(&self) -> ScanView {
        ScanView {
            limit: self.limit as nat,
            next: self.next as nat,
            found: match self.found {
                Some(i) => Some(i as nat),
                None => None,
            },
        }
    }
}

impl ScanView {
    /// What holds of every search: it looks at no more than `SEARCH_LIMIT`
    /// messages, and once it has found one it has looked at nothing after it.
    pub open spec fn well_formed(self) -> bool {
        &&& self.next <= self.limit <= SEARCH_LIMIT
        &&& self.found matches Some(i) ==> i + 1 == self.next
    }

    /// The message the search looks at next, if any.
    pub open spec fn pending(self) -> Option<nat> {
        if self.found is None && self.next < self.limit {
            Some(self.next)
        } else {
            None
        }
    }
}

impl Scan {
    /// A search over the newest `total` messages, but no more than
    /// `SEARCH_LIMIT`.
    pub fn new(total: usize) -> (r: Scan)
        ensures
            r@.well_formed(),
            r@.limit == if total < SEARCH_LIMIT { total } else { SEARCH_LIMIT },
            r@.next == 0,
            r@.found is None,
    {
        let limit = if total < SEARCH_LIMIT { total } else { SEARCH_LIMIT };
        Scan { limit, next: 0, found: None }
    }

    /// The position of the message to look at next, or `None` when the
    /// search is over.
    pub fn next_file(&self) -> (r: Option<usize>)
        requires
            self@.well_formed(),
        ensures
            r matches Some(i) ==> self@.pending() == Some(i as nat) && i < SEARCH_LIMIT,
            r is None ==> self@.pending() is None,
    {
        if self.found.is_some() || self.next >= self.limit {
            None
        } else {
            Some(self.next)
        }
    }

    /// Records whether the message just looked at holds the needle.
    pub fn report(&mut self, matched: bool)
        requires
            old(self)@.well_formed(),
            old(self)@.pending() is Some,
        ensures
            final(self)@.well_formed(),
            final(self)@.limit == old(self)@.limit,
            final(self)@.next == old(self)@.next + 1,
            final(self)@.found == if matched { Some(old(self)@.next) } else { None },
    {
        if matched {
            self.found = Some(self.next);
        }
        self.next = self.next + 1;
    }

    /// The message found, if any.
    pub fn found(&self) -> (r: Option<usize>)
        ensures
            r matches Some(i) ==> self@.found == Some(i as nat),
            r is None ==> self@.found is None,
    {
        self.found
    }
}

} // verus!
