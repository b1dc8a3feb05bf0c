//! A listing of directory entries gathered from `getdents64` records of
//! several directories, with the directory each entry came from.

use vstd::prelude::*;
use crate::dirent::{Dirent, DirentSpec, DT_DIR, DT_REG};
use crate::order::newest_first;
use crate::text::{utf8_str, push_char};

verus! {

/// Space for the raw records of a listing of files (many directories).
pub const BIG_BUFFER: usize = 5_048_576;

/// Space for the raw records of a listing of directories (one directory).
pub const SMALL_BUFFER: usize = 4096;

/// The most bytes of a name that iteration turns into characters.
pub const PATH_MAX: usize = 4096;

/// How many listed keys `check_mtime` reports.
pub const MTIME_SAMPLE: usize = 5;

/// The size of the record space of a listing.
pub enum BufSize {
    Big,
    Small,
}

/// Which entries a directory read keeps.
#[derive(Clone, Copy)]
pub enum Get {
    /// Everything but directories, keyed by modification time.
    OnlyFiles,
    /// Everything but regular files, `.` and `..`, keyed by inode number.
    OnlyDirs,
}

/// One listed entry: its key (modification time or inode number), the
/// directory it was read from, and its name.
pub struct ListedFile {
    pub key: u64,
    pub dir_index: usize,
    pub name: Seq<u8>,
}

/// The mathematical value of a listing.
pub struct DirlistView {
    /// Bytes of raw records the listing may take in all.
    pub buf_size: nat,
    /// Bytes of raw records taken so far.
    pub used: nat,
    /// The entries, in listing order.
    pub items: Seq<ListedFile>,
    /// The directories read, in the order they were first read.
    pub dirnames: Seq<Seq<char>>,
}

impl DirlistView {
    /// What holds of every listing: the record space is not overrun, every
    /// entry names a known directory, and every directory is known once.
    pub open spec fn well_formed(self) -> bool {
        &&& self.used <= self.buf_size
        &&& forall|i: int| 0 <= i < self.items.len() ==> #[trigger] self.items[i].dir_index < self.dirnames.len()
        &&& forall|i: int, j: int|
            0 <= i < j < self.dirnames.len() ==> self.dirnames[i] != self.dirnames[j]
        &&& forall|i: int| 0 <= i < self.dirnames.len() ==> is_dir_path_spec(#[trigger] self.dirnames[i])
    }

    /// The full path of entry `i`: its directory followed by its name read
    /// as UTF-8.
    pub open spec fn full_name(self, i: int) -> Seq<char> {
        self.dirnames[self.items[i].dir_index as int] + vstd::utf8::decode_utf8(self.items[i].name)
    }

    /// The path of entry `i` with each byte of the name taken as one character.
    pub open spec fn byte_name(self, i: int) -> Seq<char> {
        self.dirnames[self.items[i].dir_index as int] + crate::text::latin1(cut_name(self.items[i].name))
    }

    /// The keys of the entries, in listing order.
    pub open spec fn keys(self) -> Seq<u64> {
        self.items.map_values(|f: ListedFile| f.key)
    }
}

/// A name cut at `PATH_MAX` bytes.
pub open spec fn cut_name(name: Seq<u8>) -> Seq<u8> {
    if name.len() <= PATH_MAX {
        name
    } else {
        name.take(PATH_MAX as int)
    }
}

/// What a directory read does next.
pub enum ReadStep {
    /// The directory is read to its end: stop.
    Finish,
    /// Read more records into this many bytes of record space.
    Fill(usize),
    /// The record space is used up while the directory may hold more.
    Full,
}

/// A directory path as the listing takes it: not empty, ending with `/`.
pub open spec fn is_dir_path_spec(s: Seq<char>) -> bool {
    s.len() > 0 && s.last() == '/'
}

/// Whether `what` keeps the record `r`.
pub open spec fn keeps(what: Get, r: DirentSpec) -> bool {
    match what {
        Get::OnlyFiles => r.d_type != DT_DIR,
        Get::OnlyDirs => r.d_type != DT_REG && r.name != seq![46u8] && r.name != seq![46u8, 46u8],
    }
}

/// The key under which `what` lists `r`, given the modification time of the
/// file that `r` names.
pub open spec fn listed_key(what: Get, r: DirentSpec, mtime: u64) -> u64 {
    match what {
        Get::OnlyFiles => mtime,
        Get::OnlyDirs => r.ino,
    }
}

/// The entries that the first `n` of `recs` add to a listing for directory
/// `dir_index`, `mtimes[k]` being the modification time of `recs[k]`.
pub open spec fn additions(what: Get, dir_index: usize, recs: Seq<DirentSpec>, mtimes: Seq<u64>, n: int) -> Seq<ListedFile>
    decreases n,
{
    if n <= 0 {
        Seq::empty()
    } else {
        let r = recs[n - 1];
        additions(what, dir_index, recs, mtimes, n - 1) + if keeps(what, r) {
            seq![ListedFile { key: listed_key(what, r, mtimes[n - 1]), dir_index, name: r.name }]
        } else {
            Seq::empty()
        }
    }
}

#[derive(Clone, Copy)]
struct Item {
    key: u64,
    dir_index: usize,
    name: usize,
}

/// A listing of directory entries.
pub struct Dirlist {
    buf_size: usize,
    used: usize,
    items: Vec<Item>,
    names: Vec<Vec<u8>>,
    dirnames: Vec<String>,
}

impl View for Dirlist {
    type V = DirlistView;

    closed spec fn view(&self) -> DirlistView {
        DirlistView {
            buf_size: self.buf_size as nat,
            used: self.used as nat,
            items: self.items@.map_values(|it: Item| ListedFile {
                key: it.key,
                dir_index: it.dir_index,
                name: self.names@[it.name as int]@,
            }),
            dirnames: self.dirnames@.map_values(|s: String| s@),
        }
    }
}

/// Whether `dirname` is a path that a listing can read: not empty and ending
/// with `/`.
pub fn is_dir_path(dirname: &str) -> (r: bool)
    ensures
        r == is_dir_path_spec(dirname@),
        r == (dirname@.len() > 0 && dirname@.last() == '/'),
{
    let n = dirname.unicode_len();
    n > 0 && dirname.get_char(n - 1) == '/'
}

/// Whether reading a record with `what` needs the modification time of the
/// file it names: it does for every record that is kept as a file.
pub fn needs_mtime(what: Get, rec: &Dirent) -> (r: bool)
    ensures
        r == (what is OnlyFiles && keeps(what, rec@)),
{
    match what {
        Get::OnlyFiles => rec.d_type != DT_DIR,
        Get::OnlyDirs => false,
    }
}

/// Whether reading with `what` first makes the directory read the current
/// directory: file reads do, so that each file can be looked up by its name.
pub fn changes_dir(what: Get) -> (r: bool)
    ensures
        r == what is OnlyFiles,
{
    match what {
        Get::OnlyFiles => true,
        Get::OnlyDirs => false,
    }
}

fn keeps_record(what: Get, rec: &Dirent) -> (r: bool)
    ensures
        r == keeps(what, rec@),
{
    match what {
        Get::OnlyFiles => rec.d_type != DT_DIR,
        Get::OnlyDirs => {
            let n = rec.name.len();
            let dot = n == 1 && rec.name[0] == 46;
            let dotdot = n == 2 && rec.name[0] == 46 && rec.name[1] == 46;
            proof {
                assert(dot <==> rec.name@ =~= seq![46u8]);
                assert(dotdot <==> rec.name@ =~= seq![46u8, 46u8]);
            }
            rec.d_type != DT_REG && !dot && !dotdot
        },
    }
}

impl Dirlist {
    /// The internal invariant: the view is well formed and every entry refers
    /// to a stored name.
    pub closed spec fn wf(&self) -> bool {
        &&& self@.well_formed()
        &&& forall|i: int| 0 <= i < self.items@.len() ==> #[trigger] self.items@[i].name < self.names@.len()
    }

    /// What `wf` promises of the view.
    pub proof fn lemma_wf_view(&self)
        requires
            self.wf(),
        ensures
            self@.well_formed(),
    {
    }

    /// An empty listing with room for `BIG_BUFFER` or `SMALL_BUFFER` bytes of
    /// raw records.
    pub fn new(buf: BufSize) -> (r: Dirlist)
        ensures
            r.wf(),
            r@.buf_size == (match buf {
                BufSize::Big => BIG_BUFFER,
                BufSize::Small => SMALL_BUFFER,
            }),
            r@.used == 0,
            r@.items.len() == 0,
            r@.dirnames.len() == 0,
    {
        let buf_size: usize = match buf {
            BufSize::Big => BIG_BUFFER,
            BufSize::Small => SMALL_BUFFER,
        };
        let r = Dirlist { buf_size, used: 0, items: Vec::new(), names: Vec::new(), dirnames: Vec::new() };
        assert(r@.items =~= Seq::<ListedFile>::empty());
        assert(r@.dirnames =~= Seq::<Seq<char>>::empty());
        r
    }

    /// Bytes of record space left.
    pub fn free_space(&self) -> (r: usize)
        requires
            self.wf(),
        ensures
            r == self@.buf_size - self@.used,
    {
        self.buf_size - self.used
    }

    /// Bytes of raw records the listing may take in all.
    pub fn buf_size(&self) -> (r: usize)
        requires
            self.wf(),
        ensures
            r == self@.buf_size,
    {
        self.buf_size
    }

    /// The next step of reading a directory, given how many bytes the last
    /// `getdents64` call wrote (`None` before the first call): a read that
    /// wrote nothing ends the directory; otherwise the next read gets all the
    /// record space left, unless none is left.
    pub fn next_read(&self, last: Option<usize>) -> (r: ReadStep)
        requires
            self.wf(),
        ensures
            last == Some(0usize) ==> r is Finish,
            last != Some(0usize) && self@.used == self@.buf_size ==> r is Full,
            last != Some(0usize) && self@.used < self@.buf_size ==> (r matches ReadStep::Fill(n) && n == self@.buf_size - self@.used),
    {
        match last {
            Some(0) => ReadStep::Finish,
            _ => {
                let free = self.buf_size - self.used;
                if free == 0 {
                    ReadStep::Full
                } else {
                    ReadStep::Fill(free)
                }
            },
        }
    }

    /// The number of listed entries.
    pub fn len(&self) -> (r: usize)
        requires
            self.wf(),
        ensures
            r == self@.items.len(),
    {
        self.items.len()
    }

    /// The index of `dirname` among the directories of the listing, adding it
    /// at the end when it is not there yet.
    pub fn register_dir(&mut self, dirname: &str) -> (r: usize)
        requires
            old(self).wf(),
            is_dir_path_spec(dirname@),
        ensures
            final(self).wf(),
            final(self)@.buf_size == old(self)@.buf_size,
            final(self)@.used == old(self)@.used,
            final(self)@.items == old(self)@.items,
            old(self)@.dirnames.contains(dirname@) ==> final(self)@.dirnames == old(self)@.dirnames,
            !old(self)@.dirnames.contains(dirname@) ==> final(self)@.dirnames == old(self)@.dirnames.push(dirname@),
            r < final(self)@.dirnames.len(),
            final(self)@.dirnames[r as int] == dirname@,
    {
        let d = dirname.to_owned();
        let n = self.dirnames.len();
        let ghost old_view = self@;
        let mut i: usize = 0;
        while i < n
            invariant
                n == self.dirnames@.len(),
                self@ == old_view,
                self.wf(),
                d@ == dirname@,
                forall|j: int| 0 <= j < i ==> self@.dirnames[j] != dirname@,
            decreases n - i,
        {
            if self.dirnames[i] == d {
                assert(self@.dirnames[i as int] == dirname@);
                assert(old_view.dirnames.contains(dirname@));
                return i;
            }
            i = i + 1;
        }
        proof {
            assert(!old_view.dirnames.contains(dirname@));
        }
        self.dirnames.push(d);
        proof {
            assert(self@.dirnames =~= old_view.dirnames.push(dirname@));
            assert(self@.items =~= old_view.items);
        }
        n
    }

    /// Adds the entries of `records`, read from directory `dir_index` in
    /// `nread` bytes of record space, that `what` keeps, in record order.
    /// `mtimes[k]` is the modification time of the file that `records[k]`
    /// names; it is read only where `needs_mtime` holds.
    pub fn add_records(&mut self, dir_index: usize, what: Get, nread: usize, records: &Vec<Dirent>, mtimes: &Vec<u64>)
        requires
            old(self).wf(),
            dir_index < old(self)@.dirnames.len(),
            nread <= old(self)@.buf_size - old(self)@.used,
            mtimes@.len() == records@.len(),
        ensures
            final(self).wf(),
            final(self)@.buf_size == old(self)@.buf_size,
            final(self)@.used == old(self)@.used + nread,
            final(self)@.dirnames == old(self)@.dirnames,
            final(self)@.items == old(self)@.items + additions(
                what,
                dir_index,
                crate::dirent::dirent_views(records@),
                mtimes@,
                records@.len() as int,
            ),
    {
        let ghost recs = crate::dirent::dirent_views(records@);
        let ghost old_view = self@;
        let n = records.len();
        let mut i: usize = 0;
        while i < n
            invariant
                n == records@.len(),
                i <= n,
                mtimes@.len() == n,
                recs == crate::dirent::dirent_views(records@),
                dir_index < self@.dirnames.len(),
                self.wf(),
                self@.buf_size == old_view.buf_size,
                self@.used == old_view.used,
                self@.dirnames == old_view.dirnames,
                self@.items == old_view.items + additions(what, dir_index, recs, mtimes@, i as int),
            decreases n - i,
        {
            let rec = &records[i];
            let ghost before = self@.items;
            if keeps_record(what, rec) {
                let key: u64 = match what {
                    Get::OnlyFiles => mtimes[i],
                    Get::OnlyDirs => rec.ino,
                };
                let name = rec.name.clone();
                assert(name@ =~= rec.name@);
                let ghost old_names = self.names@;
                self.names.push(name);
                let idx = self.names.len() - 1;
                self.items.push(Item { key, dir_index, name: idx });
                proof {
                    assert forall|j: int| 0 <= j < self.items@.len() - 1 implies
                        self.names@[self.items@[j].name as int] == old_names[self.items@[j].name as int] by {}
                    assert(self@.items =~= before.push(ListedFile { key, dir_index, name: rec.name@ }));
                }
            }
            proof {
                assert(recs[i as int] == rec@);
                assert(additions(what, dir_index, recs, mtimes@, i + 1) =~= additions(what, dir_index, recs, mtimes@, i as int) + if keeps(what, rec@) {
                    seq![ListedFile { key: listed_key(what, rec@, mtimes@[i as int]), dir_index, name: rec@.name }]
                } else {
                    Seq::empty()
                });
                assert(self@.dirnames =~= old_view.dirnames);
            }
            i = i + 1;
        }
        self.used = self.used + nread;
        proof {
            assert(self@.items =~= old_view.items + additions(what, dir_index, recs, mtimes@, n as int));
        }
    }

    /// Whether the name of entry `index` is valid UTF-8, which
    /// `get_filename` needs.
    pub fn filename_is_utf8(&self, index: usize) -> (r: bool)
        requires
            self.wf(),
            index < self@.items.len(),
        ensures
            r == vstd::utf8::valid_utf8(self@.items[index as int].name),
    {
        let it = self.items[index];
        utf8_str(self.names[it.name].as_slice()).is_some()
    }

    /// The full path of entry `index`: its directory followed by its name.
    /// `None` for an index past the end of the listing.
    pub fn get_filename(&self, index: usize) -> (r: Option<String>)
        requires
            self.wf(),
            index != self@.items.len(),
            index < self@.items.len() ==> vstd::utf8::valid_utf8(self@.items[index as int].name),
        ensures
            index > self@.items.len() ==> r is None,
            index < self@.items.len() ==> (r matches Some(s) && s@ == self@.full_name(index as int)),
    {
        if index > self.items.len() {
            return None;
        }
        let it = self.items[index];
        assert(self@.items[index as int].dir_index == it.dir_index);
        assert(self@.dirnames.len() == self.dirnames@.len());
        let mut fullname = self.dirnames[it.dir_index].clone();
        let filename = utf8_str(self.names[it.name].as_slice()).unwrap();
        fullname.append(filename);
        Some(fullname)
    }

    /// The full paths of all entries, in listing order.
    pub fn get_filenames(&self) -> (r: Vec<String>)
        requires
            self.wf(),
            forall|i: int| 0 <= i < self@.items.len() ==> vstd::utf8::valid_utf8(#[trigger] self@.items[i].name),
        ensures
            r@.len() == self@.items.len(),
            forall|i: int| 0 <= i < r@.len() ==> #[trigger] r@[i]@ == self@.full_name(i),
    {
        let mut result: Vec<String> = Vec::new();
        let n = self.items.len();
        for idx in 0..n
            invariant
                n == self@.items.len(),
                self.wf(),
                forall|i: int| 0 <= i < self@.items.len() ==> vstd::utf8::valid_utf8(#[trigger] self@.items[i].name),
                result@.len() == idx,
                forall|i: int| 0 <= i < idx ==> #[trigger] result@[i]@ == self@.full_name(i),
        {
            assert(vstd::utf8::valid_utf8(self@.items[idx as int].name));
            let name = self.get_filename(idx).unwrap();
            result.push(name);
        }
        result
    }

    /// Orders the entries newest first: by key, largest first, entries with
    /// equal keys keeping their order.
    pub fn sort(&mut self)
        requires
            old(self).wf(),
        ensures
            final(self).wf(),
            final(self)@.buf_size == old(self)@.buf_size,
            final(self)@.used == old(self)@.used,
            final(self)@.dirnames == old(self)@.dirnames,
            exists|order: Seq<usize>| #![trigger crate::order::is_newest_first(old(self)@.keys(), order)]
                crate::order::is_newest_first(old(self)@.keys(), order)
                && final(self)@.items == reordered(old(self)@.items, order),
    {
        let ghost old_view = self@;
        let n = self.items.len();
        let mut keys: Vec<u64> = Vec::new();
        for i in 0..n
            invariant
                n == self.items@.len(),
                keys@.len() == i,
                forall|j: int| 0 <= j < i ==> keys@[j] == self.items@[j].key,
        {
            keys.push(self.items[i].key);
        }
        assert(keys@ =~= old_view.keys());
        let order = newest_first(&keys);
        let mut sorted: Vec<Item> = Vec::new();
        for j in 0..n
            invariant
                n == self.items@.len(),
                self@ == old_view,
                self.wf(),
                crate::order::is_newest_first(keys@, order@),
                keys@.len() == n,
                sorted@.len() == j,
                forall|k: int| 0 <= k < j ==> #[trigger] sorted@[k] == self.items@[order@[k] as int],
        {
            sorted.push(self.items[order[j]]);
        }
        self.items = sorted;
        proof {
            assert(self@.items =~= reordered(old_view.items, order@));
            assert(self@.dirnames =~= old_view.dirnames);
        }
    }

    /// The keys of the first `MTIME_SAMPLE` entries (fewer if the listing is
    /// shorter), for a look at the newest modification times.
    pub fn check_mtime(&self) -> (r: Vec<u64>)
        requires
            self.wf(),
        ensures
            r@ == self@.keys().take(if self@.items.len() < MTIME_SAMPLE { self@.items.len() as int } else { MTIME_SAMPLE as int }),
    {
        let n = if self.items.len() < MTIME_SAMPLE { self.items.len() } else { MTIME_SAMPLE };
        let mut r: Vec<u64> = Vec::new();
        for i in 0..n
            invariant
                n <= self.items@.len(),
                r@ =~= self@.keys().take(i as int),
        {
            r.push(self.items[i].key);
        }
        r
    }

    /// An iterator over the entries' paths, each name byte taken as one
    /// character.
    pub fn into_iter(self) -> (r: DirlistIntoIterator)
        requires
            self.wf(),
        ensures
            r.wf(),
            r@ == (self@, 0nat),
    {
        DirlistIntoIterator { dirlist: self, index: 0 }
    }
}

/// Walks a listing entry by entry.
pub struct DirlistIntoIterator {
    dirlist: Dirlist,
    index: usize,
}

impl View for DirlistIntoIterator {
    type V = (DirlistView, nat);

    closed spec fn view(&self) -> (DirlistView, nat) {
        (self.dirlist@, self.index as nat)
    }
}

impl DirlistIntoIterator {
    /// The listing is well formed and the position is inside it or at its end.
    pub closed spec fn wf(&self) -> bool {
        self.dirlist.wf() && self.index <= self.dirlist@.items.len()
    }

    /// What `wf` promises of the view: the listing is well formed and the
    /// position is inside it or at its end.
    pub proof fn lemma_wf_view(&self)
        requires
            self.wf(),
        ensures
            self@.0.well_formed(),
            self@.1 <= self@.0.items.len(),
    {
    }

    /// The path of the next entry, its name's bytes taken one character each
    /// and cut at `PATH_MAX` bytes; `None` once all entries are done.
    pub fn next(&mut self) -> (r: Option<String>)
        requires
            old(self).wf(),
        ensures
            final(self).wf(),
            final(self)@.0 == old(self)@.0,
            old(self)@.1 == old(self)@.0.items.len() ==> r is None && final(self)@.1 == old(self)@.1,
            old(self)@.1 < old(self)@.0.items.len() ==> final(self)@.1 == old(self)@.1 + 1,
            old(self)@.1 < old(self)@.0.items.len() ==> (r matches Some(s) && s@ == old(self)@.0.byte_name(old(self)@.1 as int)),
            next_step(old(self)@, final(self)@, match r {
                Some(s) => Some(s@),
                None => None,
            }),
    {
        if self.index >= self.dirlist.items.len() {
            return None;
        }
        let it = self.dirlist.items[self.index];
        let ghost view = self.dirlist@;
        assert(view.items[self.index as int].dir_index == it.dir_index);
        assert(view.dirnames.len() == self.dirlist.dirnames@.len());
        let ghost dir = view.dirnames[it.dir_index as int];
        let mut filename = self.dirlist.dirnames[it.dir_index].clone();
        let name = &self.dirlist.names[it.name];
        assert(crate::text::latin1(name@.take(0)) =~= Seq::<char>::empty());
        let limit = if name.len() < PATH_MAX { name.len() } else { PATH_MAX };
        for i in 0..limit
            invariant
                limit <= name@.len(),
                limit <= PATH_MAX,
                filename@ =~= dir + crate::text::latin1(name@.take(i as int)),
        {
            push_char(&mut filename, name[i] as char);
            proof {
                assert(crate::text::latin1(name@.take(i + 1)) =~= crate::text::latin1(name@.take(i as int)).push(name@[i as int] as char));
            }
        }
        proof {
            assert(name@.take(limit as int) =~= cut_name(name@));
        }
        self.index = self.index + 1;
        Some(filename)
    }
}

/// A directory path is accepted exactly when it is not empty and its last
/// character is `/`; nothing else in it matters, so a path with `.`
/// components or hidden folders is accepted as any other.
pub proof fn lemma_dir_path(s: Seq<char>)
    ensures
        is_dir_path_spec(s) <==> (s.len() > 0 && s[s.len() - 1] == '/'),
        forall|t: Seq<char>| t.len() > 0 ==> (is_dir_path_spec(s + t) <==> is_dir_path_spec(t)),
{
    assert forall|t: Seq<char>| t.len() > 0 implies (is_dir_path_spec(s + t) <==> is_dir_path_spec(t)) by {
        assert((s + t).last() == t.last());
    }
}

/// A directory is registered once: two positions with the same directory
/// are the same position.
pub proof fn lemma_dir_index_unique(v: DirlistView, i: int, j: int)
    requires
        v.well_formed(),
        0 <= i < v.dirnames.len(),
        0 <= j < v.dirnames.len(),
        v.dirnames[i] == v.dirnames[j],
    ensures
        i == j,
{
    if i < j {
        assert(v.dirnames[i] != v.dirnames[j]);
    } else if j < i {
        assert(v.dirnames[j] != v.dirnames[i]);
    }
}

/// For an entry with an ASCII name of at most `PATH_MAX` bytes, the path
/// that `get_filename` gives and the path that iteration gives are the same.
pub proof fn lemma_ascii_names_agree(v: DirlistView, i: int)
    requires
        v.well_formed(),
        0 <= i < v.items.len(),
        crate::text::is_ascii_bytes(v.items[i].name),
        v.items[i].name.len() <= PATH_MAX,
    ensures
        vstd::utf8::valid_utf8(v.items[i].name),
        v.full_name(i) == v.byte_name(i),
{
    crate::text::lemma_ascii_utf8_is_latin1(v.items[i].name);
}

/// Reading directories never lists `.` or `..`, and every entry it adds
/// belongs to the directory read.
pub proof fn lemma_dir_listing_has_no_dots(dir_index: usize, recs: Seq<DirentSpec>, mtimes: Seq<u64>, n: int)
    ensures
        forall|k: int| 0 <= k < additions(Get::OnlyDirs, dir_index, recs, mtimes, n).len() ==> {
            let f = #[trigger] additions(Get::OnlyDirs, dir_index, recs, mtimes, n)[k];
            &&& f.name != seq![46u8]
            &&& f.name != seq![46u8, 46u8]
            &&& f.dir_index == dir_index
        },
    decreases n,
{
    if n > 0 {
        lemma_dir_listing_has_no_dots(dir_index, recs, mtimes, n - 1);
        let prev = additions(Get::OnlyDirs, dir_index, recs, mtimes, n - 1);
        let all = additions(Get::OnlyDirs, dir_index, recs, mtimes, n);
        assert forall|k: int| 0 <= k < all.len() implies {
            &&& all[k].name != seq![46u8]
            &&& all[k].name != seq![46u8, 46u8]
            &&& all[k].dir_index == dir_index
        } by {
            if k < prev.len() {
                assert(all[k] == prev[k]);
            }
        }
    }
}

/// The entries of a listing reordered by `order`: entry `k` of the result is entry `order[k]`.
pub open spec fn reordered(items: Seq<ListedFile>, order: Seq<usize>) -> Seq<ListedFile> {
    order.map_values(|k: usize| items[k as int])
}

/// Sorting a sorted listing changes nothing.
pub proof fn lemma_sort_idempotent(items: Seq<ListedFile>, order: Seq<usize>, again: Seq<usize>)
    requires
        items.len() <= usize::MAX,
        crate::order::is_newest_first(items.map_values(|f: ListedFile| f.key), order),
        crate::order::is_newest_first(reordered(items, order).map_values(|f: ListedFile| f.key), again),
    ensures
        reordered(reordered(items, order), again) == reordered(items, order),
{
    let keys = items.map_values(|f: ListedFile| f.key);
    let sorted = reordered(items, order);
    assert(sorted.map_values(|f: ListedFile| f.key) =~= order.map_values(|i: usize| keys[i as int]));
    crate::order::lemma_newest_first_idempotent(keys, order, again);
    assert(reordered(sorted, again) =~= sorted);
}

/// One call of `DirlistIntoIterator::next`, from the state `before` to the
/// state `after`, giving `out`: the path of the entry at the position and a
/// step forward, or `None` and no step at the end.
pub open spec fn next_step(before: (DirlistView, nat), after: (DirlistView, nat), out: Option<Seq<char>>) -> bool {
    &&& after.0 == before.0
    &&& before.1 >= before.0.items.len() ==> out is None && after.1 == before.1
    &&& before.1 < before.0.items.len() ==> after.1 == before.1 + 1 && out == Some(before.0.byte_name(before.1 as int))
}

/// Iterating a listing from its start gives the path of every entry in
/// listing order, then `None` at every later call: after `k` calls the
/// iterator stands at `min(k, len)`, and call `k` gives the path of entry `k`
/// while there is one.
pub proof fn lemma_iteration(states: Seq<(DirlistView, nat)>, outs: Seq<Option<Seq<char>>>, k: int)
    requires
        states.len() == outs.len() + 1,
        states[0].1 == 0,
        forall|j: int| 0 <= j < outs.len() ==> #[trigger] next_step(states[j], states[j + 1], outs[j]),
        0 <= k < outs.len(),
    ensures
        states[k].0 == states[0].0,
        states[k].1 == if k < states[0].0.items.len() { k as nat } else { states[0].0.items.len() },
        k < states[0].0.items.len() ==> outs[k] == Some(states[0].0.byte_name(k)),
        k >= states[0].0.items.len() ==> outs[k] is None,
    decreases k,
{
    if k > 0 {
        lemma_iteration(states, outs, k - 1);
        let j = k - 1;
        assert(next_step(states[j], states[j + 1], outs[j]));
    }
    assert(next_step(states[k], states[k + 1], outs[k]));
}

/// One step of a directory read that only appends: the directories and the
/// entries before it stay as they were.
pub open spec fn appends(before: DirlistView, after: DirlistView) -> bool {
    &&& before.items.len() <= after.items.len()
    &&& after.items.take(before.items.len() as int) == before.items
    &&& before.dirnames.len() <= after.dirnames.len()
    &&& after.dirnames.take(before.dirnames.len() as int) == before.dirnames
    &&& after.buf_size == before.buf_size
    &&& before.used <= after.used
}

/// Registering a directory and adding records only append.
pub proof fn lemma_read_steps_append(before: DirlistView, after: DirlistView)
    requires
        after.buf_size == before.buf_size,
        before.used <= after.used,
        after.items == before.items || exists|more: Seq<ListedFile>| after.items == before.items + more,
        after.dirnames == before.dirnames || exists|d: Seq<char>| after.dirnames == before.dirnames.push(d),
    ensures
        appends(before, after),
{
    if after.items != before.items {
        let more = choose|more: Seq<ListedFile>| after.items == before.items + more;
        assert(after.items.take(before.items.len() as int) =~= before.items);
    } else {
        assert(after.items.take(before.items.len() as int) =~= before.items);
    }
    if after.dirnames != before.dirnames {
        let d = choose|d: Seq<char>| after.dirnames == before.dirnames.push(d);
        assert(after.dirnames.take(before.dirnames.len() as int) =~= before.dirnames);
    } else {
        assert(after.dirnames.take(before.dirnames.len() as int) =~= before.dirnames);
    }
}

/// A whole directory read, made of steps that only append, leaves every
/// earlier entry and directory as it was.
pub proof fn lemma_read_keeps_earlier(states: Seq<DirlistView>, k: int)
    requires
        states.len() >= 1,
        forall|j: int| 0 <= j < states.len() - 1 ==> #[trigger] appends(states[j], states[j + 1]),
        0 <= k < states.len(),
    ensures
        appends(states[0], states[k]),
    decreases k,
{
    if k > 0 {
        lemma_read_keeps_earlier(states, k - 1);
        let a = states[0];
        let j = k - 1;
        assert(appends(states[j], states[j + 1]));
        let b = states[j];
        let c = states[k];
        assert(c.items.take(a.items.len() as int) =~= b.items.take(a.items.len() as int));
        assert(c.dirnames.take(a.dirnames.len() as int) =~= b.dirnames.take(a.dirnames.len() as int));
    } else {
        assert(states[0].items.take(states[0].items.len() as int) =~= states[0].items);
        assert(states[0].dirnames.take(states[0].dirnames.len() as int) =~= states[0].dirnames);
    }
}

} // verus!
