# mailfind

Searches the newest messages of the Maildirs under a mail root for a string
and shows the first message that holds it.

- `src/` is the verified library:
  - `dirent.rs`: the `getdents64` record format and its parser;
  - `dirlist.rs`: a listing of directory entries gathered from those records,
    with the filtering of directory reads, paths, iteration and sorting;
  - `order.rs`: the newest-first order of entries by modification time;
  - `search.rs`: the Maildir folders of each mailbox, the gzip check, the
    needle search and the search over the newest messages;
  - `mail.rs`: the parts of a parsed message and the walk over their tree
    that gives the lines showing it;
  - `text.rs`: UTF-8 and byte-per-character text.
- `app/` is the program around it (the search, and its `getdents`, `async`,
  `test` and `test2` variants, chosen by the name it is called by):
  directory and file I/O, the
  `getdents64`, `lstat` and other system calls, threads, terminal size and
  printing.
- `tests/` runs the library on concrete values.
