# mylocate

Instant file search: results as you type, from an index that is never stale.

A scan of a directory tree makes an index file. Queries are answered from that file, or
from a resident service that follows the file system's events. Either way they give the
same answer.

* `src/` is the library, written in Verus: what a query means, wildcards, directory
  listings, the index file, the index of the service and its updates, both searches, the
  protocol and the command line. Every function carries a contract that Verus proves; the
  one thing taken on trust is what `memchr::memmem::find` returns (`src/text.rs`).
* `src/laws.rs`, `src/listing_laws.rs` and `src/tidy.rs` state what holds of the whole: that
  the index of a scan is a tree and that no update changes this, that the service and the
  index file agree, that a path leads to the directory that has it, that listing a
  directory twice does no harm, that a removal takes a subtree and nothing else.
* `tests/` runs the library.
* `app/` is the `ml` command: threads, system calls, the socket and the event stream.
