# lib

The logic of a small web server (zhtta) and of the gash shell, verified with
Verus.

- `src/` is the verified library:
  - `lru_cache`: a size-bounded cache that evicts its least recently used
    entries, specified over a sequence of (key, value, size) items, with its
    laws (a stored value is found, eviction takes the least recently used
    entries and no more than needed, `get` only reorders, other keys are
    left alone).
  - `cache_manager`: the server's file cache, which serves a cached copy only
    while the file's modification time is the one recorded with it.
  - `scheduler`: priorities from file sizes (lowered for the university's
    networks) and a queue that always serves a request of the lowest
    priority; the laws say that a smaller file never ranks behind a larger
    one and, for a discount that lowers and keeps order, that the
    university's requests go first.
  - `web_server`: the queue of file requests, served the shortest file
    first (a run of dequeues answers each waiting request exactly once),
    the connection kept for each waiting peer, and the visitor count.
  - `http`, `ssi`: request paths (with one that refuses any `..`
    component), responses, the default page as each kind of server indents
    it, and server-side includes.
  - `gash`, `text`: command lines as pipelines, redirections, built-in
    commands and history.
  - `sgash`: the shell of the bare-metal kernel: what a key does, what a
    command line prints, the text cursor and the colours of drawn text.
  - `config`, `assoc`: command-line options and a small map by byte strings.
- `tests/` runs the library on concrete values.
- `app/` holds the programs: sockets, files, processes, threads and locks,
  the terminal, and the priority discount, which is computed in floating
  point. The library makes the decisions it can state: how a request is
  read, routed, queued and answered, how a command line is planned, and
  what the shells do with a line.

## How the collections are held

- The cache keeps its entries in a `Vec`, most recently used first, with
  distinct keys as its invariant. A hash map beside a doubly linked list of
  raw pointers would need unsafe code, which this library does not use.
- The scheduler keeps its requests in a `Vec` in the order they came and
  takes a minimum each time; std's `BinaryHeap` carries an allocator
  parameter that Verus cannot declare.
- The connections waiting under each peer's name, and the recorded file
  times, are kept in `AssocList`, a list of pairs with distinct byte-string
  keys whose view is a `Map`, so that lookups by byte string are proved.
