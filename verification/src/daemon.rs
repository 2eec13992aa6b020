//! The resident service: what it is asked, what it answers, and what it decides.
//!
//! A request is one line. Its first field is the command:
//!
//! ```text
//!   V                              version of the protocol
//!   S <limit> <query>              search
//!   Q <limit> <flags> <query>      search with options
//!   I                              counts
//! ```
//!
//! Fields are separated by tabs. An answer is a list of paths, each followed by a
//! separator, then `EOT`, then counts. A client that is told a version it does not
//! expect reads the index file itself, so that options are never ignored in silence.

use vstd::prelude::*;
use vstd::slice::slice_subrange;
use vstd::string::{StrSliceExecFns, StringExecFns};
#[allow(unused_imports)]
use vstd::utf8::{encode_utf8, encode_utf8_decode_utf8};

#[allow(unused_imports)]
use crate::bitset::trues;
use crate::fsevents::{EV_HISTORY_DONE, SINCE_NOW};
#[allow(unused_imports)]
use crate::index::glue;
use crate::live::Live;
use crate::live_search::Hit;
#[allow(unused_imports)]
use crate::live_search::hit_path;
use crate::number::{number_text, parse_number};
#[allow(unused_imports)]
use crate::number::{decimal, law_decimal_is_read_back, number};
use crate::query::{Options, TypeFilter};
use crate::text::{bytes_eq, extend, join_path, last_slash, SLASH};
#[allow(unused_imports)]
use crate::text::{last_slash_at, lemma_last_slash};
#[allow(unused_imports)]
use crate::plan::strings;
#[allow(unused_imports)]
use crate::tree::{Counts, State};
use crate::words::is_whitespace;
#[allow(unused_imports)]
use crate::words::{is_space, lemma_encode_push};

verus! {

/// With more additions than this, a new snapshot is made.
pub const COMPACT_THRESHOLD: usize = 200_000;

/// Version of the protocol.
pub const PROTO_VERSION: u32 = 2;

/// Stands before the counts at the end of an answer.
pub const EOT: u8 = 0x04;

/// How many hits are listed where nothing else is asked for.
pub const DEFAULT_LIMIT: usize = 50;

/// Between paths, where nothing else is asked for.
pub const NEWLINE: u8 = 0x0a;

// --- text ---

/// Whether two texts are the same.
pub fn text_eq(a: &str, b: &str) -> (r: bool)
    ensures
        r == (a@ == b@),
{
    proof {
        encode_utf8_decode_utf8(a@);
        encode_utf8_decode_utf8(b@);
    }
    bytes_eq(a.as_bytes(), b.as_bytes())
}

/// Where `c` stands first in `s`; the length of `s` where it does not.
pub open spec fn first_of(s: Seq<char>, c: char) -> int
    decreases s.len(),
{
    if s.len() == 0 {
        0
    } else if s[0] == c {
        0
    } else {
        1 + first_of(s.skip(1), c)
    }
}

proof fn lemma_first_of(s: Seq<char>, c: char)
    ensures
        0 <= first_of(s, c) <= s.len(),
        first_of(s, c) < s.len() ==> s[first_of(s, c)] == c,
        forall|i: int| 0 <= i < first_of(s, c) ==> s[i] != c,
    decreases s.len(),
{
    if s.len() > 0 && s[0] != c {
        lemma_first_of(s.skip(1), c);
        assert forall|i: int| 0 <= i < first_of(s, c) implies s[i] != c by {
            if i > 0 {
                assert(s.skip(1)[i - 1] == s[i]);
            }
        }
    }
}

pub proof fn lemma_first_is(s: Seq<char>, c: char, k: int)
    requires
        0 <= k <= s.len(),
        k < s.len() ==> s[k] == c,
        forall|i: int| 0 <= i < k ==> s[i] != c,
    ensures
        first_of(s, c) == k,
{
    lemma_first_of(s, c);
    let f = first_of(s, c);
    if f < k {
        assert(s[f] != c);
    }
}

/// Finds `c` in `s`.
pub fn find_char(s: &str, c: char) -> (r: usize)
    ensures
        r == first_of(s@, c),
        r <= s@.len(),
{
    let n = s.unicode_len();
    let mut k: usize = 0;
    for d in it: s.chars()
        invariant
            it.seq() == s@,
            k == it.index(),
            n == s@.len(),
            forall|i: int| 0 <= i < k ==> s@[i] != c,
    {
        if d == c {
            proof {
                lemma_first_is(s@, c, k as int);
            }
            return k;
        }
        k += 1;
    }
    proof {
        lemma_first_is(s@, c, n as int);
    }
    n
}

/// The first field of `s`.
pub open spec fn field(s: Seq<char>) -> Seq<char> {
    s.take(first_of(s, '\t'))
}

/// What follows the first field of `s`.
pub open spec fn fields_after(s: Seq<char>) -> Seq<char> {
    if first_of(s, '\t') < s.len() {
        s.skip(first_of(s, '\t') + 1)
    } else {
        Seq::empty()
    }
}

/// Splits the first field off.
pub fn split_field(s: &str) -> (r: (&str, &str))
    ensures
        r.0@ == field(s@),
        r.1@ == fields_after(s@),
{
    let n = s.unicode_len();
    let k = find_char(s, '\t');
    let first = s.substring_char(0, k);
    assert(first@ =~= field(s@));
    let rest = if k < n {
        s.substring_char(k + 1, n)
    } else {
        s.substring_char(n, n)
    };
    assert(rest@ =~= fields_after(s@));
    (first, rest)
}

/// `s` without the line ends at its end.
pub open spec fn chomped(s: Seq<char>) -> Seq<char>
    decreases s.len(),
{
    if s.len() > 0 && s.last() == '\n' {
        chomped(s.drop_last())
    } else {
        s
    }
}

fn chomp(s: &str) -> (r: &str)
    ensures
        r@ == chomped(s@),
{
    let mut n = s.unicode_len();
    assert(s@.take(n as int) =~= s@);
    while n > 0 && s.get_char(n - 1) == '\n'
        invariant
            n <= s@.len(),
            chomped(s@) == chomped(s@.take(n as int)),
        decreases n,
    {
        assert(s@.take(n as int).drop_last() =~= s@.take(n - 1));
        n -= 1;
    }
    let r = s.substring_char(0, n);
    assert(r@ =~= chomped(s@));
    r
}

// --- requests ---

/// What a client asks.
pub enum Request {
    /// The version of the protocol.
    Version,
    /// A search.
    Search {
        /// How many hits to list at most.
        limit: usize,
        opts: Options,
        /// What to put behind each path.
        sep: u8,
        query: String,
    },
    /// Counts.
    Info,
    /// Something else.
    Unknown,
}

/// What a request means.
pub ghost enum Asked {
    Version,
    Search { limit: usize, opts: Options, sep: u8, query: Seq<char> },
    Info,
    Unknown,
}

impl Request {
    pub open spec fn view(&self) -> Asked {
        match self {
            Request::Version => Asked::Version,
            Request::Search { limit, opts, sep, query } => Asked::Search {
                limit: *limit,
                opts: *opts,
                sep: *sep,
                query: query@,
            },
            Request::Info => Asked::Info,
            Request::Unknown => Asked::Unknown,
        }
    }
}

/// The limit that a field asks for. 0 stands for none; what is not a number stands for
/// the default.
pub open spec fn limit_of(s: Seq<char>) -> usize {
    match number(s) {
        Some(n) => if n > usize::MAX {
            DEFAULT_LIMIT
        } else if n == 0 {
            usize::MAX
        } else {
            n as usize
        },
        None => DEFAULT_LIMIT,
    }
}

/// The options that a field of flags asks for.
pub open spec fn opts_of(flags: Seq<char>) -> Options {
    Options {
        whole_path: flags.contains('p'),
        basename: flags.contains('b'),
        type_filter: if flags.contains('d') {
            Some(TypeFilter::Dirs)
        } else if flags.contains('f') {
            Some(TypeFilter::Files)
        } else {
            None
        },
    }
}

/// The separator that a field of flags asks for.
pub open spec fn sep_of(flags: Seq<char>) -> u8 {
    if flags.contains('0') {
        0
    } else {
        NEWLINE
    }
}

/// A search with the given fields.
pub open spec fn search_of(limit: Seq<char>, flags: Seq<char>, query: Seq<char>) -> Asked {
    Asked::Search {
        limit: limit_of(limit),
        opts: opts_of(flags),
        sep: sep_of(flags),
        query,
    }
}

/// What a line asks.
pub open spec fn asked(line: Seq<char>) -> Asked {
    let s = chomped(line);
    let cmd = field(s);
    let rest = fields_after(s);
    if cmd == "V"@ {
        Asked::Version
    } else if cmd == "Q"@ {
        search_of(
            field(rest),
            field(fields_after(rest)),
            fields_after(fields_after(rest)),
        )
    } else if cmd == "S"@ {
        search_of(field(rest), Seq::empty(), fields_after(rest))
    } else if cmd == "I"@ {
        Asked::Info
    } else {
        Asked::Unknown
    }
}

fn has_flag(flags: &str, c: char) -> (r: bool)
    ensures
        r == flags@.contains(c),
{
    let n = flags.unicode_len();
    let k = find_char(flags, c);
    proof {
        lemma_first_of(flags@, c);
        if flags@.contains(c) {
            let i = choose|i: int| 0 <= i < flags@.len() && flags@[i] == c;
            assert(i >= k);
        }
    }
    k < n
}

fn read_search(limit: &str, flags: &str, query: &str) -> (r: Request)
    ensures
        r@ == search_of(limit@, flags@, query@),
{
    let limit = match parse_number(limit, usize::MAX as u64) {
        Some(n) => if n == 0 {
            usize::MAX
        } else {
            n as usize
        },
        None => DEFAULT_LIMIT,
    };
    let type_filter = if has_flag(flags, 'd') {
        Some(TypeFilter::Dirs)
    } else if has_flag(flags, 'f') {
        Some(TypeFilter::Files)
    } else {
        None
    };
    let opts = Options {
        whole_path: has_flag(flags, 'p'),
        basename: has_flag(flags, 'b'),
        type_filter,
    };
    let sep = if has_flag(flags, '0') {
        0
    } else {
        NEWLINE
    };
    Request::Search { limit, opts, sep, query: String::from_str(query) }
}

/// Reads a request.
pub fn parse_request(line: &str) -> (r: Request)
    ensures
        r@ == asked(line@),
{
    let s = chomp(line);
    let (cmd, rest) = split_field(s);
    if text_eq(cmd, "V") {
        Request::Version
    } else if text_eq(cmd, "Q") {
        let (limit, rest) = split_field(rest);
        let (flags, query) = split_field(rest);
        read_search(limit, flags, query)
    } else if text_eq(cmd, "S") {
        let (limit, query) = split_field(rest);
        let none = "";
        proof {
            reveal_strlit("");
            assert(none@ =~= Seq::empty());
        }
        read_search(limit, none, query)
    } else if text_eq(cmd, "I") {
        Request::Info
    } else {
        Request::Unknown
    }
}

// --- answers ---

/// Paths, each followed by a separator.
pub open spec fn path_lines(paths: Seq<Seq<u8>>, sep: u8) -> Seq<u8>
    decreases paths.len(),
{
    if paths.len() == 0 {
        Seq::empty()
    } else {
        path_lines(paths.drop_last(), sep) + paths.last().push(sep)
    }
}

/// The end of an answer: numbers, separated by tabs.
pub open spec fn counts_text(counts: Seq<nat>) -> Seq<char>
    decreases counts.len(),
{
    if counts.len() == 0 {
        Seq::empty()
    } else if counts.len() == 1 {
        decimal(counts[0])
    } else {
        counts_text(counts.drop_last()) + seq!['\t'] + decimal(counts.last())
    }
}

/// An answer.
pub open spec fn answer(paths: Seq<Seq<u8>>, sep: u8, counts: Seq<nat>) -> Seq<u8> {
    path_lines(paths, sep).push(EOT) + encode_utf8(counts_text(counts) + seq!['\n'])
}

/// Every hit is an entry.
pub open spec fn hits_ok(s: State, hits: Seq<Hit>) -> bool {
    forall|k: int|
        0 <= k < hits.len() ==> match #[trigger] hits[k] {
            Hit::File(i) => i < s.files.len(),
            Hit::Dir(i) => i < s.dirs.len(),
        }
}

fn end_answer(out: &mut Vec<u8>, counts: &[u64])
    requires
        counts@.len() > 0,
    ensures
        final(out)@ == old(out)@.push(EOT) + encode_utf8(
            counts_text(counts@.map_values(|c: u64| c as nat)) + seq!['\n'],
        ),
{
    let ghost all = counts@.map_values(|c: u64| c as nat);
    let mut text = number_text(counts[0]);
    assert(all.take(1) =~= seq![counts@[0] as nat]);
    let n = counts.len();
    for i in 1..n
        invariant
            n == counts@.len(),
            all == counts@.map_values(|c: u64| c as nat),
            text@ == counts_text(all.take(i as int)),
    {
        let tab = "\t";
        let digits = number_text(counts[i]);
        text.append(tab);
        text.append(digits.as_str());
        proof {
            reveal_strlit("\t");
            assert(tab@ =~= seq!['\t']);
            assert(all.take(i + 1).drop_last() =~= all.take(i as int));
            assert(all.take(i + 1).last() == counts@[i as int] as nat);
        }
    }
    assert(all.take(n as int) =~= all);
    let end = "\n";
    text.append(end);
    proof {
        reveal_strlit("\n");
        assert(end@ =~= seq!['\n']);
    }
    out.push(EOT);
    extend(out, text.as_str().as_bytes());
}

/// The answer to a request for the version.
pub fn version_answer() -> (r: Vec<u8>)
    ensures
        r@ == answer(Seq::empty(), NEWLINE, seq![PROTO_VERSION as nat]),
{
    let mut out: Vec<u8> = Vec::new();
    let counts = [PROTO_VERSION as u64];
    end_answer(&mut out, counts.as_slice());
    proof {
        assert(counts@.map_values(|c: u64| c as nat) =~= seq![PROTO_VERSION as nat]);
    }
    out
}

/// What a search is answered: the paths of the hits, then their number and the time taken.
pub open spec fn found_answer(
    s: State,
    hits: Seq<Hit>,
    sep: u8,
    total: nat,
    micros: nat,
) -> Seq<u8> {
    answer(hits.map_values(|h: Hit| hit_path(s, h)), sep, seq![total, micros])
}

/// The answer to a search: the paths of the hits, then their number and the time taken.
pub fn search_answer(live: &Live, hits: &Vec<Hit>, sep: u8, total: usize, micros: u64) -> (r: Vec<u8>)
    requires
        live.wf(),
        hits_ok(live@, hits@),
    ensures
        r@ == answer(
            hits@.map_values(|h: Hit| hit_path(live@, h)),
            sep,
            seq![total as nat, micros as nat],
        ),
        r@ == found_answer(live@, hits@, sep, total as nat, micros as nat),
{
    let ghost paths = hits@.map_values(|h: Hit| hit_path(live@, h));
    let mut out: Vec<u8> = Vec::new();
    assert(paths.take(0) =~= Seq::empty());
    for k in 0..hits.len()
        invariant
            live.wf(),
            hits_ok(live@, hits@),
            paths == hits@.map_values(|h: Hit| hit_path(live@, h)),
            out@ == path_lines(paths.take(k as int), sep),
    {
        let h = hits[k];
        assert(match hits@[k as int] {
            Hit::File(i) => i < live@.files.len(),
            Hit::Dir(i) => i < live@.dirs.len(),
        });
        let p = live.path_of(h);
        extend(&mut out, p.as_slice());
        out.push(sep);
        proof {
            assert(paths.take(k + 1).drop_last() =~= paths.take(k as int));
            assert(paths.take(k + 1).last() == p@);
            assert(out@ =~= path_lines(paths.take(k + 1), sep));
        }
    }
    assert(paths.take(paths.len() as int) =~= paths);
    let counts = [total as u64, micros];
    end_answer(&mut out, counts.as_slice());
    proof {
        assert(counts@.map_values(|c: u64| c as nat) =~= seq![total as nat, micros as nat]);
    }
    out
}

/// What a request for counts is answered: directories and files that are there, entries that
/// were added, entries of the snapshot that are gone.
pub open spec fn counts_answer(c: Counts) -> Seq<u8> {
    answer(Seq::empty(), NEWLINE, seq![c.dirs, c.files, c.added, c.removed])
}

/// The answer to a request for counts.
pub fn info_answer(live: &Live) -> (r: Vec<u8>)
    requires
        live.wf(),
        live@.dirs.len() + live@.files.len() <= usize::MAX,
    ensures
        r@ == answer(
            Seq::empty(),
            NEWLINE,
            seq![
                trues(live@.dir_alive),
                trues(live@.file_alive),
                ((live@.dirs.len() - live@.base_dirs) + (live@.files.len() - live@.base_files)) as nat,
                ((live@.base_dirs - trues(live@.dir_alive.take(live@.base_dirs as int))) + (
                live@.base_files - trues(live@.file_alive.take(live@.base_files as int)))) as nat,
            ],
        ),
        r@ == counts_answer(live@.counts()),
{
    let mut out: Vec<u8> = Vec::new();
    let counts = [
        live.total_dirs() as u64,
        live.total_files() as u64,
        live.delta_len() as u64,
        live.dead_len() as u64,
    ];
    end_answer(&mut out, counts.as_slice());
    proof {
        assert(counts@.map_values(|c: u64| c as nat) =~= seq![
            trues(live@.dir_alive),
            trues(live@.file_alive),
            ((live@.dirs.len() - live@.base_dirs) + (live@.files.len() - live@.base_files)) as nat,
            ((live@.base_dirs - trues(live@.dir_alive.take(live@.base_dirs as int))) + (
            live@.base_files - trues(live@.file_alive.take(live@.base_files as int)))) as nat,
        ]);
    }
    out
}

/// The answer to anything else: no hits, no time.
pub fn unknown_answer() -> (r: Vec<u8>)
    ensures
        r@ == answer(Seq::empty(), NEWLINE, seq![0nat, 0nat]),
{
    let mut out: Vec<u8> = Vec::new();
    let counts = [0u64, 0u64];
    end_answer(&mut out, counts.as_slice());
    proof {
        assert(counts@.map_values(|c: u64| c as nat) =~= seq![0nat, 0nat]);
    }
    out
}

// --- reading an answer ---

/// Where the last `EOT` stands, or -1.
pub open spec fn last_eot(buf: Seq<u8>) -> int
    decreases buf.len(),
{
    if buf.len() == 0 {
        -1
    } else if buf.last() == EOT {
        buf.len() - 1
    } else {
        last_eot(buf.drop_last())
    }
}

/// The non-empty pieces of `buf` between separators.
pub open spec fn pieces(buf: Seq<u8>, sep: u8) -> Seq<Seq<u8>>
    decreases buf.len(),
{
    if buf.len() == 0 {
        Seq::empty()
    } else {
        let before = pieces(buf.drop_last(), sep);
        let b = buf.last();
        if b == sep {
            before
        } else if buf.len() == 1 || buf[buf.len() - 2] == sep {
            before.push(seq![b])
        } else {
            before.drop_last().push(before.last().push(b))
        }
    }
}

proof fn lemma_pieces_open(buf: Seq<u8>, sep: u8)
    ensures
        buf.len() > 0 && buf.last() != sep ==> pieces(buf, sep).len() > 0,
    decreases buf.len(),
{
    if buf.len() > 1 && buf.last() != sep && buf[buf.len() - 2] != sep {
        lemma_pieces_open(buf.drop_last(), sep);
    }
}

/// What an answer says: its paths, and what stands behind them. `None` where it has no end.
pub open spec fn taken_apart(buf: Seq<u8>, sep: u8) -> Option<(Seq<Seq<u8>>, Seq<u8>)> {
    let pos = last_eot(buf);
    if pos < 0 {
        None
    } else {
        Some((pieces(buf.take(pos), sep), buf.skip(pos + 1)))
    }
}

/// Splits an answer into its paths and what follows `EOT`, `None` where there is no
/// `EOT`.
///
/// Names may hold line ends, so an answer cannot be read line by line; `EOT` is looked
/// for from the end.
#[verifier::rlimit(60)]
pub fn split_answer(buf: &[u8], sep: u8) -> (r: Option<(Vec<Vec<u8>>, Vec<u8>)>)
    ensures
        match r {
            Some((items, tail)) => {
                let pos = last_eot(buf@);
                &&& pos >= 0
                &&& strings(items@) == pieces(buf@.take(pos), sep)
                &&& tail@ == buf@.skip(pos + 1)
            },
            None => last_eot(buf@) == -1,
        },
        match r {
            Some((items, tail)) => taken_apart(buf@, sep) == Some((strings(items@), tail@)),
            None => taken_apart(buf@, sep) is None,
        },
{
    let n = buf.len();
    let mut pos = n;
    assert(buf@.take(n as int) =~= buf@);
    while pos > 0 && buf[pos - 1] != EOT
        invariant
            pos <= n == buf@.len(),
            last_eot(buf@) == last_eot(buf@.take(pos as int)),
        decreases pos,
    {
        assert(buf@.take(pos as int).drop_last() =~= buf@.take(pos - 1));
        pos -= 1;
    }
    if pos == 0 {
        return None;
    }
    let pos = pos - 1;
    assert(last_eot(buf@) == pos);
    let mut items: Vec<Vec<u8>> = Vec::new();
    let mut cur: Vec<u8> = Vec::new();
    for i in 0..pos
        invariant
            pos < n == buf@.len(),
            cur@.len() > 0 <==> (i > 0 && buf@[i - 1] != sep),
            pieces(buf@.take(i as int), sep) == if cur@.len() > 0 {
                strings(items@).push(cur@)
            } else {
                strings(items@)
            },
    {
        let b = buf[i];
        let ghost pre = buf@.take(i as int);
        let ghost post = buf@.take(i + 1);
        let ghost old_items = items@;
        let ghost old_cur = cur@;
        proof {
            assert(post.drop_last() =~= pre);
            assert(post.last() == b);
            lemma_pieces_open(pre, sep);
        }
        if b == sep {
            if cur.len() > 0 {
                items.push(cur);
                cur = Vec::new();
                assert(strings(items@) =~= strings(old_items).push(old_cur));
            }
        } else {
            cur.push(b);
            proof {
                if old_cur.len() == 0 {
                    assert(cur@ =~= seq![b]);
                } else {
                    let before = strings(old_items).push(old_cur);
                    assert(before.drop_last() =~= strings(old_items));
                    assert(before.last() == old_cur);
                }
            }
        }
    }
    let ghost old_items = items@;
    let ghost old_cur = cur@;
    if cur.len() > 0 {
        items.push(cur);
        assert(strings(items@) =~= strings(old_items).push(old_cur));
    }
    let tail = vstd::slice::slice_to_vec(slice_subrange(buf, pos + 1, n));
    assert(tail@ =~= buf@.skip(pos + 1));
    Some((items, tail))
}

// --- what is answered is read back ---

proof fn lemma_pieces_path(buf: Seq<u8>, path: Seq<u8>, sep: u8, k: int)
    requires
        buf.len() == 0 || buf.last() == sep,
        !path.contains(sep),
        1 <= k <= path.len(),
    ensures
        pieces(buf + path.take(k), sep) == pieces(buf, sep).push(path.take(k)),
    decreases k,
{
    let all = buf + path.take(k);
    assert(path.contains(path[k - 1]));
    assert(all.last() == path[k - 1]);
    if k == 1 {
        assert(all.drop_last() =~= buf);
        assert(path.take(1) =~= seq![path[0]]);
    } else {
        assert(all.drop_last() =~= buf + path.take(k - 1));
        assert(path.contains(path[k - 2]));
        assert(all[all.len() - 2] == path[k - 2]);
        lemma_pieces_path(buf, path, sep, k - 1);
        let before = pieces(buf, sep).push(path.take(k - 1));
        assert(before.drop_last() =~= pieces(buf, sep));
        assert(path.take(k) =~= path.take(k - 1).push(path[k - 1]));
    }
}

proof fn lemma_pieces_lines(paths: Seq<Seq<u8>>, sep: u8)
    requires
        forall|i: int|
            0 <= i < paths.len() ==> (#[trigger] paths[i]).len() > 0 && !paths[i].contains(sep),
    ensures
        pieces(path_lines(paths, sep), sep) == paths,
        paths.len() > 0 ==> path_lines(paths, sep).len() > 0 && path_lines(paths, sep).last() == sep,
    decreases paths.len(),
{
    if paths.len() == 0 {
        assert(pieces(path_lines(paths, sep), sep) =~= paths);
    } else {
        let front = paths.drop_last();
        assert forall|i: int| 0 <= i < front.len() implies (#[trigger] front[i]).len() > 0
            && !front[i].contains(sep) by {
            assert(front[i] == paths[i]);
        }
        lemma_pieces_lines(front, sep);
        let buf = path_lines(front, sep);
        let path = paths.last();
        assert(paths[paths.len() - 1] == path);
        lemma_pieces_path(buf, path, sep, path.len() as int);
        assert(path.take(path.len() as int) =~= path);
        let all = path_lines(paths, sep);
        assert(all =~= (buf + path).push(sep));
        assert(all.drop_last() =~= buf + path);
        assert(pieces(all, sep) =~= paths);
    }
}

proof fn lemma_plain_bytes(s: Seq<char>)
    requires
        forall|i: int| 0 <= i < s.len() ==> '\t' <= #[trigger] s[i] <= '9',
    ensures
        forall|i: int| 0 <= i < encode_utf8(s).len() ==> #[trigger] encode_utf8(s)[i] != EOT,
    decreases s.len(),
{
    if s.len() > 0 {
        let front = s.drop_last();
        let c = s.last();
        assert forall|i: int| 0 <= i < front.len() implies '\t' <= #[trigger] front[i] <= '9' by {
            assert(front[i] == s[i]);
        }
        lemma_plain_bytes(front);
        lemma_encode_push(front, c);
        assert(front.push(c) =~= s);
        let u = c as u32;
        assert(s[s.len() - 1] == c);
        assert(9 <= u <= 57);
        assert(u & 0x7f == u) by (bit_vector)
            requires
                u <= 57,
        ;
        let w = vstd::utf8::encode_scalar(u);
        assert(w =~= seq![u as u8]);
        assert forall|i: int| 0 <= i < encode_utf8(s).len() implies #[trigger] encode_utf8(s)[i]
            != EOT by {
            if i < encode_utf8(front).len() {
                assert(encode_utf8(s)[i] == encode_utf8(front)[i]);
            }
        }
    }
}

proof fn lemma_counts_plain(counts: Seq<nat>)
    ensures
        forall|i: int|
            0 <= i < counts_text(counts).len() ==> '\t' <= #[trigger] counts_text(counts)[i] <= '9',
    decreases counts.len(),
{
    if counts.len() == 1 {
        law_decimal_is_read_back(counts[0]);
    } else if counts.len() > 1 {
        lemma_counts_plain(counts.drop_last());
        law_decimal_is_read_back(counts.last());
        let a = counts_text(counts.drop_last());
        let b = decimal(counts.last());
        let all = counts_text(counts);
        assert forall|i: int| 0 <= i < all.len() implies '\t' <= #[trigger] all[i] <= '9' by {
            if i < a.len() {
                assert(all[i] == a[i]);
            } else if i > a.len() {
                assert(all[i] == b[i - a.len() - 1]);
            }
        }
    }
}

pub proof fn lemma_last_eot(front: Seq<u8>, back: Seq<u8>)
    requires
        forall|i: int| 0 <= i < back.len() ==> #[trigger] back[i] != EOT,
    ensures
        last_eot(front.push(EOT) + back) == front.len(),
    decreases back.len(),
{
    let all = front.push(EOT) + back;
    if back.len() == 0 {
        assert(all =~= front.push(EOT));
    } else {
        assert(back[back.len() - 1] != EOT);
        assert(all.drop_last() =~= front.push(EOT) + back.drop_last());
        assert forall|i: int| 0 <= i < back.drop_last().len() implies #[trigger] back.drop_last()[i]
            != EOT by {
            assert(back[i] != EOT);
        }
        lemma_last_eot(front, back.drop_last());
    }
}

/// A client reads from an answer the paths that the service wrote, and the counts,
/// whatever else the names hold: only the separator itself must not occur in them.
#[verifier::rlimit(60)]
pub proof fn law_answer_is_read_back(paths: Seq<Seq<u8>>, sep: u8, counts: Seq<nat>)
    requires
        forall|i: int|
            0 <= i < paths.len() ==> (#[trigger] paths[i]).len() > 0 && !paths[i].contains(sep),
    ensures
        ({
            let buf = answer(paths, sep, counts);
            let pos = last_eot(buf);
            &&& pos >= 0
            &&& pieces(buf.take(pos), sep) == paths
            &&& buf.skip(pos + 1) == encode_utf8(counts_text(counts) + seq!['\n'])
        }),
{
    let front = path_lines(paths, sep);
    let text = counts_text(counts) + seq!['\n'];
    let back = encode_utf8(text);
    lemma_counts_plain(counts);
    assert forall|i: int| 0 <= i < text.len() implies '\t' <= #[trigger] text[i] <= '9' by {
        if i < counts_text(counts).len() {
            assert(text[i] == counts_text(counts)[i]);
        }
    }
    lemma_plain_bytes(text);
    lemma_last_eot(front, back);
    lemma_pieces_lines(paths, sep);
    let buf = answer(paths, sep, counts);
    assert(buf.take(front.len() as int) =~= front);
    assert(buf.skip(front.len() as int + 1) =~= back);
}

// --- decisions ---

/// Where the stream of events is taken up.
#[derive(Clone, Copy, PartialEq, Eq, Debug, Structural)]
pub enum Resume {
    /// From now on: the index has no mark.
    NoMark,
    /// From now on, after scanning anew: the event database was made anew, so the mark means
    /// nothing.
    Rebuilt,
    /// From the mark.
    Replay(u64),
}

/// Where the stream of events is taken up, by the mark that is stored, the event database
/// that it belongs to, and the one that is there.
pub open spec fn taken_up(id: u64, stored: Seq<u8>, current: Seq<u8>) -> Resume {
    if id == 0 || stored == Seq::new(16, |i: int| 0u8) {
        Resume::NoMark
    } else if stored != current {
        Resume::Rebuilt
    } else {
        Resume::Replay(id)
    }
}

/// Decides where the stream of events is taken up. A UUID of zeros stands for none.
pub fn resume(stored_id: u64, stored_uuid: &[u8; 16], cur_uuid: &[u8; 16]) -> (r: Resume)
    ensures
        r == if stored_id == 0 || stored_uuid@ == Seq::new(16, |i: int| 0u8) {
            Resume::NoMark
        } else if stored_uuid@ != cur_uuid@ {
            Resume::Rebuilt
        } else {
            Resume::Replay(stored_id)
        },
        r == taken_up(stored_id, stored_uuid@, cur_uuid@),
{
    let zeros = [0u8;16];
    assert(zeros@ =~= Seq::new(16, |i: int| 0u8));
    if stored_id == 0 || bytes_eq(stored_uuid.as_slice(), zeros.as_slice()) {
        Resume::NoMark
    } else if !bytes_eq(stored_uuid.as_slice(), cur_uuid.as_slice()) {
        Resume::Rebuilt
    } else {
        Resume::Replay(stored_id)
    }
}

impl Resume {
    /// The event id to begin with.
    pub open spec fn first_id(self) -> u64 {
        match self {
            Resume::Replay(id) => id,
            _ => SINCE_NOW,
        }
    }

    /// Everything has to be scanned anew.
    pub open spec fn starts_over(self) -> bool {
        self is Rebuilt
    }

    /// The event id to begin with.
    pub fn since(self) -> (r: u64)
        ensures
            r == match self {
                Resume::Replay(id) => id,
                _ => SINCE_NOW,
            },
            r == self.first_id(),
    {
        match self {
            Resume::Replay(id) => id,
            _ => SINCE_NOW,
        }
    }

    /// Whether everything has to be scanned anew: what happened since the mark cannot be
    /// learned any more.
    pub fn rescans(self) -> (r: bool)
        ensures
            r == (self is Rebuilt),
            r == self.starts_over(),
    {
        match self {
            Resume::Rebuilt => true,
            _ => false,
        }
    }
}

/// One of the events says that the replay of past events is over.
pub open spec fn caught_up(events: Seq<(Vec<u8>, u32)>) -> bool {
    exists|i: int| 0 <= i < events.len() && (#[trigger] events[i]).1 & EV_HISTORY_DONE != 0
}

/// Whether one of the events says that the replay of past events is over.
pub fn history_done(events: &[(Vec<u8>, u32)]) -> (r: bool)
    ensures
        r == exists|i: int| 0 <= i < events@.len() && (#[trigger] events@[i]).1 & EV_HISTORY_DONE != 0,
        r == caught_up(events@),
{
    for i in 0..events.len()
        invariant
            forall|k: int| 0 <= k < i ==> (#[trigger] events@[k]).1 & EV_HISTORY_DONE == 0,
    {
        if events[i].1 & EV_HISTORY_DONE != 0 {
            return true;
        }
    }
    false
}

/// Why the index is rebuilt.
#[derive(Clone, Copy, PartialEq, Eq, Debug, Structural)]
pub enum Rebuild {
    /// Events ask for it.
    Asked,
    /// Too much was added.
    Bloated,
}

/// Whether the index is rebuilt, and why.
pub open spec fn rebuilt_for(need_full: bool, added: int) -> Option<Rebuild> {
    if need_full {
        Some(Rebuild::Asked)
    } else if added > COMPACT_THRESHOLD {
        Some(Rebuild::Bloated)
    } else {
        None
    }
}

/// Decides whether the index is rebuilt.
pub fn rebuild_reason(need_full: bool, delta_len: usize) -> (r: Option<Rebuild>)
    ensures
        r == if need_full {
            Some(Rebuild::Asked)
        } else if delta_len > COMPACT_THRESHOLD {
            Some(Rebuild::Bloated)
        } else {
            None
        },
        r == rebuilt_for(need_full, delta_len as int),
{
    if need_full {
        Some(Rebuild::Asked)
    } else if delta_len > COMPACT_THRESHOLD {
        Some(Rebuild::Bloated)
    } else {
        None
    }
}

// --- places ---

/// The index file below the home directory; below `/tmp` where there is none.
pub open spec fn index_place(home: Option<Seq<u8>>) -> Seq<u8> {
    glue(
        match home {
            Some(h) => h,
            None => encode_utf8("/tmp"@),
        },
        encode_utf8("Library/Caches/mylocate/index.bin"@),
    )
}

/// `path` with another last name.
pub open spec fn beside(path: Seq<u8>, name: Seq<u8>) -> Seq<u8> {
    path.take(last_slash_at(path) + 1) + name
}

/// The socket, beside the index file.
pub open spec fn socket_place(home: Option<Seq<u8>>) -> Seq<u8> {
    beside(index_place(home), encode_utf8("daemon.sock"@))
}

/// The path of the index file.
pub fn default_path(home: Option<&str>) -> (r: Vec<u8>)
    ensures
        r@ == index_place(
            match home {
                Some(h) => Some(encode_utf8(h@)),
                None => None,
            },
        ),
{
    let tmp = "/tmp";
    let home = match home {
        Some(h) => h.as_bytes(),
        None => tmp.as_bytes(),
    };
    let rel = "Library/Caches/mylocate/index.bin".as_bytes();
    if home.len() == 0 {
        vstd::slice::slice_to_vec(rel)
    } else {
        join_path(home, rel)
    }
}

/// The path of the socket, beside the index file.
pub fn socket_path(home: Option<&str>) -> (r: Vec<u8>)
    ensures
        r@ == beside(
            index_place(
                match home {
                    Some(h) => Some(encode_utf8(h@)),
                    None => None,
                },
            ),
            encode_utf8("daemon.sock"@),
        ),
        r@ == socket_place(
            match home {
                Some(h) => Some(encode_utf8(h@)),
                None => None,
            },
        ),
{
    let mut p = default_path(home);
    proof {
        lemma_last_slash(p@);
    }
    let ghost path = p@;
    let n = p.len();
    assert(last_slash_at(path) < n);
    let keep = match last_slash(p.as_slice()) {
        Some(k) => k + 1,
        None => 0,
    };
    p.truncate(keep);
    extend(&mut p, "daemon.sock".as_bytes());
    assert(p@ =~= beside(path, encode_utf8("daemon.sock"@)));
    p
}

// --- the client's side ---

/// `s` without white space at its ends.
pub open spec fn trimmed(s: Seq<char>) -> Seq<char>
    decreases s.len(),
{
    if s.len() > 0 && is_space(s[0]) {
        trimmed(s.skip(1))
    } else if s.len() > 0 && is_space(s.last()) {
        trimmed(s.drop_last())
    } else {
        s
    }
}

/// `s` without white space at its ends.
pub fn trim(s: &str) -> (r: &str)
    ensures
        r@ == trimmed(s@),
{
    let n = s.unicode_len();
    let mut lo: usize = 0;
    let mut hi: usize = n;
    assert(s@.subrange(0, n as int) =~= s@);
    while lo < hi && is_whitespace(s.get_char(lo))
        invariant
            lo <= hi == n == s@.len(),
            trimmed(s@) == trimmed(s@.subrange(lo as int, hi as int)),
        decreases hi - lo,
    {
        assert(s@.subrange(lo as int, hi as int).skip(1) =~= s@.subrange(lo + 1, hi as int));
        lo += 1;
    }
    while lo < hi && is_whitespace(s.get_char(hi - 1))
        invariant
            lo <= hi <= n == s@.len(),
            lo < hi ==> !is_space(s@[lo as int]),
            trimmed(s@) == trimmed(s@.subrange(lo as int, hi as int)),
        decreases hi - lo,
    {
        assert(s@.subrange(lo as int, hi as int).drop_last() =~= s@.subrange(lo as int, hi - 1));
        hi -= 1;
    }
    s.substring_char(lo, hi)
}

/// The version that stands first in the counts of an answer.
pub open spec fn version_in(tail: Seq<char>) -> Option<u32> {
    match number(field(tail)) {
        Some(n) => if n <= u32::MAX {
            Some(n as u32)
        } else {
            None
        },
        None => None,
    }
}

/// The version that the service told: the first field of its answer.
pub fn told_version(tail: &str) -> (r: Option<u32>)
    ensures
        r == match number(field(tail@)) {
            Some(n) => if n <= u32::MAX {
                Some(n as u32)
            } else {
                None
            },
            None => None,
        },
        r == version_in(tail@),
{
    let (first, _) = split_field(tail);
    match parse_number(first, u32::MAX as u64) {
        Some(n) => Some(n as u32),
        None => None,
    }
}

/// The number of hits that stands first in the counts of an answer, 0 where it is not a
/// number.
pub open spec fn total_in(tail: Seq<char>) -> usize {
    match number(field(tail)) {
        Some(n) => if n <= usize::MAX {
            n as usize
        } else {
            0
        },
        None => 0,
    }
}

/// The number of hits that the service told: the first field of its answer, 0 where it
/// is not a number.
pub fn told_total(tail: &str) -> (r: usize)
    ensures
        r == match number(field(tail@)) {
            Some(n) => if n <= usize::MAX {
                n as usize
            } else {
                0
            },
            None => 0,
        },
        r == total_in(tail@),
{
    let (first, _) = split_field(tail);
    match parse_number(first, usize::MAX as u64) {
        Some(n) => n as usize,
        None => 0,
    }
}

/// A client reads from the end of an answer the number of hits that the service found.
#[verifier::rlimit(60)]
pub proof fn law_total_is_read_back(total: nat, micros: nat)
    ensures
        number(field(trimmed(counts_text(seq![total, micros]) + seq!['\n']))) == Some(total),
{
    let counts = seq![total, micros];
    let a = decimal(total);
    let b = decimal(micros);
    law_decimal_is_read_back(total);
    law_decimal_is_read_back(micros);
    assert(counts.drop_last() =~= seq![total]);
    assert(counts_text(seq![total]) == a);
    let text = a + seq!['\t'] + b;
    assert(counts_text(counts) == text);
    let line = text + seq!['\n'];
    assert(line[0] == a[0]);
    assert(line.last() == '\n');
    assert(line.drop_last() =~= text);
    assert(text[0] == a[0]);
    assert(text.last() == b.last());
    assert(b[b.len() - 1] == b.last());
    assert(trimmed(text) == text);
    assert(trimmed(line) == text);
    assert forall|i: int| 0 <= i < a.len() implies text[i] != '\t' by {
        assert(text[i] == a[i]);
    }
    lemma_first_is(text, '\t', a.len() as int);
    assert(field(text) =~= a);
}

} // verus!
