//! What holds of the resident service and its clients.
//!
//! Requests and answers are texts and bytes that other programs write and read, so
//! the laws here spell them out.

use vstd::prelude::*;
#[allow(unused_imports)]
use vstd::utf8::{encode_utf8, is_ascii_chars, is_ascii_chars_encode_utf8};

#[allow(unused_imports)]
use crate::daemon::{
    answer, asked, beside, caught_up, chomped, counts_answer, counts_text, field, fields_after,
    found_answer, index_place, last_eot, law_answer_is_read_back, lemma_first_is, lemma_last_eot,
    limit_of, path_lines, pieces, rebuilt_for, socket_place, taken_apart, taken_up, total_in, trimmed,
    version_in, Asked, Rebuild, Resume, EOT, NEWLINE,
};
#[allow(unused_imports)]
use crate::index::glue;
#[allow(unused_imports)]
use crate::live_search::{hit_path, Hit};
#[allow(unused_imports)]
use crate::number::{decimal, law_decimal_is_read_back, number};
#[allow(unused_imports)]
use crate::query::{Options, TypeFilter};
#[allow(unused_imports)]
use crate::text::{join, last_slash_at, SLASH};
#[allow(unused_imports)]
use crate::tree::{Counts, State};
#[allow(unused_imports)]
use crate::words::is_space;

verus! {

// --- requests ---

proof fn lemma_first_field(a: Seq<char>, rest: Seq<char>)
    requires
        !a.contains('\t'),
    ensures
        field(a + seq!['\t'] + rest) == a,
        fields_after(a + seq!['\t'] + rest) == rest,
{
    let s = a + seq!['\t'] + rest;
    assert forall|i: int| 0 <= i < a.len() implies s[i] != '\t' by {
        assert(a.contains(a[i]));
    }
    lemma_first_is(s, '\t', a.len() as int);
    assert(field(s) =~= a);
    assert(fields_after(s) =~= rest);
}

proof fn lemma_only_field(a: Seq<char>)
    requires
        !a.contains('\t'),
    ensures
        field(a) == a,
        fields_after(a) == Seq::<char>::empty(),
{
    assert forall|i: int| 0 <= i < a.len() implies a[i] != '\t' by {
        assert(a.contains(a[i]));
    }
    lemma_first_is(a, '\t', a.len() as int);
    assert(field(a) =~= a);
}

proof fn lemma_commands()
    ensures
        "V"@ == seq!['V'],
        "Q"@ == seq!['Q'],
        "S"@ == seq!['S'],
        "I"@ == seq!['I'],
        seq!['V'][0] != seq!['Q'][0],
        seq!['V'][0] != seq!['S'][0],
        seq!['V'][0] != seq!['I'][0],
        seq!['Q'][0] != seq!['S'][0],
        seq!['Q'][0] != seq!['I'][0],
        seq!['S'][0] != seq!['I'][0],
{
    reveal_strlit("V");
    reveal_strlit("Q");
    reveal_strlit("S");
    reveal_strlit("I");
    assert("V"@ =~= seq!['V']);
    assert("Q"@ =~= seq!['Q']);
    assert("S"@ =~= seq!['S']);
    assert("I"@ =~= seq!['I']);
}

proof fn lemma_chomped_behind(a: Seq<char>, rest: Seq<char>)
    requires
        a.len() > 0,
        a.last() != '\n',
    ensures
        chomped(a + rest) == a + chomped(rest),
    decreases rest.len(),
{
    let s = a + rest;
    if rest.len() == 0 {
        assert(s =~= a);
        assert(a + chomped(rest) =~= a);
    } else {
        assert(s.last() == rest.last());
        if rest.last() == '\n' {
            assert(s.drop_last() =~= a + rest.drop_last());
            lemma_chomped_behind(a, rest.drop_last());
        }
    }
}

/// Line ends behind a request are of no account.
pub proof fn law_line_ends_are_dropped(line: Seq<char>)
    ensures
        asked(line.push('\n')) == asked(line),
{
    assert(line.push('\n').drop_last() =~= line);
}

/// `Q`, a limit, flags and a query, with tabs between, ask for a search with options. Each
/// flag is one letter, whatever its place, and directories are preferred where files are
/// asked for too.
pub proof fn law_searches_are_asked_for(limit: Seq<char>, flags: Seq<char>, query: Seq<char>)
    requires
        !limit.contains('\t'),
        !flags.contains('\t'),
        query.len() > 0 ==> query.last() != '\n',
    ensures
        asked(seq!['Q', '\t'] + limit + seq!['\t'] + flags + seq!['\t'] + query) == (Asked::Search {
            limit: limit_of(limit),
            opts: Options {
                whole_path: flags.contains('p'),
                basename: flags.contains('b'),
                type_filter: if flags.contains('d') {
                    Some(TypeFilter::Dirs)
                } else if flags.contains('f') {
                    Some(TypeFilter::Files)
                } else {
                    None
                },
            },
            sep: if flags.contains('0') {
                0u8
            } else {
                0x0au8
            },
            query,
        }),
{
    let last = flags + seq!['\t'] + query;
    let rest = limit + seq!['\t'] + last;
    let line = seq!['Q'] + seq!['\t'] + rest;
    assert(line =~= seq!['Q', '\t'] + limit + seq!['\t'] + flags + seq!['\t'] + query);
    assert(line.last() == if query.len() > 0 {
        query.last()
    } else {
        '\t'
    });
    assert(chomped(line) == line);
    lemma_commands();
    lemma_first_field(seq!['Q'], rest);
    lemma_first_field(limit, last);
    lemma_first_field(flags, query);
}

/// `S`, a limit and a query, with a tab between, ask for a search without options.
pub proof fn law_plain_searches_are_asked_for(limit: Seq<char>, query: Seq<char>)
    requires
        !limit.contains('\t'),
        query.len() > 0 ==> query.last() != '\n',
    ensures
        asked(seq!['S', '\t'] + limit + seq!['\t'] + query) == (Asked::Search {
            limit: limit_of(limit),
            opts: Options { whole_path: false, basename: false, type_filter: None },
            sep: 0x0au8,
            query,
        }),
{
    let rest = limit + seq!['\t'] + query;
    let line = seq!['S'] + seq!['\t'] + rest;
    assert(line =~= seq!['S', '\t'] + limit + seq!['\t'] + query);
    assert(line.last() == if query.len() > 0 {
        query.last()
    } else {
        '\t'
    });
    assert(chomped(line) == line);
    lemma_commands();
    lemma_first_field(seq!['S'], rest);
    lemma_first_field(limit, query);
}

/// A search without further fields has no query, no options, and the limit that is used
/// where none is given.
pub proof fn law_searches_may_be_bare(limit: Seq<char>)
    requires
        !limit.contains('\t'),
        limit.len() > 0,
        limit.last() != '\n',
    ensures
        ({
            let opts = Options { whole_path: false, basename: false, type_filter: None };
            let query = Seq::<char>::empty();
            &&& asked(seq!['Q']) == (Asked::Search { limit: 50, opts, sep: 0x0au8, query })
            &&& asked(seq!['S']) == (Asked::Search { limit: 50, opts, sep: 0x0au8, query })
            &&& asked(seq!['Q', '\t'] + limit) == (Asked::Search {
                limit: limit_of(limit),
                opts,
                sep: 0x0au8,
                query,
            })
            &&& asked(seq!['S', '\t'] + limit) == (Asked::Search {
                limit: limit_of(limit),
                opts,
                sep: 0x0au8,
                query,
            })
        }),
{
    let none = Seq::<char>::empty();
    lemma_commands();
    lemma_only_field(none);
    lemma_only_field(seq!['Q']);
    lemma_only_field(seq!['S']);
    lemma_only_field(limit);
    assert(seq!['Q'].last() != '\n');
    assert(seq!['S'].last() != '\n');
    assert(seq!['Q', '\t'] + limit =~= seq!['Q'] + seq!['\t'] + limit);
    assert(seq!['S', '\t'] + limit =~= seq!['S'] + seq!['\t'] + limit);
    lemma_first_field(seq!['Q'], limit);
    lemma_first_field(seq!['S'], limit);
    assert(chomped(seq!['Q']) == seq!['Q']);
    assert(chomped(seq!['S']) == seq!['S']);
    assert((seq!['Q', '\t'] + limit).last() == limit.last());
    assert((seq!['S', '\t'] + limit).last() == limit.last());
}

/// `V` asks for the version and `I` for counts, whatever fields follow; a command that is
/// none of the four is not known.
pub proof fn law_other_requests(cmd: Seq<char>, rest: Seq<char>)
    requires
        !cmd.contains('\t'),
        cmd.len() > 0 ==> cmd.last() != '\n',
    ensures
        cmd == seq!['V'] ==> asked(cmd) is Version && asked(cmd + seq!['\t'] + rest) is Version,
        cmd == seq!['I'] ==> asked(cmd) is Info && asked(cmd + seq!['\t'] + rest) is Info,
        cmd != seq!['V'] && cmd != seq!['I'] && cmd != seq!['Q'] && cmd != seq!['S'] ==> asked(
            cmd,
        ) is Unknown && asked(cmd + seq!['\t'] + rest) is Unknown,
{
    lemma_commands();
    lemma_only_field(cmd);
    assert(chomped(cmd) == cmd);
    let a = cmd + seq!['\t'];
    assert(a.last() == '\t');
    lemma_chomped_behind(a, rest);
    lemma_first_field(cmd, chomped(rest));
}

/// A limit is a number; 0 stands for no limit, and what is not a number, or too large, for 50.
pub proof fn law_limits_are_numbers(n: nat, other: Seq<char>)
    ensures
        limit_of(decimal(0)) == usize::MAX,
        0 < n <= usize::MAX ==> limit_of(decimal(n)) == n,
        n > usize::MAX ==> limit_of(decimal(n)) == 50,
        number(other) is None ==> limit_of(other) == 50,
{
    law_decimal_is_read_back(n);
    law_decimal_is_read_back(0);
}

// --- answers ---

/// An answer is the paths, a separator behind each, then one byte 4, then the counts with a
/// tab between any two, and a line end.
pub proof fn law_answers_are_these_bytes(
    paths: Seq<Seq<u8>>,
    path: Seq<u8>,
    sep: u8,
    counts: Seq<nat>,
    count: nat,
)
    ensures
        answer(Seq::empty(), sep, counts) == seq![4u8] + encode_utf8(
            counts_text(counts) + seq!['\n'],
        ),
        answer(seq![path] + paths, sep, counts) == path + seq![sep] + answer(paths, sep, counts),
        counts_text(seq![count]) == decimal(count),
        counts.len() > 0 ==> counts_text(counts.push(count)) == counts_text(counts) + seq!['\t']
            + decimal(count),
{
    assert(path_lines(Seq::empty(), sep) =~= Seq::<u8>::empty());
    assert(answer(Seq::empty(), sep, counts) =~= seq![4u8] + encode_utf8(
        counts_text(counts) + seq!['\n'],
    ));
    lemma_first_line(path, paths, sep);
    assert(answer(seq![path] + paths, sep, counts) =~= path + seq![sep] + answer(
        paths,
        sep,
        counts,
    ));
    assert(counts.push(count).drop_last() =~= counts);
}

proof fn lemma_first_line(path: Seq<u8>, paths: Seq<Seq<u8>>, sep: u8)
    ensures
        path_lines(seq![path] + paths, sep) == path + seq![sep] + path_lines(paths, sep),
    decreases paths.len(),
{
    let all = seq![path] + paths;
    if paths.len() == 0 {
        assert(all.drop_last() =~= Seq::<Seq<u8>>::empty());
        assert(path_lines(all.drop_last(), sep) =~= Seq::<u8>::empty());
        assert(path_lines(all, sep) =~= path + seq![sep] + path_lines(paths, sep));
    } else {
        lemma_first_line(path, paths.drop_last(), sep);
        assert(all.drop_last() =~= seq![path] + paths.drop_last());
        assert(all.last() == paths.last());
        assert(path_lines(all, sep) =~= path + seq![sep] + path_lines(paths, sep));
    }
}

/// A client reads from the answer to a search the path of every hit, in their order, with a
/// separator behind those of directories; and behind them the number of hits and the time.
/// No path may hold what separates them.
pub proof fn law_hits_are_answered(s: State, hits: Seq<Hit>, sep: u8, total: nat, micros: nat)
    requires
        forall|k: int|
            0 <= k < hits.len() ==> hit_path(s, #[trigger] hits[k]).len() > 0 && !hit_path(
                s,
                hits[k],
            ).contains(sep),
    ensures
        taken_apart(found_answer(s, hits, sep, total, micros), sep) matches Some((paths, tail)) && {
            &&& paths.len() == hits.len()
            &&& forall|k: int|
                0 <= k < hits.len() ==> #[trigger] paths[k] == match hits[k] {
                    Hit::File(i) => s.file_path(i as int),
                    Hit::Dir(i) => s.dir_path(i).push(0x2fu8),
                }
            &&& tail == encode_utf8(decimal(total) + seq!['\t'] + decimal(micros) + seq!['\n'])
        },
{
    let paths = hits.map_values(|h: Hit| hit_path(s, h));
    assert forall|i: int| 0 <= i < paths.len() implies (#[trigger] paths[i]).len() > 0
        && !paths[i].contains(sep) by {
        assert(paths[i] == hit_path(s, hits[i]));
    }
    law_answer_is_read_back(paths, sep, seq![total, micros]);
    law_answers_are_these_bytes(paths, Seq::empty(), sep, seq![total], total);
    law_answers_are_these_bytes(paths, Seq::empty(), sep, seq![total], micros);
    assert(seq![total].push(micros) =~= seq![total, micros]);
    assert(taken_apart(answer(paths, sep, seq![total, micros]), sep) == Some(
        (paths, encode_utf8(counts_text(seq![total, micros]) + seq!['\n'])),
    ));
    assert forall|k: int| 0 <= k < hits.len() implies #[trigger] paths[k] == match hits[k] {
        Hit::File(i) => s.file_path(i as int),
        Hit::Dir(i) => s.dir_path(i).push(0x2fu8),
    } by {
        assert(paths[k] == hit_path(s, hits[k]));
    }
}

proof fn lemma_eot_inside(buf: Seq<u8>)
    ensures
        -1 <= last_eot(buf) < buf.len(),
    decreases buf.len(),
{
    if buf.len() > 0 && buf.last() != EOT {
        lemma_eot_inside(buf.drop_last());
    }
}

/// A request for counts is answered with the directories and the files that are there, the
/// entries that were added, and those of the snapshot that are gone, in this order.
pub proof fn law_counts_are_answered(c: Counts, sep: u8)
    ensures
        taken_apart(counts_answer(c), sep) == Some(
            (
                Seq::<Seq<u8>>::empty(),
                encode_utf8(
                    decimal(c.dirs) + seq!['\t'] + decimal(c.files) + seq!['\t'] + decimal(c.added)
                        + seq!['\t'] + decimal(c.removed) + seq!['\n'],
                ),
            ),
        ),
{
    let none = Seq::<Seq<u8>>::empty();
    let all = seq![c.dirs, c.files, c.added, c.removed];
    law_answer_is_read_back(none, NEWLINE, all);
    let buf = answer(none, NEWLINE, all);
    law_answers_are_these_bytes(none, Seq::empty(), NEWLINE, all, 0);
    law_answers_are_these_bytes(none, Seq::empty(), NEWLINE, seq![c.dirs], c.dirs);
    law_answers_are_these_bytes(none, Seq::empty(), NEWLINE, seq![c.dirs], c.files);
    law_answers_are_these_bytes(none, Seq::empty(), NEWLINE, seq![c.dirs, c.files], c.added);
    law_answers_are_these_bytes(
        none,
        Seq::empty(),
        NEWLINE,
        seq![c.dirs, c.files, c.added],
        c.removed,
    );
    assert(seq![c.dirs].push(c.files) =~= seq![c.dirs, c.files]);
    assert(seq![c.dirs, c.files].push(c.added) =~= seq![c.dirs, c.files, c.added]);
    assert(seq![c.dirs, c.files, c.added].push(c.removed) =~= all);
    assert(path_lines(none, NEWLINE) =~= Seq::<u8>::empty());
    let text = encode_utf8(counts_text(all) + seq!['\n']);
    assert(buf =~= seq![4u8] + text);
    let pos = last_eot(buf);
    lemma_eot_inside(buf);
    assert(buf.skip(pos + 1) == text);
    assert(buf.skip(pos + 1).len() == buf.len() - pos - 1);
    assert(pos == 0);
    assert(buf.take(0) =~= Seq::<u8>::empty());
}

/// An answer that does not say where the paths end is none.
pub proof fn law_answers_have_an_end(buf: Seq<u8>, sep: u8)
    ensures
        taken_apart(buf, sep) is Some <==> buf.contains(4u8),
    decreases buf.len(),
{
    if buf.len() > 0 {
        if buf.last() == 4u8 {
            assert(buf[buf.len() - 1] == 4u8);
        } else {
            law_answers_have_an_end(buf.drop_last(), sep);
            if buf.contains(4u8) {
                let i = buf.index_of(4u8);
                assert(buf.drop_last()[i] == 4u8);
            }
            if buf.drop_last().contains(4u8) {
                let i = buf.drop_last().index_of(4u8);
                assert(buf[i] == 4u8);
            }
        }
    }
}

proof fn lemma_pieces_run(w: Seq<u8>, sep: u8)
    requires
        w.len() > 0,
        !w.contains(sep),
    ensures
        pieces(w, sep) == seq![w],
    decreases w.len(),
{
    let front = w.drop_last();
    assert(w.contains(w[w.len() - 1]));
    if front.len() == 0 {
        assert(front =~= Seq::empty());
        assert(pieces(front, sep) =~= Seq::empty());
        assert(seq![w.last()] =~= w);
        assert(pieces(w, sep) =~= seq![w]);
    } else {
        assert(!front.contains(sep)) by {
            if front.contains(sep) {
                let i = front.index_of(sep);
                assert(w[i] == sep);
            }
        }
        lemma_pieces_run(front, sep);
        assert(w.contains(w[w.len() - 2]));
        assert(front.push(w.last()) =~= w);
        assert(pieces(w, sep) =~= seq![w]);
    }
}

proof fn lemma_pieces_there(buf: Seq<u8>, sep: u8)
    ensures
        buf.len() > 0 && buf.last() != sep ==> pieces(buf, sep).len() > 0,
    decreases buf.len(),
{
    if buf.len() > 1 && buf.last() != sep && buf[buf.len() - 2] != sep {
        lemma_pieces_there(buf.drop_last(), sep);
    }
}

proof fn lemma_pieces_split(a: Seq<u8>, sep: u8, b: Seq<u8>)
    ensures
        pieces(a + seq![sep] + b, sep) == pieces(a, sep) + pieces(b, sep),
    decreases b.len(),
{
    let s = a + seq![sep] + b;
    if b.len() == 0 {
        assert(s.drop_last() =~= a);
        assert(pieces(b, sep) =~= Seq::empty());
        assert(pieces(a, sep) + pieces(b, sep) =~= pieces(a, sep));
    } else {
        let front = b.drop_last();
        lemma_pieces_split(a, sep, front);
        lemma_pieces_there(front, sep);
        assert(s.drop_last() =~= a + seq![sep] + front);
        assert(s.last() == b.last());
        assert(s[s.len() - 2] == if b.len() == 1 {
            sep
        } else {
            b[b.len() - 2]
        });
        assert(pieces(s, sep) =~= pieces(a, sep) + pieces(b, sep));
    }
}

/// The paths of an answer are what stands between separators, where anything does; they end
/// with the last byte 4, and what follows that are the counts.
pub proof fn law_answers_are_cut_at_separators(
    a: Seq<u8>,
    sep: u8,
    b: Seq<u8>,
    w: Seq<u8>,
    tail: Seq<u8>,
)
    requires
        w.len() > 0,
        !w.contains(sep),
        !tail.contains(4u8),
    ensures
        pieces(a + seq![sep] + b, sep) == pieces(a, sep) + pieces(b, sep),
        pieces(w, sep) == seq![w],
        pieces(Seq::empty(), sep) == Seq::<Seq<u8>>::empty(),
        taken_apart(a + seq![4u8] + tail, sep) == Some((pieces(a, sep), tail)),
{
    lemma_pieces_split(a, sep, b);
    lemma_pieces_run(w, sep);
    assert forall|i: int| 0 <= i < tail.len() implies #[trigger] tail[i] != EOT by {
        assert(tail.contains(tail[i]));
    }
    lemma_last_eot(a, tail);
    let buf = a + seq![4u8] + tail;
    assert(buf =~= a.push(EOT) + tail);
    assert(buf.take(a.len() as int) =~= a);
    assert(buf.skip(a.len() as int + 1) =~= tail);
}

/// The version and the number of hits stand first in the counts; what is too large counts as
/// nothing.
pub proof fn law_first_count_is_told(n: nat, rest: Seq<char>, other: Seq<char>)
    ensures
        n <= u32::MAX ==> version_in(decimal(n)) == Some(n as u32),
        n <= u32::MAX ==> version_in(decimal(n) + seq!['\t'] + rest) == Some(n as u32),
        n > u32::MAX ==> version_in(decimal(n) + seq!['\t'] + rest) is None,
        n <= usize::MAX ==> total_in(decimal(n)) == n,
        n <= usize::MAX ==> total_in(decimal(n) + seq!['\t'] + rest) == n,
        n > usize::MAX ==> total_in(decimal(n) + seq!['\t'] + rest) == 0,
        !other.contains('\t') && number(other) is None ==> version_in(other) is None && total_in(
            other,
        ) == 0 && version_in(other + seq!['\t'] + rest) is None && total_in(
            other + seq!['\t'] + rest,
        ) == 0,
{
    let d = decimal(n);
    law_decimal_is_read_back(n);
    assert(!d.contains('\t')) by {
        if d.contains('\t') {
            let i = d.index_of('\t');
            assert('0' <= d[i] <= '9');
        }
    }
    lemma_only_field(d);
    lemma_first_field(d, rest);
    if !other.contains('\t') {
        lemma_only_field(other);
        lemma_first_field(other, rest);
    }
}

proof fn lemma_trimmed_front(a: Seq<char>, t: Seq<char>)
    requires
        forall|i: int| 0 <= i < a.len() ==> is_space(#[trigger] a[i]),
    ensures
        trimmed(a + t) == trimmed(t),
    decreases a.len(),
{
    if a.len() == 0 {
        assert(a + t =~= t);
    } else {
        assert(is_space(a[0]));
        assert((a + t)[0] == a[0]);
        assert((a + t).skip(1) =~= a.skip(1) + t);
        assert forall|i: int| 0 <= i < a.skip(1).len() implies is_space(#[trigger] a.skip(1)[i]) by {
            assert(a.skip(1)[i] == a[i + 1]);
        }
        lemma_trimmed_front(a.skip(1), t);
    }
}

/// White space at the ends of a text is taken off, and nothing else.
pub proof fn law_only_ends_are_trimmed(a: Seq<char>, t: Seq<char>, b: Seq<char>)
    requires
        forall|i: int| 0 <= i < a.len() ==> is_space(#[trigger] a[i]),
        forall|i: int| 0 <= i < b.len() ==> is_space(#[trigger] b[i]),
        t.len() > 0 ==> !is_space(t[0]) && !is_space(t.last()),
    ensures
        trimmed(a + t + b) == t,
    decreases b.len(),
{
    assert(a + t + b =~= a + (t + b));
    lemma_trimmed_front(a, t + b);
    if t.len() == 0 {
        assert(t + b =~= b);
        lemma_trimmed_front(b, Seq::empty());
        assert(b + Seq::<char>::empty() =~= b);
    } else if b.len() == 0 {
        assert(t + b =~= t);
    } else {
        let c = b.drop_last();
        assert((t + b)[0] == t[0]);
        assert((t + b).last() == b[b.len() - 1]);
        assert((t + b).drop_last() =~= t + c);
        assert forall|i: int| 0 <= i < c.len() implies is_space(#[trigger] c[i]) by {
            assert(c[i] == b[i]);
        }
        let none = Seq::<char>::empty();
        law_only_ends_are_trimmed(none, t, c);
        assert(none + t + c =~= t + c);
    }
}

// --- decisions ---

/// Events are taken up at the mark where there is one and it belongs to the event database
/// that is there. Otherwise they are taken up from now on; and where the mark belongs to
/// another database, everything is scanned anew.
pub proof fn law_events_are_taken_up_at_the_mark(id: u64, stored: Seq<u8>, current: Seq<u8>)
    requires
        stored.len() == 16,
    ensures
        ({
            let r = taken_up(id, stored, current);
            let marked = id != 0 && exists|i: int| 0 <= i < 16 && #[trigger] stored[i] != 0;
            &&& marked && stored == current ==> r == Resume::Replay(id)
            &&& marked && stored != current ==> r == Resume::Rebuilt
            &&& !marked ==> r == Resume::NoMark
            &&& r.first_id() == if marked && stored == current {
                id
            } else {
                0xFFFF_FFFF_FFFF_FFFFu64
            }
            &&& r.starts_over() <==> marked && stored != current
        }),
{
    let zeros = Seq::new(16, |i: int| 0u8);
    if forall|i: int| 0 <= i < 16 ==> #[trigger] stored[i] == 0 {
        assert(stored =~= zeros);
    } else {
        let i = choose|i: int| 0 <= i < 16 && #[trigger] stored[i] != 0;
        assert(zeros[i] == 0);
    }
}

/// Past events have been replayed once one of the events has the bit for it, the fifth.
pub proof fn law_replay_ends_with_its_flag(events: Seq<(Vec<u8>, u32)>, e: (Vec<u8>, u32))
    ensures
        !caught_up(Seq::empty()),
        caught_up(events.push(e)) <==> caught_up(events) || e.1 & 0x10 != 0,
{
    let all = events.push(e);
    if caught_up(events) {
        let i = choose|i: int| 0 <= i < events.len() && (#[trigger] events[i]).1 & 0x10 != 0;
        assert(all[i].1 & 0x10 != 0);
    }
    if e.1 & 0x10 != 0 {
        assert(all[events.len() as int].1 & 0x10 != 0);
    }
    if caught_up(all) {
        let i = choose|i: int| 0 <= i < all.len() && (#[trigger] all[i]).1 & 0x10 != 0;
        if i < events.len() {
            assert(events[i].1 & 0x10 != 0);
        }
    }
}

/// An index is rebuilt where events ask for it, and where more than two hundred thousand
/// entries were added; not otherwise.
pub proof fn law_when_an_index_is_rebuilt(need_full: bool, added: int)
    ensures
        rebuilt_for(need_full, added) is Some <==> need_full || added > 200_000,
        rebuilt_for(need_full, added) == Some(Rebuild::Asked) <==> need_full,
{
}

// --- places ---

proof fn lemma_last_slash_in(front: Seq<u8>, name: Seq<u8>)
    requires
        !name.contains(0x2fu8),
    ensures
        last_slash_at(front.push(0x2fu8) + name) == front.len(),
        last_slash_at(name) == -1,
    decreases name.len(),
{
    let all = front.push(0x2fu8) + name;
    if name.len() == 0 {
        assert(all =~= front.push(0x2fu8));
    } else {
        let less = name.drop_last();
        assert(name.contains(name[name.len() - 1]));
        assert(!less.contains(0x2fu8)) by {
            if less.contains(0x2fu8) {
                let i = less.index_of(0x2fu8);
                assert(name[i] == 0x2fu8);
            }
        }
        assert(all.drop_last() =~= front.push(0x2fu8) + less);
        lemma_last_slash_in(front, less);
    }
}

/// What stands beside an entry lies in the same directory.
pub proof fn law_beside_is_in_the_same_directory(dir: Seq<u8>, name: Seq<u8>, other: Seq<u8>)
    requires
        !name.contains(0x2fu8),
    ensures
        beside(dir + seq![0x2fu8] + name, other) == dir + seq![0x2fu8] + other,
        beside(name, other) == other,
{
    lemma_last_slash_in(dir, name);
    let p = dir + seq![0x2fu8] + name;
    assert(p =~= dir.push(0x2fu8) + name);
    assert(beside(p, other) =~= dir + seq![0x2fu8] + other);
    assert(beside(name, other) =~= other);
}

/// The index file and the socket lie in one directory below the home directory, or below
/// `/tmp` where there is none.
pub proof fn law_files_lie_below_home(home: Seq<u8>)
    ensures
        ({
            let below = encode_utf8("Library/Caches/mylocate/"@);
            let dir = if home.len() == 0 {
                below
            } else if home.last() == 0x2f {
                home + below
            } else {
                home + seq![0x2fu8] + below
            };
            &&& index_place(Some(home)) == dir + encode_utf8("index.bin"@)
            &&& socket_place(Some(home)) == dir + encode_utf8("daemon.sock"@)
        }),
        index_place(None) == index_place(Some(encode_utf8("/tmp"@))),
        socket_place(None) == socket_place(Some(encode_utf8("/tmp"@))),
{
    let caches = "Library/Caches/mylocate"@;
    let below = "Library/Caches/mylocate/"@;
    let file = "index.bin"@;
    let whole = "Library/Caches/mylocate/index.bin"@;
    reveal_strlit("Library/Caches/mylocate");
    reveal_strlit("Library/Caches/mylocate/");
    reveal_strlit("index.bin");
    reveal_strlit("Library/Caches/mylocate/index.bin");
    assert(whole =~= below + file);
    assert(below =~= caches.push('/'));
    assert(is_ascii_chars(whole));
    assert(is_ascii_chars(below));
    assert(is_ascii_chars(file));
    is_ascii_chars_encode_utf8(whole);
    is_ascii_chars_encode_utf8(below);
    is_ascii_chars_encode_utf8(file);
    let b = encode_utf8(below);
    let f = encode_utf8(file);
    assert(encode_utf8(whole) =~= b + f) by {
        assert forall|i: int| 0 <= i < encode_utf8(whole).len() implies #[trigger] encode_utf8(
            whole,
        )[i] == (b + f)[i] by {
            assert(whole[i] as u8 == encode_utf8(whole)[i]);
            if i < below.len() {
                assert(below[i] as u8 == b[i]);
            } else {
                assert(file[i - below.len()] as u8 == f[i - below.len()]);
            }
        }
    }
    assert(!f.contains(0x2fu8)) by {
        if f.contains(0x2fu8) {
            let i = f.index_of(0x2fu8);
            assert(file[i] as u8 == f[i]);
            assert(file[i] != '/');
        }
    }
    let k = b.len() - 1;
    assert(below[k] as u8 == b[k]);
    assert(b[k] == 0x2fu8);
    let sock = encode_utf8("daemon.sock"@);
    let lead = if home.len() == 0 || home.last() == 0x2f {
        home
    } else {
        home + seq![0x2fu8]
    };
    let p = index_place(Some(home));
    assert(p =~= lead + b + f);
    let dir = lead + b.take(k);
    assert(p =~= dir + seq![0x2fu8] + f);
    law_beside_is_in_the_same_directory(dir, f, sock);
    assert(socket_place(Some(home)) =~= lead + b + sock);
}

} // verus!
