//! What a search is for, from the line that is typed to the paths that are listed.

use vstd::prelude::*;

#[allow(unused_imports)]
use crate::glob::glob;
#[allow(unused_imports)]
use crate::index::{dir_path_of, glue, path_to, Contents, MAX_CLIMB};
#[allow(unused_imports)]
use crate::laws::{law_search_finds_what_is_there, law_service_and_file_agree};
#[allow(unused_imports)]
use crate::live_search::{hit_list, hit_path, hit_total, Hit};
#[allow(unused_imports)]
use crate::pick::{at_most, between, lemma_between_rises};
#[allow(unused_imports)]
use crate::query::{
    all_hit, goes_to_path, keywords, law_every_keyword_counts, parsed, plain_query, sorted_out,
    term_hits, Options, Parsed, TypeFilter,
};
#[allow(unused_imports)]
use crate::scan::{DirItem, FileItem};
#[allow(unused_imports)]
use crate::search::{dir_hit, file_hit, Found};
#[allow(unused_imports)]
use crate::text::{join, law_joining_puts_one_separator, law_occurring_is_being_a_part, lowered};
#[allow(unused_imports)]
use crate::tree::{fresh, State};
#[allow(unused_imports)]
use crate::words::{folded, words};

verus! {

// --- keywords ---

/// The keyword holds `*`, `?` or `[`.
pub open spec fn wild(k: Seq<u8>) -> bool {
    k.contains(0x2a) || k.contains(0x3f) || k.contains(0x5b)
}

/// What a keyword is held against: the path under `-w`, and without options where it holds
/// a wildcard or a separator; else the name.
pub open spec fn held_against(opts: Options, k: Seq<u8>, name: Seq<u8>, path: Seq<u8>) -> Seq<u8> {
    if !opts.basename && (opts.whole_path || wild(k) || k.contains(0x2f)) {
        path
    } else {
        name
    }
}

/// A keyword agrees with a text: as a pattern with all of it where it holds a wildcard, else
/// by standing in it, letters in either case.
pub open spec fn agrees(k: Seq<u8>, text: Seq<u8>) -> bool {
    if wild(k) {
        glob(k, text)
    } else {
        exists|a: Seq<u8>, b: Seq<u8>| lowered(text) == #[trigger] (a + k + b)
    }
}

proof fn lemma_term(k: Seq<u8>, text: Seq<u8>)
    ensures
        term_hits(k, text) <==> agrees(k, text),
{
    law_occurring_is_being_a_part(lowered(text), k);
}

proof fn lemma_accepts(ks: Seq<Seq<u8>>, opts: Options, name: Seq<u8>, path: Seq<u8>)
    ensures
        all_hit(sorted_out(ks, opts, false), name) && all_hit(sorted_out(ks, opts, true), path)
            <==> forall|i: int|
            0 <= i < ks.len() ==> agrees(
                #[trigger] ks[i],
                held_against(opts, ks[i], name, path),
            ),
    decreases ks.len(),
{
    if ks.len() > 0 {
        let front = ks.drop_last();
        let last = ks.len() - 1;
        let k = ks[last];
        let (a, b) = (sorted_out(front, opts, false), sorted_out(front, opts, true));
        lemma_accepts(front, opts, name, path);
        lemma_term(k, name);
        lemma_term(k, path);
        crate::query::law_more_keywords_accept_less(a, k, name);
        crate::query::law_more_keywords_accept_less(b, k, path);
        assert forall|i: int| 0 <= i < front.len() implies front[i] == #[trigger] ks[i] by {}
        if forall|i: int|
            0 <= i < front.len() ==> agrees(
                #[trigger] front[i],
                held_against(opts, front[i], name, path),
            ) {
            if agrees(k, held_against(opts, k, name, path)) {
                assert forall|i: int| 0 <= i < ks.len() implies agrees(
                    #[trigger] ks[i],
                    held_against(opts, ks[i], name, path),
                ) by {
                    if i < last {
                        assert(agrees(front[i], held_against(opts, front[i], name, path)));
                    }
                }
            }
        }
        if forall|i: int|
            0 <= i < ks.len() ==> agrees(
                #[trigger] ks[i],
                held_against(opts, ks[i], name, path),
            ) {
            assert(agrees(ks[last], held_against(opts, ks[last], name, path)));
            assert forall|i: int| 0 <= i < front.len() implies agrees(
                #[trigger] front[i],
                held_against(opts, front[i], name, path),
            ) by {
                assert(agrees(ks[i], held_against(opts, ks[i], name, path)));
            }
        }
    }
}

/// A query accepts an entry exactly where every word of the line agrees with what it is held
/// against: all of them, none left out.
pub proof fn law_every_word_has_to_agree(
    line: Seq<char>,
    opts: Options,
    name: Seq<u8>,
    path: Seq<u8>,
)
    ensures
        parsed(line, opts).accepts(name, path) <==> forall|i: int|
            0 <= i < words(line).len() ==> agrees(
                folded(#[trigger] words(line)[i]),
                held_against(opts, folded(words(line)[i]), name, path),
            ),
{
    let ks = keywords(line);
    lemma_accepts(ks, opts, name, path);
    assert forall|i: int| 0 <= i < ks.len() implies #[trigger] ks[i] == folded(words(line)[i]) by {}
    if parsed(line, opts).accepts(name, path) {
        assert forall|i: int| 0 <= i < words(line).len() implies agrees(
            folded(#[trigger] words(line)[i]),
            held_against(opts, folded(words(line)[i]), name, path),
        ) by {
            assert(agrees(ks[i], held_against(opts, ks[i], name, path)));
        }
    }
    if forall|i: int|
        0 <= i < words(line).len() ==> agrees(
            folded(#[trigger] words(line)[i]),
            held_against(opts, folded(words(line)[i]), name, path),
        ) {
        assert forall|i: int| 0 <= i < ks.len() implies agrees(
            #[trigger] ks[i],
            held_against(opts, ks[i], name, path),
        ) by {
            assert(agrees(
                folded(words(line)[i]),
                held_against(opts, folded(words(line)[i]), name, path),
            ));
        }
    }
}

/// `-t d` asks for directories, `-t f` for files; without it both are wanted. A line without
/// words asks for nothing.
pub proof fn law_kinds_that_are_wanted(line: Seq<char>, opts: Options)
    ensures
        parsed(line, opts).dirs() <==> opts.type_filter != Some(TypeFilter::Files),
        parsed(line, opts).files() <==> opts.type_filter != Some(TypeFilter::Dirs),
        parsed(line, opts).is_empty() <==> words(line).len() == 0,
{
    law_every_keyword_counts(line, opts);
}

// --- paths ---

/// Names with one separator between; one that ends in a separator gets no other.
pub open spec fn slashed(names: Seq<Seq<u8>>) -> Seq<u8>
    decreases names.len(),
{
    if names.len() == 0 {
        Seq::empty()
    } else if names.len() == 1 {
        names[0]
    } else {
        let front = slashed(names.drop_last());
        if front.len() > 0 && front.last() == 0x2f {
            front + names.last()
        } else if front.len() > 0 {
            front + seq![0x2fu8] + names.last()
        } else {
            names.last()
        }
    }
}

/// `chain` leads from a directory without parent down to its last, each the parent of the
/// next.
pub open spec fn leads_down(dirs: Seq<DirItem>, chain: Seq<u32>) -> bool {
    &&& chain.len() > 0
    &&& forall|i: int| 0 <= i < chain.len() ==> (#[trigger] chain[i]) < dirs.len()
    &&& dirs[chain[0] as int].parent == u32::MAX
    &&& forall|i: int, j: int|
        0 <= i && j == i + 1 && j < chain.len() ==> dirs[(#[trigger] chain[j]) as int].parent == (
        #[trigger] chain[i])
}

proof fn lemma_chain(dirs: Seq<DirItem>, chain: Seq<u32>, levels: nat)
    requires
        dirs.len() < u32::MAX,
        leads_down(dirs, chain),
        chain.len() <= levels,
    ensures
        path_to(dirs, chain.last(), levels) == slashed(
            chain.map_values(|d: u32| dirs[d as int].name),
        ),
    decreases chain.len(),
{
    let names = chain.map_values(|d: u32| dirs[d as int].name);
    let id = chain.last();
    assert(chain[chain.len() - 1] == id);
    if chain.len() == 1 {
        assert(path_to(dirs, u32::MAX, (levels - 1) as nat) =~= Seq::empty());
    } else {
        let front = chain.drop_last();
        let up = front.last();
        assert(chain[chain.len() - 2] == up);
        assert(dirs[id as int].parent == up);
        assert(leads_down(dirs, front)) by {
            assert forall|i: int| 0 <= i < front.len() implies front[i] == #[trigger] chain[i] by {}
            assert(front[0] == chain[0]);
            assert forall|i: int, j: int|
                0 <= i && j == i + 1 && j < front.len() implies dirs[(
            #[trigger] front[j]) as int].parent == (#[trigger] front[i]) by {
                assert(chain[j] == front[j] && chain[i] == front[i]);
            }
        }
        lemma_chain(dirs, front, (levels - 1) as nat);
        assert(names.drop_last() =~= front.map_values(|d: u32| dirs[d as int].name));
        let above = path_to(dirs, up, (levels - 1) as nat);
        law_joining_puts_one_separator(above, dirs[id as int].name);
    }
}

/// The path of a directory is made of the names from the root down to it, one separator
/// between each two.
pub proof fn law_paths_are_names_from_the_root(dirs: Seq<DirItem>, chain: Seq<u32>)
    requires
        dirs.len() < u32::MAX,
        leads_down(dirs, chain),
        chain.len() <= 256,
    ensures
        dir_path_of(dirs, chain.last()) == slashed(chain.map_values(|d: u32| dirs[d as int].name)),
{
    lemma_chain(dirs, chain, MAX_CLIMB as nat);
}

/// The path of a file is that of its directory and its name; that of a directory is listed
/// with a separator behind it.
pub proof fn law_paths_that_are_listed(s: State, d: u32, f: u32)
    ensures
        hit_path(s, Hit::Dir(d)) == dir_path_of(s.dirs, d) + seq![0x2fu8],
        ({
            let dir = dir_path_of(s.dirs, s.files[f as int].parent);
            let name = s.files[f as int].name;
            hit_path(s, Hit::File(f)) == if dir.len() > 0 && dir.last() == 0x2f {
                dir + name
            } else {
                dir + seq![0x2fu8] + name
            }
        }),
{
    let dir = dir_path_of(s.dirs, s.files[f as int].parent);
    law_joining_puts_one_separator(dir, s.files[f as int].name);
    assert(hit_path(s, Hit::Dir(d)) =~= dir_path_of(s.dirs, d) + seq![0x2fu8]);
}

// --- hits ---

/// The words of the line agree with an entry of this name at this path.
pub open spec fn fits_line(line: Seq<char>, opts: Options, name: Seq<u8>, path: Seq<u8>) -> bool {
    &&& words(line).len() > 0
    &&& forall|i: int|
        0 <= i < words(line).len() ==> agrees(
            folded(#[trigger] words(line)[i]),
            held_against(opts, folded(words(line)[i]), name, path),
        )
}

/// A search of the service finds exactly the entries that are there, of the kinds that are
/// wanted, and with which every word of the line agrees; each once, in the order of their
/// ids.
#[verifier::rlimit(60)]
pub proof fn law_the_service_finds_what_fits(s: State, line: Seq<char>, opts: Options, id: u32)
    requires
        s.sound(),
    ensures
        ({
            let q = parsed(line, opts);
            &&& s.file_hits(q).contains(id) <==> {
                &&& opts.type_filter != Some(TypeFilter::Dirs)
                &&& id < s.files.len() && s.file_alive[id as int]
                &&& fits_line(
                    line,
                    opts,
                    s.files[id as int].name,
                    join(
                        dir_path_of(s.dirs, s.files[id as int].parent),
                        s.files[id as int].name,
                    ),
                )
            }
            &&& s.dir_hits(q).contains(id) <==> {
                &&& opts.type_filter != Some(TypeFilter::Files)
                &&& id < s.dirs.len() && s.dir_alive[id as int]
                &&& id >= s.base_dirs || s.dirs[id as int].name.len() > 0
                &&& fits_line(
                    line,
                    opts,
                    s.dirs[id as int].name,
                    dir_path_of(s.dirs, id),
                )
            }
            &&& forall|i: int, j: int|
                0 <= i < j < s.file_hits(q).len() ==> (#[trigger] s.file_hits(q)[i]) < (
                #[trigger] s.file_hits(q)[j])
            &&& forall|i: int, j: int|
                0 <= i < j < s.dir_hits(q).len() ==> (#[trigger] s.dir_hits(q)[i]) < (
                #[trigger] s.dir_hits(q)[j])
        }),
{
    let q = parsed(line, opts);
    law_kinds_that_are_wanted(line, opts);
    law_every_word_has_to_agree(
        line,
        opts,
        s.files[id as int].name,
        join(dir_path_of(s.dirs, s.files[id as int].parent), s.files[id as int].name),
    );
    law_every_word_has_to_agree(line, opts, s.dirs[id as int].name, dir_path_of(s.dirs, id));
    if !q.is_empty() {
        law_search_finds_what_is_there(s, q, id);
        if !q.files() {
            assert(!s.file_hits(q).contains(id));
        }
        if !q.dirs() {
            assert(!s.dir_hits(q).contains(id));
        }
    }
    lemma_between_rises(0, s.files.len() as int, s.found(q));
    let p = |d: int|
        s.dir_alive[d] && (d >= s.base_dirs || s.dirs[d].name.len() > 0) && dir_hit(s.dirs, q, d);
    lemma_between_rises(0, s.dirs.len() as int, p);
    if !q.is_empty() && q.dirs() {
        assert(s.dir_hits(q) == between(0, s.dirs.len() as int, p));
    }
}

/// All hits of the service: directories, then files.
pub open spec fn all_hits(s: State, q: Parsed) -> Seq<Hit> {
    Seq::new(s.dir_hits(q).len(), |i: int| Hit::Dir(s.dir_hits(q)[i])) + Seq::new(
        s.file_hits(q).len(),
        |i: int| Hit::File(s.file_hits(q)[i]),
    )
}

/// A search lists the first of all hits, as many as the limit allows and no fewer, and counts
/// all of them.
pub proof fn law_the_limit_is_filled(s: State, q: Parsed, limit: int)
    requires
        limit >= 0,
    ensures
        limit >= all_hits(s, q).len() ==> hit_list(s, q, limit) == all_hits(s, q),
        limit <= all_hits(s, q).len() ==> hit_list(s, q, limit).len() == limit,
        limit <= all_hits(s, q).len() ==> hit_list(s, q, limit) == all_hits(s, q).take(limit),
        hit_total(s, q) == all_hits(s, q).len(),
{
    let all = all_hits(s, q);
    if limit >= all.len() {
        assert(hit_list(s, q, limit) =~= all);
    } else {
        assert(hit_list(s, q, limit) =~= all.take(limit));
    }
}

/// A search that is given more room lists the same hits first.
pub proof fn law_more_room_keeps_the_hits(s: State, q: Parsed, a: int, b: int)
    requires
        0 <= a <= b,
    ensures
        hit_list(s, q, a).is_prefix_of(hit_list(s, q, b)),
        hit_list(s, q, b).len() - hit_list(s, q, a).len() <= b - a,
        hit_list(s, q, a).len() < a ==> hit_list(s, q, b) == hit_list(s, q, a),
{
    law_the_limit_is_filled(s, q, a);
    law_the_limit_is_filled(s, q, b);
    let (x, y) = (hit_list(s, q, a), hit_list(s, q, b));
    assert(y.subrange(0, x.len() as int) =~= x);
}

/// A search of the index file lists what the service lists that was made from it.
pub proof fn law_file_and_service_list_the_same(c: Contents, q: Parsed, limit: int)
    requires
        c.consistent(),
        limit >= 0,
    ensures
        ({
            let f = c.found(q, limit);
            &&& hit_list(fresh(c), q, limit) == Seq::new(
                f.dirs.len(),
                |i: int| Hit::Dir(f.dirs[i]),
            ) + Seq::new(f.files.len(), |i: int| Hit::File(f.files[i]))
            &&& hit_total(fresh(c), q) == f.total
            &&& f.dirs.len() + f.files.len() == if f.total < limit {
                f.total as int
            } else {
                limit
            }
        }),
{
    let f = c.found(q, limit);
    law_service_and_file_agree(c, q);
    law_the_limit_is_filled(fresh(c), q, limit);
    assert(hit_list(fresh(c), q, limit) =~= Seq::new(f.dirs.len(), |i: int| Hit::Dir(f.dirs[i]))
        + Seq::new(f.files.len(), |i: int| Hit::File(f.files[i])));
}

/// A search line without options is for directories and files, and holds a keyword against
/// the path where it is a pattern or holds a separator, and against the name otherwise.
pub proof fn law_plain_lines(line: Seq<char>, name: Seq<u8>, path: Seq<u8>)
    ensures
        plain_query(line).dirs(),
        plain_query(line).files(),
        plain_query(line).accepts(name, path) <==> forall|i: int|
            0 <= i < words(line).len() ==> {
                let k = folded(#[trigger] words(line)[i]);
                if wild(k) || k.contains(0x2f) {
                    agrees(k, path)
                } else {
                    agrees(k, name)
                }
            },
{
    let opts = Options { whole_path: false, basename: false, type_filter: None };
    law_every_word_has_to_agree(line, opts, name, path);
    if plain_query(line).accepts(name, path) {
        assert forall|i: int| 0 <= i < words(line).len() implies {
            let k = folded(#[trigger] words(line)[i]);
            if wild(k) || k.contains(0x2f) {
                agrees(k, path)
            } else {
                agrees(k, name)
            }
        } by {
            assert(agrees(
                folded(words(line)[i]),
                held_against(opts, folded(words(line)[i]), name, path),
            ));
        }
    }
}

/// Hits are listed in the order in which the entries stand, each once.
pub proof fn law_hits_are_in_order(s: State, c: Contents, q: Parsed, i: int, j: int)
    requires
        s.dirs.len() <= u32::MAX,
        s.files.len() <= u32::MAX,
        c.nodes.len() <= u32::MAX,
        c.recs.len() <= u32::MAX,
        0 <= i < j,
    ensures
        j < s.dir_hits(q).len() ==> s.dir_hits(q)[i] < s.dir_hits(q)[j],
        j < s.file_hits(q).len() ==> s.file_hits(q)[i] < s.file_hits(q)[j],
        j < c.dir_hits(q).len() ==> c.dir_hits(q)[i] < c.dir_hits(q)[j],
        j < c.file_hits(q).len() ==> c.file_hits(q)[i] < c.file_hits(q)[j],
{
    lemma_between_rises(
        0,
        s.dirs.len() as int,
        |id: int|
            s.dir_alive[id] && (id >= s.base_dirs || s.dirs[id].name.len() > 0) && dir_hit(
                s.dirs,
                q,
                id,
            ),
    );
    lemma_between_rises(0, s.files.len() as int, s.found(q));
    lemma_between_rises(
        0,
        c.nodes.len() as int,
        |id: int| c.nodes[id].name_len > 0 && dir_hit(c.dirs(), q, id),
    );
    lemma_between_rises(0, c.recs.len() as int, |i: int| file_hit(c.dirs(), c.files(), q, i));
}

} // verus!
