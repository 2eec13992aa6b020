//! Queries: how a search line is read, and what it accepts.
//!
//! Keywords are combined with AND and ignore case. Each decides for itself how it
//! is compared:
//!
//! | keyword            | comparison                   | compared with |
//! |--------------------|------------------------------|---------------|
//! | plain              | substring                    | name          |
//! | holds `/`          | substring                    | full path     |
//! | holds `*` `?` `[`  | wildcard, from end to end    | full path     |
//!
//! `-b` compares every keyword with the name, `-w` every keyword with the path.

use vstd::prelude::*;
use vstd::slice::slice_subrange;

use crate::glob::{glob_match, has_glob_chars, trailing_literal};
#[allow(unused_imports)]
use crate::glob::{
    glob, is_glob, law_match_ends_in_literal_tail, lemma_tok_at, literal_tail, tail_anchor, tok_at,
    tokens, tokens_from, Tok,
};
use crate::text::{contains_ci, extend, has_byte, SLASH};
#[allow(unused_imports)]
use crate::text::{is_lowered, join, lemma_lowered, lower_byte, lowered, occurs, occurs_at};
use crate::words::folded_words;
#[allow(unused_imports)]
use crate::words::{folded, law_words_hold_no_space, law_words_ignore_case, same_text, words};

verus! {

/// Which kinds of entries a search returns.
#[derive(Clone, Copy, PartialEq, Eq, Debug, Structural)]
pub enum TypeFilter {
    /// Directories and files.
    All,
    /// Directories only.
    Dirs,
    /// Files only.
    Files,
}

/// The options of a search, as given on the command line.
#[derive(Clone, Copy)]
pub struct Options {
    /// Compare every keyword with the full path.
    pub whole_path: bool,
    /// Compare every keyword with the name only.
    pub basename: bool,
    /// Restriction to one kind of entry.
    pub type_filter: Option<TypeFilter>,
}

impl Default for Options {
    fn default() -> (r: Options)
        ensures
            r == (Options { whole_path: false, basename: false, type_filter: None }),
    {
        Options { whole_path: false, basename: false, type_filter: None }
    }
}

/// How one keyword is compared.
#[derive(Clone, Copy, PartialEq, Eq, Debug, Structural)]
pub enum Kind {
    /// Anywhere in the text.
    Substr,
    /// As a wildcard pattern, from end to end.
    Glob,
}

/// One keyword, ready for comparison.
#[derive(Clone)]
pub struct Term {
    pat: Vec<u8>,
    kind: Kind,
    /// The literal tail of a wildcard pattern, where it can narrow a scan.
    glob_anchor: Option<Vec<u8>>,
}

/// A parsed query.
pub struct Query {
    terms: Vec<Term>,
    path_terms: Vec<Term>,
    type_filter: TypeFilter,
    /// Length of the longest substring keyword that is compared with the path.
    max_path_substr: usize,
    /// Whether a wildcard is compared with the path.
    path_has_glob: bool,
}

// --- what a query means ---

/// The meaning of a query: the keywords compared with the name, those compared
/// with the path (both folded), and the kinds of entries wanted.
pub ghost struct Parsed {
    pub names: Seq<Seq<u8>>,
    pub paths: Seq<Seq<u8>>,
    pub filter: TypeFilter,
}

/// Whether the keyword `pat` accepts the text `hay`.
pub open spec fn term_hits(pat: Seq<u8>, hay: Seq<u8>) -> bool {
    if is_glob(pat) {
        glob(pat, hay)
    } else {
        occurs(lowered(hay), pat)
    }
}

/// Whether every keyword of `pats` accepts `hay`.
pub open spec fn all_hit(pats: Seq<Seq<u8>>, hay: Seq<u8>) -> bool {
    forall|i: int| 0 <= i < pats.len() ==> term_hits(#[trigger] pats[i], hay)
}

/// Whether the keyword `pat` is compared with the path.
pub open spec fn goes_to_path(opts: Options, pat: Seq<u8>) -> bool {
    !opts.basename && (opts.whole_path || is_glob(pat) || pat.contains(SLASH))
}

/// The keywords of `pats` that are compared with the path (`to_path`), or the
/// others, in order.
pub open spec fn sorted_out(pats: Seq<Seq<u8>>, opts: Options, to_path: bool) -> Seq<Seq<u8>>
    decreases pats.len(),
{
    if pats.len() == 0 {
        Seq::empty()
    } else {
        let before = sorted_out(pats.drop_last(), opts, to_path);
        if goes_to_path(opts, pats.last()) == to_path {
            before.push(pats.last())
        } else {
            before
        }
    }
}

/// The folded keywords of a search line.
pub open spec fn keywords(s: Seq<char>) -> Seq<Seq<u8>> {
    words(s).map_values(|w: Seq<char>| folded(w))
}

/// The meaning of the search line `s` under `opts`.
pub open spec fn parsed(s: Seq<char>, opts: Options) -> Parsed {
    Parsed {
        names: sorted_out(keywords(s), opts, false),
        paths: sorted_out(keywords(s), opts, true),
        filter: match opts.type_filter {
            Some(f) => f,
            None => TypeFilter::All,
        },
    }
}

/// The meaning of the search line `s` without options.
pub open spec fn plain_query(s: Seq<char>) -> Parsed {
    parsed(s, Options { whole_path: false, basename: false, type_filter: None })
}

/// Every keyword is non-empty and folded, as parsing leaves it.
pub open spec fn canonical(pats: Seq<Seq<u8>>) -> bool {
    forall|i: int| 0 <= i < pats.len() ==> is_lowered(#[trigger] pats[i]) && pats[i].len() > 0
}

impl Parsed {
    /// Every keyword is non-empty and folded.
    pub open spec fn canonical(self) -> bool {
        canonical(self.names) && canonical(self.paths)
    }

    /// Without keywords.
    pub open spec fn is_empty(self) -> bool {
        self.names.len() == 0 && self.paths.len() == 0
    }

    /// Directories are wanted.
    pub open spec fn dirs(self) -> bool {
        self.filter != TypeFilter::Files
    }

    /// Files are wanted.
    pub open spec fn files(self) -> bool {
        self.filter != TypeFilter::Dirs
    }

    /// The query accepts an entry of this name at this path.
    pub open spec fn accepts(self, name: Seq<u8>, path: Seq<u8>) -> bool {
        all_hit(self.names, name) && all_hit(self.paths, path)
    }

    /// The literal tail of every wildcard that is compared with the path stands
    /// in `name`.
    pub open spec fn prefilter(self, name: Seq<u8>) -> bool {
        forall|i: int|
            0 <= i < self.paths.len() ==> (path_anchor(#[trigger] self.paths[i]) matches Some(a)
                ==> occurs(lowered(name), a))
    }

    /// The texts that can serve as an anchor, in keyword order, those of the name
    /// first.
    pub open spec fn anchors(self) -> Seq<Seq<u8>> {
        anchors_of(self.names, false) + anchors_of(self.paths, true)
    }
}

/// The literal tail of a wildcard keyword.
pub open spec fn path_anchor(pat: Seq<u8>) -> Option<Seq<u8>> {
    if is_glob(pat) {
        tail_anchor(pat)
    } else {
        None
    }
}

/// What the keywords of `pats` offer as anchors. A substring that is compared
/// with the path offers none: it may lie in the directory part.
pub open spec fn anchors_of(pats: Seq<Seq<u8>>, to_path: bool) -> Seq<Seq<u8>>
    decreases pats.len(),
{
    if pats.len() == 0 {
        Seq::empty()
    } else {
        let before = anchors_of(pats.drop_last(), to_path);
        let pat = pats.last();
        if !is_glob(pat) && !to_path {
            before.push(pat)
        } else {
            match path_anchor(pat) {
                Some(a) => before.push(a),
                None => before,
            }
        }
    }
}

/// The longest text of `cands`, the last one of several.
pub open spec fn last_longest(cands: Seq<Seq<u8>>) -> Option<Seq<u8>>
    decreases cands.len(),
{
    if cands.len() == 0 {
        None
    } else {
        match last_longest(cands.drop_last()) {
            Some(best) if best.len() > cands.last().len() => Some(best),
            _ => Some(cands.last()),
        }
    }
}

/// Length of the longest substring keyword among `pats`.
pub open spec fn longest_substr(pats: Seq<Seq<u8>>) -> nat
    decreases pats.len(),
{
    if pats.len() == 0 {
        0
    } else {
        let before = longest_substr(pats.drop_last());
        if is_glob(pats.last()) || pats.last().len() <= before {
            before
        } else {
            pats.last().len()
        }
    }
}

/// Whether a wildcard is among `pats`.
pub open spec fn any_glob(pats: Seq<Seq<u8>>) -> bool {
    exists|i: int| 0 <= i < pats.len() && is_glob(#[trigger] pats[i])
}

/// The part of a file's path that has to be looked at once its directory has been:
/// all of it for wildcards; for substrings, as much of the directory as one can
/// reach back from the name.
pub open spec fn window(paths: Seq<Seq<u8>>, dir: Seq<u8>, name: Seq<u8>) -> Seq<u8> {
    let reach = longest_substr(paths) - 1;
    if any_glob(paths) || reach >= dir.len() {
        join(dir, name)
    } else if reach < 0 {
        join(dir, name).skip(dir.len() as int)
    } else {
        join(dir, name).skip(dir.len() - reach)
    }
}

// --- facts about the definitions ---

proof fn lemma_tokens_lowered(pat: Seq<u8>, p: int)
    requires
        is_lowered(pat),
        0 <= p <= pat.len(),
    ensures
        forall|j: int|
            0 <= j < tokens_from(pat, p).len() ==> (#[trigger] tokens_from(pat, p)[j] matches Tok::Lit(
                c,
            ) ==> lower_byte(c) == c),
    decreases pat.len() - p,
{
    if p < pat.len() {
        lemma_tok_at(pat, p);
        let (tok, next) = tok_at(pat, p);
        lemma_tokens_lowered(pat, next);
        assert forall|j: int| 0 <= j < tokens_from(pat, p).len() implies (#[trigger] tokens_from(
            pat,
            p,
        )[j] matches Tok::Lit(c) ==> lower_byte(c) == c) by {
            if j > 0 {
                assert(tokens_from(pat, p)[j] == tokens_from(pat, next)[j - 1]);
            }
        }
    }
}

proof fn lemma_tail_lowered(toks: Seq<Tok>)
    requires
        forall|j: int|
            0 <= j < toks.len() ==> (#[trigger] toks[j] matches Tok::Lit(c) ==> lower_byte(c) == c),
    ensures
        is_lowered(literal_tail(toks)),
    decreases toks.len(),
{
    if toks.len() > 0 && toks.last() is Lit {
        lemma_tail_lowered(toks.drop_last());
    }
}

/// The anchor of a folded pattern is folded.
proof fn lemma_tail_anchor_lowered(pat: Seq<u8>)
    requires
        is_lowered(pat),
    ensures
        tail_anchor(pat) matches Some(a) ==> is_lowered(a) && a.len() > 0,
{
    lemma_tokens_lowered(pat, 0);
    lemma_tail_lowered(tokens(pat));
}

proof fn lemma_lowered_fixed(s: Seq<u8>)
    requires
        is_lowered(s),
    ensures
        lowered(s) == s,
{
    assert(lowered(s) =~= s);
}

proof fn lemma_last_longest(cands: Seq<Seq<u8>>)
    ensures
        cands.len() == 0 <==> last_longest(cands) is None,
        last_longest(cands) matches Some(a) ==> cands.contains(a) && forall|i: int|
            0 <= i < cands.len() ==> (#[trigger] cands[i]).len() <= a.len(),
    decreases cands.len(),
{
    if cands.len() > 0 {
        let front = cands.drop_last();
        lemma_last_longest(front);
        assert(cands.contains(cands.last()));
        if let Some(a) = last_longest(front) {
            let k = choose|k: int| 0 <= k < front.len() && front[k] == a;
            assert(cands[k] == a);
        }
        assert forall|i: int| 0 <= i < cands.len() implies (#[trigger] cands[i]).len()
            <= last_longest(cands)->Some_0.len() by {
            if i < front.len() {
                assert(front[i] == cands[i]);
            }
        }
    }
}

proof fn lemma_anchors_of(pats: Seq<Seq<u8>>, to_path: bool, a: Seq<u8>)
    requires
        anchors_of(pats, to_path).contains(a),
    ensures
        exists|i: int|
            0 <= i < pats.len() && ((!is_glob(#[trigger] pats[i]) && !to_path && pats[i] == a)
                || path_anchor(pats[i]) == Some(a)),
    decreases pats.len(),
{
    if pats.len() > 0 {
        let front = pats.drop_last();
        let before = anchors_of(front, to_path);
        let all = anchors_of(pats, to_path);
        let k = choose|k: int| 0 <= k < all.len() && all[k] == a;
        if k < before.len() {
            assert(before[k] == a);
            lemma_anchors_of(front, to_path, a);
            let i = choose|i: int|
                0 <= i < front.len() && ((!is_glob(#[trigger] front[i]) && !to_path && front[i]
                    == a) || path_anchor(front[i]) == Some(a));
            assert(front[i] == pats[i]);
        } else {
            assert(pats[pats.len() - 1] == pats.last());
        }
    }
}

/// Where a text that ends a path holds no separator, it lies in the last name.
proof fn lemma_tail_in_name(path: Seq<u8>, prefix: Seq<u8>, name: Seq<u8>, a: Seq<u8>)
    requires
        path == prefix + name,
        prefix.len() == 0 || prefix.last() == SLASH,
        !a.contains(SLASH),
        a.len() <= path.len(),
        lowered(path).subrange(path.len() - a.len(), path.len() as int) == a,
    ensures
        occurs(lowered(name), a),
{
    lemma_lowered(path);
    lemma_lowered(name);
    if a.len() > name.len() {
        let i = prefix.len() - 1;
        let k = i - (path.len() - a.len());
        assert(path[i] == SLASH);
        assert(lowered(path).subrange(path.len() - a.len(), path.len() as int)[k] == SLASH);
        assert(a.contains(a[k]));
        assert(false);
    }
    let at = name.len() - a.len();
    assert(lowered(name).subrange(at, at + a.len()) =~= lowered(path).subrange(
        path.len() - a.len(),
        path.len() as int,
    ));
    assert(occurs_at(lowered(name), a, at));
}

proof fn lemma_glob_tail(pat: Seq<u8>, text: Seq<u8>)
    requires
        is_lowered(pat),
        glob(pat, text),
    ensures
        tail_anchor(pat) matches Some(a) ==> a.len() <= text.len() && lowered(text).subrange(
            text.len() - a.len(),
            text.len() as int,
        ) == a,
{
    law_match_ends_in_literal_tail(pat, text);
    lemma_tail_anchor_lowered(pat);
    if let Some(a) = tail_anchor(pat) {
        lemma_lowered_fixed(a);
    }
}

// --- laws ---

/// The cheap test on the name never turns away an entry that the query accepts.
///
/// `prefix` is the directory part of the path, up to and with its separator.
pub proof fn law_prefilter_is_sound(q: Parsed, prefix: Seq<u8>, name: Seq<u8>)
    requires
        q.canonical(),
        prefix.len() == 0 || prefix.last() == SLASH,
        all_hit(q.paths, prefix + name),
    ensures
        q.prefilter(name),
{
    let path = prefix + name;
    assert forall|i: int| 0 <= i < q.paths.len() implies (path_anchor(#[trigger] q.paths[i]) matches Some(
        a,
    ) ==> occurs(lowered(name), a)) by {
        let pat = q.paths[i];
        if is_glob(pat) {
            assert(term_hits(pat, path));
            lemma_glob_tail(pat, path);
            if let Some(a) = tail_anchor(pat) {
                lemma_tail_in_name(path, prefix, name, a);
            }
        }
    }
}

/// The anchor of a query stands in the name of every entry that the query accepts.
pub proof fn law_anchor_is_sound(q: Parsed, prefix: Seq<u8>, name: Seq<u8>)
    requires
        q.canonical(),
        prefix.len() == 0 || prefix.last() == SLASH,
        q.accepts(name, prefix + name),
    ensures
        last_longest(q.anchors()) matches Some(a) ==> a.len() > 0 && occurs(lowered(name), a),
{
    let cands = q.anchors();
    lemma_last_longest(cands);
    if let Some(a) = last_longest(cands) {
        let k = choose|k: int| 0 <= k < cands.len() && cands[k] == a;
        let na = anchors_of(q.names, false);
        if k < na.len() {
            assert(na[k] == a);
            lemma_anchors_of(q.names, false, a);
            let i = choose|i: int|
                0 <= i < q.names.len() && ((!is_glob(#[trigger] q.names[i]) && q.names[i] == a)
                    || path_anchor(q.names[i]) == Some(a));
            let pat = q.names[i];
            assert(term_hits(pat, name));
            if is_glob(pat) {
                lemma_glob_tail(pat, name);
                lemma_tail_anchor_lowered(pat);
                let at = name.len() - a.len();
                lemma_lowered(name);
                assert(occurs_at(lowered(name), a, at));
            }
        } else {
            assert(anchors_of(q.paths, true)[k - na.len()] == a);
            lemma_anchors_of(q.paths, true, a);
            let i = choose|i: int|
                0 <= i < q.paths.len() && path_anchor(#[trigger] q.paths[i]) == Some(a);
            let pat = q.paths[i];
            lemma_tail_anchor_lowered(pat);
            law_prefilter_is_sound(q, prefix, name);
        }
    }
}

/// Comparison ignores case: texts that differ in the case of their letters only
/// are accepted by the same keywords.
pub proof fn law_terms_ignore_case(pat: Seq<u8>, a: Seq<u8>, b: Seq<u8>)
    requires
        lowered(a) == lowered(b),
    ensures
        term_hits(pat, a) == term_hits(pat, b),
{
    crate::glob::law_glob_ignores_case(pat, a, b);
}

/// Keywords are combined with AND, and their order is of no account: two lists
/// with the same keywords accept the same texts.
pub proof fn law_keyword_order_is_irrelevant(a: Seq<Seq<u8>>, b: Seq<Seq<u8>>, hay: Seq<u8>)
    requires
        a.to_set() == b.to_set(),
    ensures
        all_hit(a, hay) == all_hit(b, hay),
{
    if all_hit(a, hay) {
        lemma_same_keywords(a, b, hay);
    }
    if all_hit(b, hay) {
        lemma_same_keywords(b, a, hay);
    }
}

proof fn lemma_same_keywords(a: Seq<Seq<u8>>, b: Seq<Seq<u8>>, hay: Seq<u8>)
    requires
        a.to_set() == b.to_set(),
        all_hit(a, hay),
    ensures
        all_hit(b, hay),
{
    assert forall|i: int| 0 <= i < b.len() implies term_hits(#[trigger] b[i], hay) by {
        assert(b.contains(b[i]));
        assert(a.to_set().contains(b[i]));
        assert(a.contains(b[i]));
        let k = choose|k: int| 0 <= k < a.len() && a[k] == b[i];
        assert(term_hits(a[k], hay));
    }
}

/// A query accepts no more than each of its keywords alone: adding a keyword
/// never adds a hit.
pub proof fn law_more_keywords_accept_less(a: Seq<Seq<u8>>, pat: Seq<u8>, hay: Seq<u8>)
    ensures
        all_hit(a.push(pat), hay) == (all_hit(a, hay) && term_hits(pat, hay)),
{
    let b = a.push(pat);
    if all_hit(b, hay) {
        assert forall|i: int| 0 <= i < a.len() implies term_hits(#[trigger] a[i], hay) by {
            assert(b[i] == a[i]);
        }
        assert(term_hits(b[a.len() as int], hay));
    }
}

proof fn lemma_sorted_out_canonical(pats: Seq<Seq<u8>>, opts: Options, to_path: bool)
    requires
        canonical(pats),
    ensures
        canonical(sorted_out(pats, opts, to_path)),
    decreases pats.len(),
{
    if pats.len() > 0 {
        assert forall|i: int| 0 <= i < pats.drop_last().len() implies is_lowered(
            #[trigger] pats.drop_last()[i],
        ) && pats.drop_last()[i].len() > 0 by {
            assert(pats.drop_last()[i] == pats[i]);
        }
        lemma_sorted_out_canonical(pats.drop_last(), opts, to_path);
        assert(pats[pats.len() - 1] == pats.last());
    }
}

/// Every line parses to non-empty, folded keywords, so queries written in upper
/// and in lower case mean the same.
pub proof fn law_parsed_is_canonical(s: Seq<char>, opts: Options)
    ensures
        parsed(s, opts).canonical(),
{
    let ks = keywords(s);
    law_words_hold_no_space(s);
    assert forall|i: int| 0 <= i < ks.len() implies is_lowered(#[trigger] ks[i]) && ks[i].len()
        > 0 by {
        let w = words(s)[i];
        lemma_lowered(vstd::utf8::encode_utf8(w));
        assert(w.len() > 0);
    }
    lemma_sorted_out_canonical(ks, opts, true);
    lemma_sorted_out_canonical(ks, opts, false);
}

proof fn lemma_sorted_out_all(pats: Seq<Seq<u8>>, opts: Options, to_path: bool)
    requires
        forall|i: int| 0 <= i < pats.len() ==> goes_to_path(opts, #[trigger] pats[i]) == to_path,
    ensures
        sorted_out(pats, opts, to_path) == pats,
        sorted_out(pats, opts, !to_path) == Seq::<Seq<u8>>::empty(),
    decreases pats.len(),
{
    if pats.len() > 0 {
        let front = pats.drop_last();
        assert forall|i: int| 0 <= i < front.len() implies goes_to_path(opts, #[trigger] front[i])
            == to_path by {
            assert(front[i] == pats[i]);
        }
        lemma_sorted_out_all(front, opts, to_path);
        assert(pats[pats.len() - 1] == pats.last());
        assert(front.push(pats.last()) =~= pats);
    } else {
        assert(sorted_out(pats, opts, to_path) =~= pats);
    }
}

/// It does not matter whether a search line is written in upper or in lower case.
pub proof fn law_queries_ignore_case(s: Seq<char>, t: Seq<char>, opts: Options)
    requires
        same_text(s, t),
    ensures
        parsed(s, opts) == parsed(t, opts),
{
    law_words_ignore_case(s, t);
    assert(keywords(s) =~= keywords(t));
}

/// `-b` compares every keyword with the name.
pub proof fn law_basename_compares_names(s: Seq<char>, opts: Options)
    requires
        opts.basename,
    ensures
        parsed(s, opts).names == keywords(s),
        parsed(s, opts).paths.len() == 0,
{
    lemma_sorted_out_all(keywords(s), opts, false);
}

/// `-w` compares every keyword with the path.
pub proof fn law_whole_path_compares_paths(s: Seq<char>, opts: Options)
    requires
        opts.whole_path,
        !opts.basename,
    ensures
        parsed(s, opts).paths == keywords(s),
        parsed(s, opts).names.len() == 0,
{
    lemma_sorted_out_all(keywords(s), opts, true);
}

proof fn lemma_sorted_out_parts(pats: Seq<Seq<u8>>, opts: Options, hay: Seq<u8>)
    ensures
        all_hit(sorted_out(pats, opts, true), hay) && all_hit(sorted_out(pats, opts, false), hay)
            <==> all_hit(pats, hay),
        sorted_out(pats, opts, true).len() + sorted_out(pats, opts, false).len() == pats.len(),
    decreases pats.len(),
{
    if pats.len() > 0 {
        let front = pats.drop_last();
        let last = pats.last();
        lemma_sorted_out_parts(front, opts, hay);
        law_more_keywords_accept_less(front, last, hay);
        assert(front.push(last) =~= pats);
        law_more_keywords_accept_less(sorted_out(front, opts, true), last, hay);
        law_more_keywords_accept_less(sorted_out(front, opts, false), last, hay);
    }
}

/// No keyword is lost: each is compared either with the name or with the path.
pub proof fn law_every_keyword_counts(s: Seq<char>, opts: Options)
    ensures
        parsed(s, opts).names.len() + parsed(s, opts).paths.len() == keywords(s).len(),
        parsed(s, opts).is_empty() <==> words(s).len() == 0,
{
    lemma_sorted_out_parts(keywords(s), opts, Seq::empty());
}

// --- queries ---

impl Term {
    pub closed spec fn view(&self) -> Seq<u8> {
        self.pat@
    }

    pub closed spec fn wf(&self) -> bool {
        &&& is_lowered(self.pat@)
        &&& self.pat@.len() > 0
        &&& (self.kind == Kind::Glob) == is_glob(self.pat@)
        &&& match self.glob_anchor {
            Some(v) => path_anchor(self.pat@) == Some(v@),
            None => path_anchor(self.pat@) is None,
        }
    }

    fn new(pat: Vec<u8>) -> (r: Term)
        requires
            is_lowered(pat@),
            pat@.len() > 0,
        ensures
            r.wf(),
            r@ == pat@,
    {
        let kind = if has_glob_chars(pat.as_slice()) {
            Kind::Glob
        } else {
            Kind::Substr
        };
        let glob_anchor = if kind == Kind::Glob {
            trailing_literal(pat.as_slice())
        } else {
            None
        };
        Term { pat, kind, glob_anchor }
    }

    /// Whether the keyword accepts `hay`.
    pub fn hits(&self, hay: &[u8]) -> (r: bool)
        requires
            self.wf(),
        ensures
            r == term_hits(self@, hay@),
    {
        match self.kind {
            Kind::Substr => contains_ci(hay, self.pat.as_slice()),
            Kind::Glob => glob_match(self.pat.as_slice(), hay),
        }
    }
}

spec fn views(terms: Seq<Term>) -> Seq<Seq<u8>> {
    terms.map_values(|t: Term| t@)
}

spec fn all_wf(terms: Seq<Term>) -> bool {
    forall|i: int| 0 <= i < terms.len() ==> (#[trigger] terms[i]).wf()
}

/// Whether every keyword of `terms` accepts `hay`.
fn hits_all(terms: &Vec<Term>, hay: &[u8]) -> (r: bool)
    requires
        all_wf(terms@),
    ensures
        r == all_hit(views(terms@), hay@),
{
    for i in 0..terms.len()
        invariant
            all_wf(terms@),
            forall|j: int| 0 <= j < i ==> term_hits(#[trigger] views(terms@)[j], hay@),
    {
        if !terms[i].hits(hay) {
            assert(!term_hits(views(terms@)[i as int], hay@));
            return false;
        }
        assert(views(terms@)[i as int] == terms@[i as int]@);
    }
    true
}

impl View for Query {
    type V = Parsed;

    closed spec fn view(&self) -> Parsed {
        Parsed {
            names: views(self.terms@),
            paths: views(self.path_terms@),
            filter: self.type_filter,
        }
    }
}

impl Query {
    #[verifier::type_invariant]
    pub closed spec fn wf(&self) -> bool {
        &&& all_wf(self.terms@)
        &&& all_wf(self.path_terms@)
        &&& self.max_path_substr == longest_substr(self@.paths)
        &&& self.path_has_glob == any_glob(self@.paths)
    }

    /// Reads a search line without options.
    pub fn parse(s: &str) -> (r: Query)
        ensures
            r@ == parsed(
                s@,
                (Options { whole_path: false, basename: false, type_filter: None }),
            ),
            r@ == plain_query(s@),
    {
        Query::parse_opts(s, Options::default())
    }

    /// Reads a search line.
    #[verifier::rlimit(60)]
    pub fn parse_opts(s: &str, opts: Options) -> (r: Query)
        ensures
            r@ == parsed(s@, opts),
    {
        let list = folded_words(s);
        let ghost ks = keywords(s@);
        let mut terms: Vec<Term> = Vec::new();
        let mut path_terms: Vec<Term> = Vec::new();
        let mut max_path_substr: usize = 0;
        let mut path_has_glob = false;
        proof {
            law_words_hold_no_space(s@);
            assert(views(terms@) =~= Seq::empty());
        }
        for i in 0..list.len()
            invariant
                ks == keywords(s@),
                list@.len() == ks.len(),
                forall|k: int|
                    0 <= k < words(s@).len() ==> (#[trigger] words(s@)[k]).len() > 0,
                forall|k: int|
                    0 <= k < list@.len() ==> (#[trigger] list@[k])@ == folded(words(s@)[k]),
                all_wf(terms@),
                all_wf(path_terms@),
                views(terms@) == sorted_out(ks.take(i as int), opts, false),
                views(path_terms@) == sorted_out(ks.take(i as int), opts, true),
                max_path_substr == longest_substr(views(path_terms@)),
                path_has_glob == any_glob(views(path_terms@)),
        {
            let pat = crate::text::copy(list[i].as_slice());
            let ghost old_names = terms@;
            let ghost old_paths = path_terms@;
            let n = pat.len();
            proof {
                lemma_lowered(vstd::utf8::encode_utf8(words(s@)[i as int]));
                assert(words(s@)[i as int].len() > 0);
                assert(ks[i as int] == pat@);
                assert(ks.take(i + 1).drop_last() =~= ks.take(i as int));
                assert(ks.take(i + 1).last() == pat@);
            }
            let is_wild = has_glob_chars(pat.as_slice());
            let to_path = !opts.basename && (opts.whole_path || is_wild || has_byte(
                pat.as_slice(),
                SLASH,
            ));
            let term = Term::new(pat);
            if to_path {
                path_terms.push(term);
                if is_wild {
                    path_has_glob = true;
                } else if n > max_path_substr {
                    max_path_substr = n;
                }
                proof {
                    let vo = views(old_paths);
                    let vn = views(path_terms@);
                    assert(vn =~= vo.push(pat@));
                    assert(vn.drop_last() =~= vo);
                    assert(vn[vo.len() as int] == pat@);
                    assert forall|k: int| 0 <= k < vo.len() implies vo[k] == #[trigger] vn[k] by {}
                    if any_glob(vo) {
                        let k = choose|k: int| 0 <= k < vo.len() && is_glob(#[trigger] vo[k]);
                        assert(is_glob(vn[k]));
                    }
                    if any_glob(vn) {
                        let k = choose|k: int| 0 <= k < vn.len() && is_glob(#[trigger] vn[k]);
                        if k < vo.len() {
                            assert(is_glob(vo[k]));
                        }
                    }
                }
            } else {
                terms.push(term);
                assert(views(terms@) =~= views(old_names).push(pat@));
            }
        }
        assert(ks.take(ks.len() as int) =~= ks);
        Query {
            terms,
            path_terms,
            type_filter: match opts.type_filter {
                Some(f) => f,
                None => TypeFilter::All,
            },
            max_path_substr,
            path_has_glob,
        }
    }

    /// Whether there is nothing to look for.
    ///
    /// Whatever it looks for, a query's keywords are non-empty and folded.
    pub fn is_empty(&self) -> (r: bool)
        ensures
            r == self@.is_empty(),
            self@.canonical(),
    {
        proof {
            use_type_invariant(self);
            assert forall|i: int| 0 <= i < self@.names.len() implies is_lowered(
                #[trigger] self@.names[i],
            ) && self@.names[i].len() > 0 by {
                assert(self.terms@[i].wf());
            }
            assert forall|i: int| 0 <= i < self@.paths.len() implies is_lowered(
                #[trigger] self@.paths[i],
            ) && self@.paths[i].len() > 0 by {
                assert(self.path_terms@[i].wf());
            }
        }
        self.terms.len() == 0 && self.path_terms.len() == 0
    }

    /// Whether a keyword is compared with the name.
    pub fn has_name_terms(&self) -> (r: bool)
        ensures
            r == (self@.names.len() > 0),
    {
        self.terms.len() > 0
    }

    /// Whether a keyword is compared with the path.
    pub fn has_path_terms(&self) -> (r: bool)
        ensures
            r == (self@.paths.len() > 0),
    {
        self.path_terms.len() > 0
    }

    /// Whether directories are wanted.
    pub fn wants_dirs(&self) -> (r: bool)
        ensures
            r == self@.dirs(),
    {
        self.type_filter != TypeFilter::Files
    }

    /// Whether files are wanted.
    pub fn wants_files(&self) -> (r: bool)
        ensures
            r == self@.files(),
    {
        self.type_filter != TypeFilter::Dirs
    }

    /// Whether every keyword that is compared with the name accepts `name`.
    pub fn matches(&self, name: &[u8]) -> (r: bool)
        ensures
            r == all_hit(self@.names, name@),
    {
        proof {
            use_type_invariant(self);
        }
        hits_all(&self.terms, name)
    }

    /// A text that stands, folded, in the name of every entry that the query
    /// accepts; the longest that the keywords offer.
    ///
    /// It narrows a scan and proves nothing about any keyword: an entry that holds
    /// it still has to be compared in full.
    #[verifier::rlimit(60)]
    pub fn anchor(&self) -> (r: Option<&[u8]>)
        ensures
            match r {
                Some(a) => last_longest(self@.anchors()) == Some(a@),
                None => last_longest(self@.anchors()) is None,
            },
    {
        proof {
            use_type_invariant(self);
        }
        let mut best: Option<&[u8]> = None;
        let ghost names = self@.names;
        let ghost paths = self@.paths;
        assert(anchors_of(names.take(0), false) =~= Seq::empty());
        for i in 0..self.terms.len()
            invariant
                names == views(self.terms@),
                all_wf(self.terms@),
                match best {
                    Some(a) => last_longest(anchors_of(names.take(i as int), false)) == Some(a@),
                    None => last_longest(anchors_of(names.take(i as int), false)) is None,
                },
        {
            let t = &self.terms[i];
            let ghost cands = anchors_of(names.take(i as int), false);
            proof {
                assert(t.wf());
                assert(names.take(i + 1).drop_last() =~= names.take(i as int));
                assert(names.take(i + 1).last() == t@);
                assert(cands.push(t@).drop_last() =~= cands);
                if let Some(a) = path_anchor(t@) {
                    assert(cands.push(a).drop_last() =~= cands);
                }
            }
            let cand: Option<&[u8]> = match t.kind {
                Kind::Substr => Some(t.pat.as_slice()),
                Kind::Glob => match &t.glob_anchor {
                    Some(a) => Some(a.as_slice()),
                    None => None,
                },
            };
            best = longer(best, cand);
        }
        assert(names.take(names.len() as int) =~= names);
        let ghost na = anchors_of(names, false);
        assert(na + anchors_of(paths.take(0), true) =~= na);
        for i in 0..self.path_terms.len()
            invariant
                paths == views(self.path_terms@),
                all_wf(self.path_terms@),
                match best {
                    Some(a) => last_longest(na + anchors_of(paths.take(i as int), true)) == Some(
                        a@,
                    ),
                    None => last_longest(na + anchors_of(paths.take(i as int), true)) is None,
                },
        {
            let t = &self.path_terms[i];
            let ghost cands = na + anchors_of(paths.take(i as int), true);
            proof {
                assert(t.wf());
                assert(paths.take(i + 1).drop_last() =~= paths.take(i as int));
                assert(paths.take(i + 1).last() == t@);
                if let Some(a) = path_anchor(t@) {
                    assert(cands.push(a).drop_last() =~= cands);
                    assert(na + anchors_of(paths.take(i + 1), true) =~= cands.push(a));
                }
            }
            let cand: Option<&[u8]> = match &t.glob_anchor {
                Some(a) => Some(a.as_slice()),
                None => None,
            };
            best = longer(best, cand);
        }
        assert(paths.take(paths.len() as int) =~= paths);
        best
    }

    /// A cheap test on the name, to be made before a full path is put together:
    /// the literal tail of every wildcard that is compared with the path stands in
    /// the name.
    pub fn name_prefilter(&self, name: &[u8]) -> (r: bool)
        ensures
            r == self@.prefilter(name@),
    {
        proof {
            use_type_invariant(self);
        }
        let ghost paths = self@.paths;
        for i in 0..self.path_terms.len()
            invariant
                paths == views(self.path_terms@),
                all_wf(self.path_terms@),
                forall|j: int|
                    0 <= j < i ==> (path_anchor(#[trigger] paths[j]) matches Some(a) ==> occurs(
                        lowered(name@),
                        a,
                    )),
        {
            let t = &self.path_terms[i];
            assert(t.wf());
            assert(paths[i as int] == t@);
            match &t.glob_anchor {
                Some(a) => {
                    if !contains_ci(name, a.as_slice()) {
                        return false;
                    }
                },
                None => {},
            }
        }
        true
    }

    /// Whether every keyword that is compared with the path accepts the directory
    /// path `dir_path`.
    pub fn path_ok_dir(&self, dir_path: &[u8]) -> (r: bool)
        ensures
            r == all_hit(self@.paths, dir_path@),
    {
        proof {
            use_type_invariant(self);
        }
        hits_all(&self.path_terms, dir_path)
    }

    /// Whether every keyword that is compared with the path accepts the file `name`
    /// in the directory `dir_path`.
    ///
    /// Without wildcards the full path is not put together: a substring that does
    /// not lie in the directory path reaches over its end, so the end of the
    /// directory path and the name are enough. `buf` is scratch space that the
    /// caller keeps from call to call.
    #[verifier::rlimit(60)]
    pub fn path_ok_file(&self, dir_path: &[u8], name: &[u8], buf: &mut Vec<u8>) -> (r: bool)
        ensures
            r == all_hit(self@.paths, join(dir_path@, name@)),
            final(buf)@ == if self@.paths.len() == 0 {
                old(buf)@
            } else {
                window(self@.paths, dir_path@, name@)
            },
    {
        proof {
            use_type_invariant(self);
        }
        if self.path_terms.len() == 0 {
            return true;
        }
        let ghost full = join(dir_path@, name@);
        let ghost paths = self@.paths;
        let n = dir_path.len();
        let start = if self.path_has_glob {
            0
        } else if self.max_path_substr == 0 {
            n
        } else if self.max_path_substr - 1 >= n {
            0
        } else {
            n - (self.max_path_substr - 1)
        };
        buf.clear();
        extend(buf, slice_subrange(dir_path, start, n));
        if n == 0 || dir_path[n - 1] != SLASH {
            buf.push(SLASH);
        }
        extend(buf, name);
        assert(buf@ =~= full.skip(start as int));
        assert(full.skip(0) =~= full);
        assert(buf@ == window(paths, dir_path@, name@));
        if self.path_has_glob {
            return hits_all(&self.path_terms, buf.as_slice());
        }
        for i in 0..self.path_terms.len()
            invariant
                paths == views(self.path_terms@),
                all_wf(self.path_terms@),
                !any_glob(paths),
                self.max_path_substr == longest_substr(paths),
                full == join(dir_path@, name@),
                n == dir_path@.len(),
                buf@ == full.skip(start as int),
                buf@ == window(paths, dir_path@, name@),
                start <= n,
                start == 0 || self.max_path_substr == 0 || start == n - (self.max_path_substr - 1),
                forall|j: int| 0 <= j < i ==> term_hits(#[trigger] paths[j], full),
        {
            let t = &self.path_terms[i];
            proof {
                assert(paths[i as int] == t@);
                assert(!is_glob(paths[i as int]));
                lemma_longest_substr(paths, i as int);
                assert(full.take(n as int) =~= dir_path@);
                lemma_window(full, dir_path@, start as int, t@);
            }
            if !t.hits(dir_path) && !t.hits(buf.as_slice()) {
                return false;
            }
        }
        true
    }
}

/// The longer of two texts, the second where they are equally long.
fn longer<'a>(best: Option<&'a [u8]>, cand: Option<&'a [u8]>) -> (r: Option<&'a [u8]>)
    ensures
        match (best, cand) {
            (_, None) => r == best,
            (None, _) => r == cand,
            (Some(b), Some(c)) => r == if b@.len() > c@.len() {
                best
            } else {
                cand
            },
        },
{
    match (best, cand) {
        (_, None) => best,
        (None, _) => cand,
        (Some(b), Some(c)) => if b.len() > c.len() {
            best
        } else {
            cand
        },
    }
}

proof fn lemma_longest_substr(pats: Seq<Seq<u8>>, i: int)
    requires
        0 <= i < pats.len(),
        !is_glob(pats[i]),
    ensures
        pats[i].len() <= longest_substr(pats),
    decreases pats.len(),
{
    if i < pats.len() - 1 {
        lemma_longest_substr(pats.drop_last(), i);
    }
}

/// A text no longer than the window's reach into the directory stands in the full
/// path where it stands in the directory path or in the window, and nowhere else.
proof fn lemma_window(full: Seq<u8>, dir: Seq<u8>, start: int, pat: Seq<u8>)
    requires
        dir.len() <= full.len(),
        full.take(dir.len() as int) == dir,
        0 <= start <= dir.len(),
        start == 0 || start <= dir.len() - (pat.len() - 1),
        pat.len() > 0,
    ensures
        occurs(lowered(full), pat) <==> (occurs(lowered(dir), pat) || occurs(
            lowered(full.skip(start)),
            pat,
        )),
{
    let lf = lowered(full);
    let ld = lowered(dir);
    let lw = lowered(full.skip(start));
    assert(ld =~= lf.take(dir.len() as int));
    assert(lw =~= lf.skip(start));
    let m = pat.len() as int;
    if occurs(lf, pat) {
        let i = choose|i: int| occurs_at(lf, pat, i);
        if i + m <= dir.len() {
            assert(ld.subrange(i, i + m) =~= lf.subrange(i, i + m));
            assert(occurs_at(ld, pat, i));
        } else {
            assert(lw.subrange(i - start, i - start + m) =~= lf.subrange(i, i + m));
            assert(occurs_at(lw, pat, i - start));
        }
    }
    if occurs(ld, pat) {
        let i = choose|i: int| occurs_at(ld, pat, i);
        assert(lf.subrange(i, i + m) =~= ld.subrange(i, i + m));
        assert(occurs_at(lf, pat, i));
    }
    if occurs(lw, pat) {
        let i = choose|i: int| occurs_at(lw, pat, i);
        assert(lf.subrange(i + start, i + start + m) =~= lw.subrange(i, i + m));
        assert(occurs_at(lf, pat, i + start));
    }
}

/// What is looked for is one of the longest texts that can be, and nothing is only where
/// nothing can be.
pub proof fn law_the_longest_is_looked_for(cands: Seq<Seq<u8>>, i: int)
    ensures
        last_longest(cands) is None <==> cands.len() == 0,
        last_longest(cands) matches Some(a) ==> {
            &&& cands.contains(a)
            &&& 0 <= i < cands.len() ==> cands[i].len() <= a.len()
            &&& 0 <= i < cands.len() && (forall|j: int|
                0 <= j < cands.len() ==> (#[trigger] cands[j]).len() <= cands[i].len()) && (forall|
                j: int,
            |
                i < j < cands.len() ==> (#[trigger] cands[j]).len() < cands[i].len()) ==> a
                == cands[i]
        },
    decreases cands.len(),
{
    if cands.len() > 0 {
        let front = cands.drop_last();
        law_the_longest_is_looked_for(front, i);
        assert(cands[cands.len() - 1] == cands.last());
        if front.len() > 0 {
            let b = last_longest(front)->Some_0;
            let k = choose|k: int| 0 <= k < front.len() && front[k] == b;
            assert(cands[k] == b);
        }
        if 0 <= i < front.len() {
            assert(front[i] == cands[i]);
            assert(forall|j: int| 0 <= j < front.len() ==> #[trigger] front[j] == cands[j]);
        }
    }
}

/// A keyword that is held against the name and is no pattern can be looked for, and of a
/// pattern what it ends in.
pub proof fn law_what_can_be_looked_for(q: Parsed, i: int)
    ensures
        0 <= i < q.names.len() && !is_glob(q.names[i]) ==> q.anchors().contains(q.names[i]),
        0 <= i < q.names.len() && is_glob(q.names[i]) ==> (tail_anchor(q.names[i]) matches Some(a)
            ==> q.anchors().contains(a)),
        0 <= i < q.paths.len() && is_glob(q.paths[i]) ==> (tail_anchor(q.paths[i]) matches Some(a)
            ==> q.anchors().contains(a)),
{
    let a = anchors_of(q.names, false);
    let b = anchors_of(q.paths, true);
    lemma_anchor_is_one(q.names, false, i);
    lemma_anchor_is_one(q.paths, true, i);
    assert forall|x: Seq<u8>| a.contains(x) || b.contains(x) implies #[trigger] (a + b).contains(
        x,
    ) by {
        if a.contains(x) {
            let k = choose|k: int| 0 <= k < a.len() && a[k] == x;
            assert((a + b)[k] == x);
        } else {
            let k = choose|k: int| 0 <= k < b.len() && b[k] == x;
            assert((a + b)[a.len() + k] == x);
        }
    }
}

proof fn lemma_anchor_is_one(pats: Seq<Seq<u8>>, to_path: bool, i: int)
    ensures
        0 <= i < pats.len() && !is_glob(pats[i]) && !to_path ==> anchors_of(pats, to_path).contains(
            pats[i],
        ),
        0 <= i < pats.len() && is_glob(pats[i]) ==> (tail_anchor(pats[i]) matches Some(a)
            ==> anchors_of(pats, to_path).contains(a)),
    decreases pats.len(),
{
    if 0 <= i < pats.len() {
        let front = pats.drop_last();
        let before = anchors_of(front, to_path);
        let all = anchors_of(pats, to_path);
        lemma_anchor_is_one(front, to_path, i);
        assert forall|x: Seq<u8>| #[trigger] before.contains(x) implies all.contains(x) by {
            let k = choose|k: int| 0 <= k < before.len() && before[k] == x;
            assert(all[k] == x);
        }
        if i < front.len() {
            assert(front[i] == pats[i]);
        } else if all.len() > before.len() {
            assert(all[before.len() as int] == all.last());
        }
    }
}

/// The test on the name passes where what every pattern for the path ends in, and may be
/// looked for, stands in the name in either case; and only there.
pub proof fn law_what_the_prefilter_passes(q: Parsed, name: Seq<u8>)
    ensures
        q.prefilter(name) <==> forall|i: int|
            0 <= i < q.paths.len() && is_glob(#[trigger] q.paths[i]) && tail_anchor(q.paths[i])
                is Some ==> occurs(lowered(name), tail_anchor(q.paths[i])->Some_0),
{
    if q.prefilter(name) {
        assert forall|i: int|
            0 <= i < q.paths.len() && is_glob(#[trigger] q.paths[i]) && tail_anchor(
                q.paths[i],
            ) is Some implies occurs(lowered(name), tail_anchor(q.paths[i])->Some_0) by {
            assert(path_anchor(q.paths[i]) == tail_anchor(q.paths[i]));
        }
    }
}

} // verus!
