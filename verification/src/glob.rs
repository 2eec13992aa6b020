//! Shell-style wildcards: `*`, `?`, `[...]` and `\`.
//!
//! A pattern has to match a text from end to end. A separator is a character
//! like any other, so `*` crosses directories, and letters match in either case.

use vstd::prelude::*;

use crate::text::{has_byte, lower, SLASH};
#[allow(unused_imports)]
use crate::text::{lemma_lowered, lower_byte, lowered};

verus! {

pub const STAR: u8 = 0x2a;

pub const QUESTION: u8 = 0x3f;

pub const BRACKET_OPEN: u8 = 0x5b;

pub const BRACKET_CLOSE: u8 = 0x5d;

pub const BACKSLASH: u8 = 0x5c;

pub const BANG: u8 = 0x21;

pub const CARET: u8 = 0x5e;

pub const DASH: u8 = 0x2d;

/// One element of a pattern.
pub ghost enum Tok {
    /// `*`: any run of characters, the empty one too.
    Star,
    /// `?`: any one character.
    Any,
    /// `[body]`, or `[!body]` where `neg` is set: one character in the set, or
    /// one outside it.
    Class { neg: bool, body: Seq<u8> },
    /// A character that stands for itself.
    Lit(u8),
}

/// Whether a `[` at `p` is followed by a negation sign.
pub open spec fn class_negated(pat: Seq<u8>, p: int) -> bool {
    p + 1 < pat.len() && (pat[p + 1] == BANG || pat[p + 1] == CARET)
}

/// Where the body of a class that opens at `p` begins.
pub open spec fn class_body_at(pat: Seq<u8>, p: int) -> int {
    if class_negated(pat, p) {
        p + 2
    } else {
        p + 1
    }
}

/// The first `]` at or after `i`; the pattern's length where there is none.
pub open spec fn close_from(pat: Seq<u8>, i: int) -> int
    decreases pat.len() - i,
{
    if i >= pat.len() {
        pat.len() as int
    } else if pat[i] == BRACKET_CLOSE {
        i
    } else {
        close_from(pat, i + 1)
    }
}

/// Where a class that opens at `p` closes. A `]` right at the start of the body
/// is a member of the set, not its end.
pub open spec fn class_close_at(pat: Seq<u8>, p: int) -> int {
    close_from(pat, class_body_at(pat, p) + 1)
}

/// Whether the (folded) character `c` is in the set written as `body`: single
/// characters and ranges `a-z`, both in either case.
pub open spec fn in_class(body: Seq<u8>, c: u8) -> bool
    decreases body.len(),
{
    if body.len() == 0 {
        false
    } else if body.len() >= 3 && body[1] == DASH {
        lower_byte(body[0]) <= c <= lower_byte(body[2]) || in_class(body.skip(3), c)
    } else {
        lower_byte(body[0]) == c || in_class(body.skip(1), c)
    }
}

/// The token that starts at `p`, and where the next one starts. A `[` that never
/// closes and a `\` at the very end stand for themselves.
pub open spec fn tok_at(pat: Seq<u8>, p: int) -> (Tok, int) {
    let c = pat[p];
    if c == STAR {
        (Tok::Star, p + 1)
    } else if c == QUESTION {
        (Tok::Any, p + 1)
    } else if c == BRACKET_OPEN && class_close_at(pat, p) < pat.len() {
        (
            Tok::Class {
                neg: class_negated(pat, p),
                body: pat.subrange(class_body_at(pat, p), class_close_at(pat, p)),
            },
            class_close_at(pat, p) + 1,
        )
    } else if c == BACKSLASH && p + 1 < pat.len() {
        (Tok::Lit(pat[p + 1]), p + 2)
    } else {
        (Tok::Lit(c), p + 1)
    }
}

/// The tokens of `pat` from position `p` on.
pub open spec fn tokens_from(pat: Seq<u8>, p: int) -> Seq<Tok>
    decreases pat.len() - p,
{
    if p < 0 || p >= pat.len() {
        Seq::empty()
    } else {
        let (tok, next) = tok_at(pat, p);
        if next <= p {
            Seq::empty()
        } else {
            seq![tok] + tokens_from(pat, next)
        }
    }
}

/// The tokens of a pattern.
pub open spec fn tokens(pat: Seq<u8>) -> Seq<Tok> {
    tokens_from(pat, 0)
}

/// Whether a token other than `*` accepts the character `c`.
pub open spec fn accepts(tok: Tok, c: u8) -> bool {
    match tok {
        Tok::Star => false,
        Tok::Any => true,
        Tok::Class { neg, body } => in_class(body, lower_byte(c)) != neg,
        Tok::Lit(l) => lower_byte(l) == lower_byte(c),
    }
}

/// Whether `toks` matches all of `text`.
pub open spec fn toks_match(toks: Seq<Tok>, text: Seq<u8>) -> bool
    decreases toks.len(), text.len(),
{
    if toks.len() == 0 {
        text.len() == 0
    } else if toks[0] is Star {
        toks_match(toks.skip(1), text) || (text.len() > 0 && toks_match(toks, text.skip(1)))
    } else {
        text.len() > 0 && accepts(toks[0], text[0]) && toks_match(toks.skip(1), text.skip(1))
    }
}

/// Whether the pattern matches all of `text`.
pub open spec fn glob(pat: Seq<u8>, text: Seq<u8>) -> bool {
    toks_match(tokens(pat), text)
}

/// The literal characters that a pattern ends in.
pub open spec fn literal_tail(toks: Seq<Tok>) -> Seq<u8>
    decreases toks.len(),
{
    if toks.len() == 0 {
        Seq::empty()
    } else {
        match toks.last() {
            Tok::Lit(c) => literal_tail(toks.drop_last()).push(c),
            _ => Seq::empty(),
        }
    }
}

/// The pattern's literal tail, where it can serve as an anchor: it must be there
/// and must not reach into a directory part.
pub open spec fn tail_anchor(pat: Seq<u8>) -> Option<Seq<u8>> {
    let tail = literal_tail(tokens(pat));
    if tail.len() == 0 || tail.contains(SLASH) {
        None
    } else {
        Some(tail)
    }
}

/// Whether a keyword is read as a wildcard pattern.
pub open spec fn is_glob(pat: Seq<u8>) -> bool {
    pat.contains(STAR) || pat.contains(QUESTION) || pat.contains(BRACKET_OPEN)
}

// --- facts about the definitions ---

proof fn lemma_close_from(pat: Seq<u8>, i: int)
    requires
        0 <= i,
    ensures
        i <= pat.len() ==> i <= close_from(pat, i),
        close_from(pat, i) <= pat.len(),
        close_from(pat, i) < pat.len() ==> i <= close_from(pat, i) && pat[close_from(pat, i)]
            == BRACKET_CLOSE,
        forall|j: int| i <= j < close_from(pat, i) ==> pat[j] != BRACKET_CLOSE,
    decreases pat.len() - i,
{
    if i < pat.len() && pat[i] != BRACKET_CLOSE {
        lemma_close_from(pat, i + 1);
    }
}

pub proof fn lemma_tok_at(pat: Seq<u8>, p: int)
    requires
        0 <= p < pat.len(),
    ensures
        p < tok_at(pat, p).1 <= pat.len(),
        tokens_from(pat, p) == seq![tok_at(pat, p).0] + tokens_from(pat, tok_at(pat, p).1),
{
    lemma_close_from(pat, class_body_at(pat, p) + 1);
}

/// A leading `*` may swallow one more character.
proof fn lemma_star_step(toks: Seq<Tok>, text: Seq<u8>, a: int, b: int)
    requires
        toks.len() > 0,
        toks[0] is Star,
        0 <= a <= b <= text.len(),
        toks_match(toks, text.skip(b)),
    ensures
        toks_match(toks, text.skip(a)),
    decreases b - a,
{
    if a < b {
        lemma_star_step(toks, text, a + 1, b);
        assert(text.skip(a).skip(1) =~= text.skip(a + 1));
    }
}

/// The pattern from `p` on matches the text from `t` on.
spec fn rest_matches(pat: Seq<u8>, p: int, text: Seq<u8>, t: int) -> bool {
    toks_match(tokens_from(pat, p), text.skip(t))
}

proof fn lemma_rest_single(pat: Seq<u8>, p: int, text: Seq<u8>, t: int)
    requires
        0 <= p < pat.len(),
        0 <= t <= text.len(),
        !(tok_at(pat, p).0 is Star),
    ensures
        rest_matches(pat, p, text, t) <==> (t < text.len() && accepts(tok_at(pat, p).0, text[t])
            && rest_matches(pat, tok_at(pat, p).1, text, t + 1)),
{
    lemma_tok_at(pat, p);
    let toks = tokens_from(pat, p);
    assert(toks.skip(1) =~= tokens_from(pat, tok_at(pat, p).1));
    if t < text.len() {
        assert(text.skip(t).skip(1) =~= text.skip(t + 1));
    }
}

proof fn lemma_rest_star(pat: Seq<u8>, p: int, text: Seq<u8>, t: int)
    requires
        0 <= p < pat.len(),
        0 <= t <= text.len(),
        pat[p] == STAR,
    ensures
        rest_matches(pat, p, text, t) <==> (rest_matches(pat, p + 1, text, t) || (t < text.len()
            && rest_matches(pat, p, text, t + 1))),
{
    lemma_tok_at(pat, p);
    let toks = tokens_from(pat, p);
    assert(toks.skip(1) =~= tokens_from(pat, p + 1));
    if t < text.len() {
        assert(text.skip(t).skip(1) =~= text.skip(t + 1));
    }
}

/// `*` matches exactly where what follows it matches some later suffix.
proof fn lemma_rest_star_exists(pat: Seq<u8>, p: int, after: int, text: Seq<u8>, t: int)
    requires
        0 <= p < pat.len(),
        after == p + 1,
        0 <= t <= text.len(),
        pat[p] == STAR,
    ensures
        rest_matches(pat, p, text, t) <==> exists|k: int|
            t <= k <= text.len() && #[trigger] rest_matches(pat, after, text, k),
    decreases text.len() - t,
{
    lemma_rest_star(pat, p, text, t);
    if t < text.len() {
        lemma_rest_star_exists(pat, p, after, text, t + 1);
    }
}

proof fn lemma_rest_empty(pat: Seq<u8>, text: Seq<u8>, t: int)
    requires
        0 <= t <= text.len(),
    ensures
        rest_matches(pat, pat.len() as int, text, t) <==> t == text.len(),
{
}

// --- executable matching ---

/// Matches the character class that opens at `start` against `ch`.
///
/// Returns the position after the closing `]` and whether `ch` was accepted, or
/// `None` where the class never closes: the `[` is then an ordinary character.
#[verifier::rlimit(60)]
pub fn class_match(pat: &[u8], start: usize, ch: u8) -> (r: Option<(usize, bool)>)
    requires
        start < pat@.len(),
    ensures
        ({
            let open = class_body_at(pat@, start as int);
            let close = class_close_at(pat@, start as int);
            match r {
                Some((next, hit)) => {
                    &&& close < pat@.len()
                    &&& next == close + 1
                    &&& hit == (in_class(pat@.subrange(open, close), lower_byte(ch))
                        != class_negated(pat@, start as int))
                },
                None => close == pat@.len(),
            }
        }),
{
    let n = pat.len();
    let mut i = start + 1;
    let mut neg = false;
    if i < n && (pat[i] == BANG || pat[i] == CARET) {
        neg = true;
        i += 1;
    }
    let ghost open = i as int;
    let ghost close = class_close_at(pat@, start as int);
    let c = lower(ch);
    let mut matched = false;
    let mut first = true;
    proof {
        lemma_close_from(pat@, open + 1);
    }
    while i < n
        invariant
            n == pat.len(),
            open == class_body_at(pat@, start as int),
            close == close_from(pat@, open + 1),
            close == class_close_at(pat@, start as int),
            neg == class_negated(pat@, start as int),
            close <= n,
            close < n ==> open + 1 <= close && pat@[close] == BRACKET_CLOSE,
            forall|j: int| open + 1 <= j < close ==> pat@[j] != BRACKET_CLOSE,
            1 <= open <= i <= n,
            i <= close,
            first == (i == open),
            c == lower_byte(ch),
            in_class(pat@.subrange(open, close), c) == (matched || in_class(
                pat@.subrange(i as int, close),
                c,
            )),
        decreases n - i,
    {
        if pat[i] == BRACKET_CLOSE && !first {
            assert(i == close);
            assert(pat@.subrange(i as int, close).len() == 0);
            return Some((i + 1, matched != neg));
        }
        first = false;
        let ghost rest = pat@.subrange(i as int, close);
        assert(i < close);
        if n - i > 2 && pat[i + 1] == DASH && pat[i + 2] != BRACKET_CLOSE {
            let a = lower(pat[i]);
            let b = lower(pat[i + 2]);
            assert(i + 2 < close);
            assert(rest.skip(3) =~= pat@.subrange(i + 3, close));
            if a <= c && c <= b {
                matched = true;
            }
            i += 3;
        } else {
            assert(rest.skip(1) =~= pat@.subrange(i + 1, close));
            if lower(pat[i]) == c {
                matched = true;
            }
            i += 1;
        }
    }
    None
}

/// Where the class that opens at `start` ends: the position after its `]`, or
/// `None` where it never closes.
pub fn class_end(pat: &[u8], start: usize) -> (r: Option<usize>)
    requires
        start < pat@.len(),
    ensures
        ({
            let close = class_close_at(pat@, start as int);
            match r {
                Some(next) => close < pat@.len() && next == close + 1,
                None => close == pat@.len(),
            }
        }),
{
    let n = pat.len();
    let mut i = start + 1;
    if i < n && (pat[i] == BANG || pat[i] == CARET) {
        i += 1;
    }
    let ghost open = i as int;
    let mut first = true;
    while i < n
        invariant
            n == pat.len(),
            open == class_body_at(pat@, start as int),
            1 <= open <= i <= n,
            first == (i == open),
            !first ==> close_from(pat@, open + 1) == close_from(pat@, i as int),
        decreases n - i,
    {
        if pat[i] == BRACKET_CLOSE && !first {
            return Some(i + 1);
        }
        first = false;
        i += 1;
    }
    None
}

/// Whether the wildcard pattern `pat` matches `text` from end to end, letters in
/// either case.
///
/// Walks both strings once and, on a mismatch, returns to the latest `*` and lets
/// it take one character more. Going back to an earlier `*` is never needed.
#[verifier::rlimit(60)]
pub fn glob_match(pat: &[u8], text: &[u8]) -> (r: bool)
    ensures
        r == glob(pat@, text@),
{
    let np = pat.len();
    let nt = text.len();
    let mut p: usize = 0;
    let mut t: usize = 0;
    let mut starred = false;
    let mut star_p: usize = 0;
    let mut star_t: usize = 0;
    let ghost whole = glob(pat@, text@);
    // the first pattern position behind the latest star
    let ghost mut seg: int = 0;
    assert(text@.skip(0) =~= text@);
    while t < nt
        invariant
            np == pat.len(),
            nt == text.len(),
            p <= np,
            t <= nt,
            whole == glob(pat@, text@),
            !starred ==> whole == rest_matches(pat@, p as int, text@, t as int),
            starred ==> {
                &&& seg == star_p + 1
                &&& star_p < p
                &&& star_p < np
                &&& pat@[star_p as int] == STAR
                &&& star_t <= t
                &&& whole == rest_matches(pat@, star_p as int, text@, star_t as int)
                // the stretch from the star to `p` holds one-character tokens only, and
                // it fits the text from `star_t`
                &&& rest_matches(pat@, seg, text@, star_t as int) == rest_matches(
                    pat@,
                    p as int,
                    text@,
                    t as int,
                )
                &&& forall|k: int|
                    star_t <= k <= nt && #[trigger] rest_matches(pat@, seg, text@, k)
                        ==> k + (t - star_t) <= nt && rest_matches(
                        pat@,
                        p as int,
                        text@,
                        k + (t - star_t),
                    )
            },
        decreases
                (if starred {
                    np - star_p
                } else {
                    np + 1
                }),
                (if starred {
                    nt - star_t
                } else {
                    0
                }),
                np - p,
    {
        let mut next: usize = 0;
        let mut step = false;
        if p < np {
            let c = pat[p];
            let ch = text[t];
            proof {
                lemma_tok_at(pat@, p as int);
            }
            if c == STAR {
                proof {
                    if starred {
                        lemma_rest_star_exists(pat@, star_p as int, seg, text@, star_t as int);
                        if whole {
                            let k = choose|k: int|
                                star_t <= k <= text@.len() && rest_matches(
                                    pat@,
                                    seg,
                                    text@,
                                    k,
                                );
                            let toks = tokens_from(pat@, p as int);
                            lemma_star_step(toks, text@, t as int, k + (t - star_t));
                        }
                    }
                    lemma_rest_star(pat@, p as int, text@, t as int);
                }
                proof {
                    seg = p + 1;
                }
                starred = true;
                star_p = p;
                star_t = t;
                p += 1;
                continue ;
            } else if c == QUESTION {
                next = p + 1;
                step = true;
            } else if c == BRACKET_OPEN {
                match class_match(pat, p, ch) {
                    Some((after, hit)) => {
                        next = after;
                        step = hit;
                    },
                    None => {
                        next = p + 1;
                        step = lower(c) == lower(ch);
                    },
                }
            } else if c == BACKSLASH && np - p > 1 {
                next = p + 2;
                step = lower(pat[p + 1]) == lower(ch);
            } else {
                next = p + 1;
                step = lower(c) == lower(ch);
            }
            proof {
                let (tok, after) = tok_at(pat@, p as int);
                assert(step == accepts(tok, ch));
                assert(next == after);
                lemma_rest_single(pat@, p as int, text@, t as int);
                if starred {
                    assert forall|k: int|
                        star_t <= k <= nt && #[trigger] rest_matches(
                            pat@,
                            seg,
                            text@,
                            k,
                        ) implies k + (t + 1 - star_t) <= nt && rest_matches(
                        pat@,
                        after,
                        text@,
                        k + (t + 1 - star_t),
                    ) by {
                        lemma_rest_single(pat@, p as int, text@, k + (t - star_t));
                    }
                }
            }
        } else {
            proof {
                lemma_rest_empty(pat@, text@, t as int);
            }
        }
        if step {
            p = next;
            t += 1;
        } else if starred {
            proof {
                lemma_rest_star(pat@, star_p as int, text@, star_t as int);
            }
            star_t += 1;
            t = star_t;
            p = star_p + 1;
        } else {
            return false;
        }
    }
    // The text is used up: what is left of the pattern may only be stars.
    proof {
        if starred {
            lemma_rest_star_exists(pat@, star_p as int, seg, text@, star_t as int);
            if whole {
                let k = choose|k: int|
                    star_t <= k <= text@.len() && rest_matches(pat@, seg, text@, k);
                assert(k + (t - star_t) <= nt);
            } else {
                assert(!rest_matches(pat@, seg, text@, star_t as int));
            }
        }
    }
    assert(whole == rest_matches(pat@, p as int, text@, nt as int));
    while p < np && pat[p] == STAR
        invariant
            np == pat.len(),
            nt == text.len(),
            p <= np,
            whole == rest_matches(pat@, p as int, text@, nt as int),
        decreases np - p,
    {
        proof {
            lemma_rest_star(pat@, p as int, text@, nt as int);
        }
        p += 1;
    }
    proof {
        if p < np {
            lemma_rest_single(pat@, p as int, text@, nt as int);
        } else {
            lemma_rest_empty(pat@, text@, nt as int);
        }
    }
    p == np
}

/// Whether a keyword holds a wildcard and is to be read as a pattern.
pub fn has_glob_chars(t: &[u8]) -> (r: bool)
    ensures
        r == is_glob(t@),
{
    for i in 0..t.len()
        invariant
            forall|j: int| 0 <= j < i ==> t@[j] != STAR && t@[j] != QUESTION && t@[j] != BRACKET_OPEN,
    {
        if t[i] == STAR || t[i] == QUESTION || t[i] == BRACKET_OPEN {
            return true;
        }
    }
    false
}

/// The literal characters that a pattern ends in, unless there are none or they
/// hold a separator.
///
/// A match covers the text up to its end, so the text ends in these characters,
/// and without a separator among them they lie in the last path component.
#[verifier::rlimit(60)]
pub fn trailing_literal(pat: &[u8]) -> (r: Option<Vec<u8>>)
    ensures
        match r {
            Some(v) => tail_anchor(pat@) == Some(v@),
            None => tail_anchor(pat@) is None,
        },
{
    let n = pat.len();
    let mut cur: Vec<u8> = Vec::new();
    let mut i: usize = 0;
    let ghost mut done: Seq<Tok> = Seq::empty();
    assert(done + tokens_from(pat@, 0) =~= tokens(pat@));
    while i < n
        invariant
            n == pat.len(),
            i <= n,
            tokens(pat@) == done + tokens_from(pat@, i as int),
            cur@ == literal_tail(done),
        decreases n - i,
    {
        let ghost (tok, next) = tok_at(pat@, i as int);
        let ghost before = done;
        proof {
            lemma_tok_at(pat@, i as int);
            done = before.push(tok);
            assert(done.drop_last() =~= before);
            assert(before + (seq![tok] + tokens_from(pat@, next)) =~= done + tokens_from(
                pat@,
                next,
            ));
        }
        let c = pat[i];
        if c == STAR || c == QUESTION {
            cur.clear();
            i += 1;
        } else if c == BRACKET_OPEN {
            match class_end(pat, i) {
                Some(after) => {
                    cur.clear();
                    i = after;
                },
                None => {
                    cur.push(c);
                    i += 1;
                },
            }
        } else if c == BACKSLASH && n - i > 1 {
            cur.push(pat[i + 1]);
            i += 2;
        } else {
            cur.push(c);
            i += 1;
        }
    }
    assert(done + tokens_from(pat@, n as int) =~= done);
    if cur.len() == 0 || has_byte(cur.as_slice(), SLASH) {
        None
    } else {
        Some(cur)
    }
}

// --- laws ---

/// From token `k` on, `toks` holds literals only.
spec fn literal_from(toks: Seq<Tok>, k: int) -> bool {
    forall|j: int| k <= j < toks.len() ==> #[trigger] toks[j] is Lit
}

proof fn lemma_literal_tail(toks: Seq<Tok>)
    ensures
        literal_tail(toks).len() <= toks.len(),
        literal_from(toks, toks.len() - literal_tail(toks).len()),
        forall|j: int|
            0 <= j < literal_tail(toks).len() ==> #[trigger] literal_tail(toks)[j] == toks[toks.len()
                - literal_tail(toks).len() + j]->Lit_0,
    decreases toks.len(),
{
    if toks.len() > 0 && toks.last() is Lit {
        lemma_literal_tail(toks.drop_last());
        let k = toks.len() - literal_tail(toks).len();
        assert forall|j: int| k <= j < toks.len() implies #[trigger] toks[j] is Lit by {
            if j < toks.len() - 1 {
                assert(toks.drop_last()[j] == toks[j]);
            }
        }
    }
}

/// Where a pattern ends in literals, a text that it matches ends in characters
/// that these accept.
#[verifier::rlimit(60)]
proof fn lemma_match_tail(toks: Seq<Tok>, text: Seq<u8>, k: int)
    requires
        toks_match(toks, text),
        0 <= k <= toks.len(),
        literal_from(toks, k),
    ensures
        text.len() >= toks.len() - k,
        k == 0 ==> text.len() == toks.len(),
        forall|j: int|
            k <= j < toks.len() ==> accepts(
                #[trigger] toks[j],
                text[text.len() - toks.len() + j],
            ),
    decreases toks.len(), text.len(),
{
    if toks.len() == 0 {
    } else if toks[0] is Star {
        assert(k >= 1);
        if toks_match(toks.skip(1), text) {
            let rest = toks.skip(1);
            assert forall|j: int| k - 1 <= j < rest.len() implies #[trigger] rest[j] is Lit by {
                assert(rest[j] == toks[j + 1]);
            }
            lemma_match_tail(rest, text, k - 1);
            assert forall|j: int| k <= j < toks.len() implies accepts(
                #[trigger] toks[j],
                text[text.len() - toks.len() + j],
            ) by {
                assert(rest[j - 1] == toks[j]);
            }
        } else {
            lemma_match_tail(toks, text.skip(1), k);
        }
    } else {
        let rest = toks.skip(1);
        let k1 = if k == 0 {
            0
        } else {
            k - 1
        };
        assert forall|j: int| k1 <= j < rest.len() implies #[trigger] rest[j] is Lit by {
            assert(rest[j] == toks[j + 1]);
        }
        lemma_match_tail(rest, text.skip(1), k1);
        assert forall|j: int| k <= j < toks.len() implies accepts(
            #[trigger] toks[j],
            text[text.len() - toks.len() + j],
        ) by {
            if j > 0 {
                assert(rest[j - 1] == toks[j]);
            }
        }
    }
}

/// A text that a pattern matches ends, letters in either case, in the literal
/// characters that the pattern ends in.
pub proof fn law_match_ends_in_literal_tail(pat: Seq<u8>, text: Seq<u8>)
    requires
        glob(pat, text),
    ensures
        ({
            let tail = literal_tail(tokens(pat));
            &&& tail.len() <= text.len()
            &&& lowered(text).subrange(text.len() - tail.len(), text.len() as int) == lowered(tail)
        }),
{
    let toks = tokens(pat);
    let tail = literal_tail(toks);
    lemma_literal_tail(toks);
    lemma_match_tail(toks, text, toks.len() - tail.len());
    assert forall|j: int| 0 <= j < tail.len() implies lower_byte(text[text.len() - tail.len() + j])
        == lower_byte(tail[j]) by {
        assert(accepts(
            toks[toks.len() - tail.len() + j],
            text[text.len() - toks.len() + (toks.len() - tail.len() + j)],
        ));
    }
    assert(lowered(text).subrange(text.len() - tail.len(), text.len() as int) =~= lowered(tail));
}

proof fn lemma_toks_match_folds(toks: Seq<Tok>, a: Seq<u8>, b: Seq<u8>)
    requires
        lowered(a) == lowered(b),
    ensures
        toks_match(toks, a) == toks_match(toks, b),
    decreases toks.len(), a.len(),
{
    lemma_lowered(a);
    lemma_lowered(b);
    if toks.len() > 0 {
        if a.len() > 0 {
            assert(lowered(a.skip(1)) =~= lowered(a).skip(1));
            assert(lowered(b.skip(1)) =~= lowered(b).skip(1));
            assert(lower_byte(a[0]) == lowered(a)[0] == lowered(b)[0]);
            lemma_toks_match_folds(toks.skip(1), a.skip(1), b.skip(1));
            if toks[0] is Star {
                lemma_toks_match_folds(toks, a.skip(1), b.skip(1));
            }
        }
        lemma_toks_match_folds(toks.skip(1), a, b);
    }
}

/// Matching does not tell upper and lower case apart: two texts that differ in
/// the case of their letters only are matched by the same patterns.
pub proof fn law_glob_ignores_case(pat: Seq<u8>, a: Seq<u8>, b: Seq<u8>)
    requires
        lowered(a) == lowered(b),
    ensures
        glob(pat, a) == glob(pat, b),
{
    lemma_toks_match_folds(tokens(pat), a, b);
}

/// `c` has no meaning of its own in a pattern.
pub open spec fn is_plain(c: u8) -> bool {
    c != STAR && c != QUESTION && c != BRACKET_OPEN && c != BACKSLASH
}

proof fn lemma_plain_tokens(pat: Seq<u8>, p: int)
    requires
        0 <= p <= pat.len(),
        forall|i: int| p <= i < pat.len() ==> is_plain(#[trigger] pat[i]),
    ensures
        tokens_from(pat, p) =~= Seq::new((pat.len() - p) as nat, |i: int| Tok::Lit(pat[p + i])),
    decreases pat.len() - p,
{
    if p < pat.len() {
        lemma_tok_at(pat, p);
        assert(is_plain(pat[p]));
        lemma_plain_tokens(pat, p + 1);
    }
}

proof fn lemma_literals_match(toks: Seq<Tok>, text: Seq<u8>)
    requires
        literal_from(toks, 0),
    ensures
        toks_match(toks, text) <==> (text.len() == toks.len() && forall|i: int|
            0 <= i < text.len() ==> lower_byte(#[trigger] text[i]) == lower_byte(toks[i]->Lit_0)),
    decreases toks.len(),
{
    if toks.len() > 0 {
        let rest = toks.skip(1);
        assert(toks[0] is Lit);
        assert forall|j: int| 0 <= j < rest.len() implies #[trigger] rest[j] is Lit by {
            assert(rest[j] == toks[j + 1]);
        }
        if text.len() > 0 {
            lemma_literals_match(rest, text.skip(1));
            if text.len() == toks.len() {
                if forall|i: int|
                    0 <= i < text.len() ==> lower_byte(#[trigger] text[i]) == lower_byte(
                        toks[i]->Lit_0,
                    ) {
                    assert forall|i: int| 0 <= i < rest.len() implies lower_byte(
                        #[trigger] text.skip(1)[i],
                    ) == lower_byte(rest[i]->Lit_0) by {
                        assert(text.skip(1)[i] == text[i + 1]);
                        assert(rest[i] == toks[i + 1]);
                    }
                }
                if toks_match(toks, text) {
                    assert forall|i: int| 0 <= i < text.len() implies lower_byte(#[trigger] text[i])
                        == lower_byte(toks[i]->Lit_0) by {
                        if i > 0 {
                            assert(text.skip(1)[i - 1] == text[i]);
                            assert(rest[i - 1] == toks[i]);
                        }
                    }
                }
            }
        }
    }
}

/// A pattern without special characters matches exactly the texts that equal it,
/// letters in either case: a pattern is held against the whole text, never
/// against a part of it.
pub proof fn law_plain_pattern_is_equality(pat: Seq<u8>, text: Seq<u8>)
    requires
        forall|i: int| 0 <= i < pat.len() ==> is_plain(#[trigger] pat[i]),
    ensures
        glob(pat, text) <==> lowered(pat) == lowered(text),
{
    lemma_plain_tokens(pat, 0);
    lemma_literals_match(tokens(pat), text);
    lemma_lowered(pat);
    lemma_lowered(text);
    if lowered(pat) == lowered(text) {
        assert(pat.len() == text.len());
        assert forall|i: int| 0 <= i < text.len() implies lower_byte(#[trigger] text[i])
            == lower_byte(tokens(pat)[i]->Lit_0) by {
            assert(lowered(pat)[i] == lowered(text)[i]);
        }
    }
    if glob(pat, text) {
        assert(lowered(pat) =~= lowered(text));
    }
}

/// A lone `*` matches every text, separators included.
pub proof fn law_star_matches_everything(text: Seq<u8>)
    ensures
        glob(seq![STAR], text),
{
    let pat = seq![STAR];
    assert(text.skip(text.len() as int) =~= Seq::empty());
    assert(text.skip(0) =~= text);
    lemma_rest_empty(pat, text, text.len() as int);
    lemma_rest_star_exists(pat, 0, 1, text, 0);
    assert(rest_matches(pat, 1, text, text.len() as int));
}

/// `*` in front of plain characters pins them to the end of the text: `*.pdf`
/// matches exactly what ends in `.pdf`, in any directory.
#[verifier::rlimit(60)]
pub proof fn law_star_suffix(suffix: Seq<u8>, text: Seq<u8>)
    requires
        forall|i: int| 0 <= i < suffix.len() ==> is_plain(#[trigger] suffix[i]),
    ensures
        glob(seq![STAR] + suffix, text) <==> (suffix.len() <= text.len() && lowered(text).subrange(
            text.len() - suffix.len(),
            text.len() as int,
        ) == lowered(suffix)),
{
    let pat = seq![STAR] + suffix;
    let n = text.len() - suffix.len();
    assert forall|i: int| 1 <= i < pat.len() implies is_plain(#[trigger] pat[i]) by {
        assert(pat[i] == suffix[i - 1]);
    }
    lemma_tok_at(pat, 0);
    lemma_plain_tokens(pat, 1);
    let lits = tokens_from(pat, 1);
    assert(text.skip(0) =~= text);
    lemma_rest_star_exists(pat, 0, 1, text, 0);
    lemma_lowered(text);
    lemma_lowered(suffix);
    assert forall|k: int| 0 <= k <= text.len() implies #[trigger] rest_matches(pat, 1, text, k) == (k
        == n && lowered(text).subrange(k, text.len() as int) == lowered(suffix)) by {
        lemma_literals_match(lits, text.skip(k));
        if k == n {
            if rest_matches(pat, 1, text, k) {
                assert forall|i: int| 0 <= i < suffix.len() implies lower_byte(text[k + i])
                    == lower_byte(suffix[i]) by {
                    assert(text.skip(k)[i] == text[k + i]);
                    assert(lits[i] == Tok::Lit(suffix[i]));
                }
                assert(lowered(text).subrange(k, text.len() as int) =~= lowered(suffix));
            }
            if lowered(text).subrange(k, text.len() as int) == lowered(suffix) {
                assert forall|i: int| 0 <= i < suffix.len() implies lower_byte(
                    #[trigger] text.skip(k)[i],
                ) == lower_byte(lits[i]->Lit_0) by {
                    assert(lowered(text).subrange(k, text.len() as int)[i] == lowered(suffix)[i]);
                    assert(lits[i] == Tok::Lit(suffix[i]));
                }
            }
        }
    }
    if n >= 0 && lowered(text).subrange(n, text.len() as int) == lowered(suffix) {
        assert(rest_matches(pat, 1, text, n));
    }
}

proof fn lemma_close_shifts(pre: Seq<u8>, pat: Seq<u8>, i: int)
    requires
        0 <= i,
    ensures
        close_from(pre + pat, pre.len() + i) == pre.len() + close_from(pat, i),
    decreases pat.len() - i,
{
    if i < pat.len() {
        assert((pre + pat)[pre.len() + i] == pat[i]);
        if pat[i] != BRACKET_CLOSE {
            lemma_close_shifts(pre, pat, i + 1);
        }
    }
}

/// What stands in front of a pattern does not change how the pattern is read.
proof fn lemma_tokens_shift(pre: Seq<u8>, pat: Seq<u8>, p: int)
    requires
        0 <= p <= pat.len(),
    ensures
        tokens_from(pre + pat, pre.len() + p) == tokens_from(pat, p),
    decreases pat.len() - p,
{
    if p < pat.len() {
        let all = pre + pat;
        let q = pre.len() + p;
        assert forall|i: int| 0 <= i < pat.len() implies all[pre.len() + i] == #[trigger] pat[i] by {}
        assert(all[q] == pat[p]);
        if p + 1 < pat.len() {
            assert(all[q + 1] == pat[p + 1]);
        }
        let open = class_body_at(pat, p);
        assert(class_body_at(all, q) == pre.len() + open);
        lemma_close_shifts(pre, pat, open + 1);
        lemma_close_from(pat, open + 1);
        let close = class_close_at(pat, p);
        if close < pat.len() {
            assert(all.subrange(pre.len() + open, pre.len() + close) =~= pat.subrange(open, close));
        }
        assert(tok_at(all, q).0 == tok_at(pat, p).0);
        assert(tok_at(all, q).1 == pre.len() + tok_at(pat, p).1);
        lemma_tok_at(pat, p);
        lemma_tok_at(all, q);
        lemma_tokens_shift(pre, pat, tok_at(pat, p).1);
    }
}

/// `?` takes exactly one character.
pub proof fn law_question_takes_one(rest: Seq<u8>, text: Seq<u8>)
    ensures
        glob(seq![QUESTION] + rest, text) <==> text.len() > 0 && glob(rest, text.skip(1)),
{
    let pat = seq![QUESTION] + rest;
    lemma_tok_at(pat, 0);
    lemma_tokens_shift(seq![QUESTION], rest, 0);
    assert(tokens(pat).skip(1) =~= tokens(rest));
}

/// `*` takes any run of characters, the empty one too.
pub proof fn law_star_takes_any_run(rest: Seq<u8>, text: Seq<u8>)
    ensures
        glob(seq![STAR] + rest, text) <==> exists|k: int|
            0 <= k <= text.len() && #[trigger] glob(rest, text.skip(k)),
{
    let pat = seq![STAR] + rest;
    lemma_tokens_shift(seq![STAR], rest, 0);
    assert(text.skip(0) =~= text);
    lemma_rest_star_exists(pat, 0, 1, text, 0);
    if exists|k: int| 0 <= k <= text.len() && #[trigger] glob(rest, text.skip(k)) {
        let k = choose|k: int| 0 <= k <= text.len() && #[trigger] glob(rest, text.skip(k));
        assert(rest_matches(pat, 1, text, k));
    }
    if glob(pat, text) {
        let k = choose|k: int| 0 <= k <= text.len() && #[trigger] rest_matches(pat, 1, text, k);
        assert(glob(rest, text.skip(k)));
    }
}

/// Behind a backslash every character stands for itself.
pub proof fn law_backslash_takes_the_next(c: u8, rest: Seq<u8>, text: Seq<u8>)
    ensures
        glob(seq![BACKSLASH, c] + rest, text) <==> text.len() > 0 && lower_byte(text[0])
            == lower_byte(c) && glob(rest, text.skip(1)),
{
    let pat = seq![BACKSLASH, c] + rest;
    lemma_tok_at(pat, 0);
    lemma_tokens_shift(seq![BACKSLASH, c], rest, 0);
    assert(tok_at(pat, 0) == (Tok::Lit(c), 2int));
    assert(tokens(pat).skip(1) =~= tokens(rest));
}

/// A part of the set that a class is written with: one character, or all from one to another.
pub ghost enum Part {
    One(u8),
    Range(u8, u8),
}

/// How the parts of a set are written: `x`, or `x-y`.
pub open spec fn written(parts: Seq<Part>) -> Seq<u8>
    decreases parts.len(),
{
    if parts.len() == 0 {
        Seq::empty()
    } else {
        (match parts[0] {
            Part::One(x) => seq![x],
            Part::Range(x, y) => seq![x, 0x2d, y],
        }) + written(parts.skip(1))
    }
}

/// Neither `-` nor `]`, which are not characters like others inside a class.
pub open spec fn unmarked(c: u8) -> bool {
    c != 0x2d && c != 0x5d
}

/// The parts are written with unmarked characters.
pub open spec fn parts_ok(parts: Seq<Part>) -> bool {
    forall|i: int|
        0 <= i < parts.len() ==> match #[trigger] parts[i] {
            Part::One(x) => unmarked(x),
            Part::Range(x, y) => unmarked(x) && unmarked(y),
        }
}

/// `c` is in the set, letters in either case, the ends of a range among them.
pub open spec fn in_parts(parts: Seq<Part>, c: u8) -> bool {
    exists|i: int|
        0 <= i < parts.len() && match #[trigger] parts[i] {
            Part::One(x) => lower_byte(c) == lower_byte(x),
            Part::Range(x, y) => lower_byte(x) <= lower_byte(c) && lower_byte(c) <= lower_byte(y),
        }
}

proof fn lemma_written(parts: Seq<Part>, tail: Seq<u8>, c: u8)
    requires
        parts_ok(parts),
        tail.len() == 0 || tail == seq![0x2du8],
    ensures
        forall|i: int| 0 <= i < written(parts).len() ==> #[trigger] written(parts)[i] != 0x5d,
        written(parts).len() > 0 ==> unmarked(written(parts)[0]),
        parts.len() > 0 ==> written(parts).len() > 0,
        in_class(written(parts) + tail, lower_byte(c)) <==> in_parts(parts, c) || (tail.len() > 0
            && c == 0x2d),
    decreases parts.len(),
{
    let all = written(parts) + tail;
    if parts.len() == 0 {
        assert(all =~= tail);
        if tail.len() > 0 {
            assert(tail.skip(1) =~= Seq::empty());
            assert(in_class(tail.skip(1), lower_byte(c)) == false);
        }
    } else {
        let rest = parts.skip(1);
        let p = parts[0];
        assert forall|i: int| 0 <= i < rest.len() implies match #[trigger] rest[i] {
            Part::One(x) => unmarked(x),
            Part::Range(x, y) => unmarked(x) && unmarked(y),
        } by {
            assert(rest[i] == parts[i + 1]);
        }
        lemma_written(rest, tail, c);
        let w = written(rest);
        let head = match p {
            Part::One(x) => seq![x],
            Part::Range(x, y) => seq![x, 0x2d, y],
        };
        assert(written(parts) == head + w);
        assert forall|i: int| 0 <= i < written(parts).len() implies #[trigger] written(parts)[i]
            != 0x5d by {
            if i >= head.len() {
                assert(written(parts)[i] == w[i - head.len()]);
            }
        }
        match p {
            Part::One(x) => {
                assert(all.skip(1) =~= w + tail);
                if all.len() >= 3 {
                    assert(all[1] == (w + tail)[0]);
                    if w.len() == 0 {
                        assert(tail.len() >= 2);
                    }
                }
            },
            Part::Range(x, y) => {
                assert(all.skip(3) =~= w + tail);
            },
        }
        if in_parts(rest, c) {
            let i = choose|i: int|
                0 <= i < rest.len() && match #[trigger] rest[i] {
                    Part::One(x) => lower_byte(c) == lower_byte(x),
                    Part::Range(x, y) => lower_byte(x) <= lower_byte(c) && lower_byte(c)
                        <= lower_byte(y),
                };
            assert(parts[i + 1] == rest[i]);
        }
        if in_parts(parts, c) {
            let i = choose|i: int|
                0 <= i < parts.len() && match #[trigger] parts[i] {
                    Part::One(x) => lower_byte(c) == lower_byte(x),
                    Part::Range(x, y) => lower_byte(x) <= lower_byte(c) && lower_byte(c)
                        <= lower_byte(y),
                };
            if i > 0 {
                assert(rest[i - 1] == parts[i]);
            }
        }
    }
}

/// A class takes one character: one of its set, or with `!` or `^` in front one outside it.
/// The set is what its parts say, both ends of a range included, letters in either case. A
/// `]` or a `-` at the very start of the set is a member like any other, and so is a `-` at
/// its end.
#[verifier::rlimit(80)]
pub proof fn law_class_takes_one_of_its_set(
    sign: Seq<u8>,
    first: Seq<u8>,
    parts: Seq<Part>,
    end: Seq<u8>,
    rest: Seq<u8>,
    text: Seq<u8>,
)
    requires
        sign == Seq::<u8>::empty() || sign == seq![0x21u8] || sign == seq![0x5eu8],
        first == Seq::<u8>::empty() || first == seq![0x5du8] || first == seq![0x2du8],
        end == Seq::<u8>::empty() || end == seq![0x2du8],
        parts_ok(parts),
        first.len() + parts.len() + end.len() > 0,
        sign.len() == 0 && first.len() == 0 && parts.len() > 0 ==> written(parts)[0] != 0x21
            && written(parts)[0] != 0x5e,
    ensures
        glob(seq![0x5bu8] + sign + first + written(parts) + end + seq![0x5du8] + rest, text) <==> {
            &&& text.len() > 0
            &&& {
                ||| in_parts(parts, text[0])
                ||| first.len() > 0 && text[0] == first[0]
                ||| end.len() > 0 && text[0] == 0x2d
            } <==> sign.len() == 0
            &&& glob(rest, text.skip(1))
        },
{
    let w = written(parts);
    let body = first + w + end;
    let pre = seq![0x5bu8] + sign + body + seq![0x5du8];
    let pat = pre + rest;
    assert(seq![0x5bu8] + sign + first + w + end + seq![0x5du8] + rest =~= pat);
    let open = 1 + sign.len() as int;
    let close = open + body.len() as int;
    lemma_written(parts, end, 0);
    assert forall|i: int| 0 <= i < body.len() implies pat[open + i] == #[trigger] body[i] by {}
    assert(class_negated(pat, 0) == (sign.len() > 0)) by {
        if sign.len() > 0 {
            assert(pat[1] == sign[0]);
        } else {
            assert(pat[1] == body[0]);
            if first.len() == 0 {
                if parts.len() > 0 {
                    assert(body[0] == w[0]);
                } else {
                    assert(body[0] == end[0]);
                }
            }
        }
    }
    assert(class_body_at(pat, 0) == open);
    assert(pat[close] == 0x5d);
    assert forall|j: int| open + 1 <= j < close implies pat[j] != 0x5d by {
        let i = j - open;
        assert(pat[j] == body[i]);
        if i >= first.len() && i < first.len() + w.len() {
            assert(body[i] == w[i - first.len()]);
        }
    }
    lemma_close_from(pat, open + 1);
    assert(class_close_at(pat, 0) == close);
    assert(pat.subrange(open, close) =~= body);
    lemma_tok_at(pat, 0);
    assert(tok_at(pat, 0) == (Tok::Class { neg: sign.len() > 0, body }, close + 1));
    lemma_tokens_shift(pre, rest, 0);
    assert(pre.len() == close + 1);
    assert(tokens(pat).skip(1) =~= tokens(rest));
    if text.len() > 0 {
        let c = text[0];
        lemma_written(parts, end, c);
        let tailed = w + end;
        if first.len() > 0 {
            assert(body.skip(1) =~= tailed);
            assert(body[0] == first[0]);
            if body.len() >= 3 && body[1] == DASH {
                assert(body[1] == tailed[0]);
                if w.len() > 0 {
                    assert(tailed[0] == w[0]);
                }
            }
            assert(lower_byte(first[0]) == lower_byte(c) <==> c == first[0]);
        } else {
            assert(body =~= tailed);
        }
        assert(in_class(body, lower_byte(c)) <==> (in_parts(parts, c) || (first.len() > 0 && c
            == first[0]) || (end.len() > 0 && c == 0x2d)));
    }
}

/// A class that is a single range takes exactly the characters from one end to the other.
pub proof fn law_range_takes_both_ends(a: u8, b: u8, rest: Seq<u8>, text: Seq<u8>)
    requires
        unmarked(a),
        unmarked(b),
        a != 0x21,
        a != 0x5e,
    ensures
        glob(seq![0x5bu8, a, 0x2d, b, 0x5d] + rest, text) <==> text.len() > 0 && lower_byte(a)
            <= lower_byte(text[0]) && lower_byte(text[0]) <= lower_byte(b) && glob(
            rest,
            text.skip(1),
        ),
        glob(seq![0x5bu8, 0x21, a, 0x2d, b, 0x5d] + rest, text) <==> text.len() > 0 && !(lower_byte(
            a,
        ) <= lower_byte(text[0]) && lower_byte(text[0]) <= lower_byte(b)) && glob(
            rest,
            text.skip(1),
        ),
{
    let none = Seq::<u8>::empty();
    let parts = seq![Part::Range(a, b)];
    assert(parts.skip(1) =~= Seq::empty());
    assert(written(parts.skip(1)) =~= none);
    assert(written(parts) =~= seq![a, 0x2d, b]);
    law_class_takes_one_of_its_set(none, none, parts, none, rest, text);
    law_class_takes_one_of_its_set(seq![0x21u8], none, parts, none, rest, text);
    assert(seq![0x5bu8] + none + none + written(parts) + none + seq![0x5du8] + rest =~= seq![
        0x5bu8,
        a,
        0x2d,
        b,
        0x5d,
    ] + rest);
    assert(seq![0x5bu8] + seq![0x21u8] + none + written(parts) + none + seq![0x5du8] + rest =~= seq![
        0x5bu8,
        0x21,
        a,
        0x2d,
        b,
        0x5d,
    ] + rest);
    if text.len() > 0 {
        let c = text[0];
        if lower_byte(a) <= lower_byte(c) && lower_byte(c) <= lower_byte(b) {
            assert(parts[0] == Part::Range(a, b));
            assert(in_parts(parts, c));
        }
    }
}

/// A character without a meaning of its own takes itself, in either case; a `[` that is
/// never closed and a backslash at the very end do too.
pub proof fn law_other_characters_take_themselves(c: u8, rest: Seq<u8>, text: Seq<u8>)
    requires
        c != 0x2a,
        c != 0x3f,
        c == 0x5b ==> forall|j: int|
            0 <= j < rest.len() && #[trigger] rest[j] == 0x5d ==> j == 0 || (j == 1 && (rest[0]
                == 0x21 || rest[0] == 0x5e)),
        c == 0x5c ==> rest.len() == 0,
    ensures
        glob(seq![c] + rest, text) <==> text.len() > 0 && lower_byte(text[0]) == lower_byte(c)
            && glob(rest, text.skip(1)),
{
    let pat = seq![c] + rest;
    lemma_tok_at(pat, 0);
    lemma_tokens_shift(seq![c], rest, 0);
    if c == 0x5b {
        let from = class_body_at(pat, 0) + 1;
        lemma_close_from(pat, from);
        if class_close_at(pat, 0) < pat.len() {
            let k = class_close_at(pat, 0);
            assert(rest[k - 1] == 0x5d);
            assert(pat[1] == rest[0]);
        }
    }
    assert(tok_at(pat, 0) == (Tok::Lit(c), 1int));
    assert(tokens(pat).skip(1) =~= tokens(rest));
}

/// A pattern without characters takes the empty text alone.
pub proof fn law_empty_pattern_takes_nothing(text: Seq<u8>)
    ensures
        glob(Seq::empty(), text) <==> text.len() == 0,
{
}

/// `*`, `?` and the backslash, as they are typed.
pub proof fn law_wildcards_as_typed(c: u8, rest: Seq<u8>, text: Seq<u8>)
    ensures
        glob(seq![0x3fu8] + rest, text) <==> text.len() > 0 && glob(rest, text.skip(1)),
        glob(seq![0x2au8] + rest, text) <==> exists|k: int|
            0 <= k <= text.len() && #[trigger] glob(rest, text.skip(k)),
        glob(seq![0x5cu8, c] + rest, text) <==> text.len() > 0 && lower_byte(text[0])
            == lower_byte(c) && glob(rest, text.skip(1)),
{
    law_question_takes_one(rest, text);
    law_star_takes_any_run(rest, text);
    law_backslash_takes_the_next(c, rest, text);
}

/// A keyword is a wildcard pattern where it holds a `*`, a `?` or a `[`.
pub proof fn law_wildcards_make_a_pattern(a: Seq<u8>, c: u8, b: Seq<u8>)
    ensures
        is_glob(a + seq![c] + b) <==> c == 0x2a || c == 0x3f || c == 0x5b || is_glob(a) || is_glob(
            b,
        ),
        !is_glob(Seq::empty()),
{
    let all = a + seq![c] + b;
    assert forall|x: u8| #[trigger] all.contains(x) == (a.contains(x) || c == x || b.contains(x)) by {
        if a.contains(x) {
            let i = choose|i: int| 0 <= i < a.len() && a[i] == x;
            assert(all[i] == x);
        }
        if c == x {
            assert(all[a.len() as int] == x);
        }
        if b.contains(x) {
            let i = choose|i: int| 0 <= i < b.len() && b[i] == x;
            assert(all[a.len() + 1 + i] == x);
        }
        if all.contains(x) {
            let i = choose|i: int| 0 <= i < all.len() && all[i] == x;
            if i < a.len() {
                assert(a[i] == x);
            } else if i > a.len() {
                assert(b[i - a.len() - 1] == x);
            }
        }
    }
}

proof fn lemma_class(sign: Seq<u8>, body: Seq<u8>, rest: Seq<u8>, text: Seq<u8>)
    requires
        sign == Seq::<u8>::empty() || sign == seq![0x21u8] || sign == seq![0x5eu8],
        body.len() > 0,
        forall|j: int| 1 <= j < body.len() ==> #[trigger] body[j] != 0x5d,
        sign.len() == 0 ==> body[0] != 0x21 && body[0] != 0x5e,
    ensures
        glob(seq![0x5bu8] + sign + body + seq![0x5du8] + rest, text) <==> text.len() > 0 && (
        in_class(body, lower_byte(text[0])) <==> sign.len() == 0) && glob(rest, text.skip(1)),
{
    let pre = seq![0x5bu8] + sign + body + seq![0x5du8];
    let pat = pre + rest;
    let open = 1 + sign.len() as int;
    let close = open + body.len() as int;
    assert forall|i: int| 0 <= i < body.len() implies pat[open + i] == #[trigger] body[i] by {}
    assert(class_negated(pat, 0) == (sign.len() > 0)) by {
        if sign.len() > 0 {
            assert(pat[1] == sign[0]);
        } else {
            assert(pat[1] == body[0]);
        }
    }
    assert(pat[close] == 0x5d);
    assert forall|j: int| open + 1 <= j < close implies pat[j] != 0x5d by {
        assert(pat[j] == body[j - open]);
    }
    lemma_close_from(pat, open + 1);
    assert(class_close_at(pat, 0) == close);
    assert(pat.subrange(open, close) =~= body);
    lemma_tok_at(pat, 0);
    assert(tok_at(pat, 0) == (Tok::Class { neg: sign.len() > 0, body }, close + 1));
    lemma_tokens_shift(pre, rest, 0);
    assert(pre.len() == close + 1);
    assert(tokens(pat).skip(1) =~= tokens(rest));
}

/// `c` is in the set that is written as `body`: a class with a `!` in front does not take it.
pub open spec fn set_has(body: Seq<u8>, c: u8) -> bool {
    !glob(seq![0x5bu8, 0x21] + body + seq![0x5du8], seq![c])
}

/// A set is read from the left: three characters with a `-` in the middle are a range, with
/// both its ends; any other character is itself. Letters are in either case. Only at the very
/// start of a set a `]` does not end it.
pub proof fn law_sets_are_read_from_the_left(body: Seq<u8>, c: u8)
    requires
        body.len() > 0,
        forall|j: int| 1 <= j < body.len() ==> #[trigger] body[j] != 0x5d,
    ensures
        ({
            let n: int = if body.len() >= 3 && body[1] == 0x2d {
                3
            } else {
                1
            };
            let later = body.len() > n && set_has(body.skip(n), c);
            set_has(body, c) <==> later || if n == 3 {
                lower_byte(body[0]) <= lower_byte(c) && lower_byte(c) <= lower_byte(body[2])
            } else {
                lower_byte(body[0]) == lower_byte(c)
            }
        }),
{
    let n: int = if body.len() >= 3 && body[1] == 0x2d {
        3
    } else {
        1
    };
    lemma_set_has(body, c);
    let more = body.skip(n);
    if more.len() > 0 {
        assert forall|j: int| 1 <= j < more.len() implies #[trigger] more[j] != 0x5d by {
            assert(more[j] == body[j + n]);
        }
        lemma_set_has(more, c);
    } else {
        assert(!in_class(more, lower_byte(c)));
    }
    let k = lower_byte(c);
    if n == 3 {
        assert(in_class(body, k) <==> (lower_byte(body[0]) <= k && k <= lower_byte(body[2]))
            || in_class(more, k));
    } else {
        assert(in_class(body, k) <==> lower_byte(body[0]) == k || in_class(more, k));
    }
}

proof fn lemma_set_has(body: Seq<u8>, c: u8)
    requires
        body.len() > 0,
        forall|j: int| 1 <= j < body.len() ==> #[trigger] body[j] != 0x5d,
    ensures
        set_has(body, c) == in_class(body, lower_byte(c)),
{
    let none = Seq::<u8>::empty();
    let sign = seq![0x21u8];
    lemma_class(sign, body, none, seq![c]);
    assert(seq![0x5bu8] + sign + body + seq![0x5du8] + none =~= seq![0x5bu8, 0x21] + body + seq![
        0x5du8,
    ]);
    assert(seq![c].skip(1) =~= none);
    law_empty_pattern_takes_nothing(none);
}

/// A class takes one character that its set has, and with a `!` or a `^` in front one that it
/// has not.
pub proof fn law_classes_take_what_their_set_has(body: Seq<u8>, rest: Seq<u8>, text: Seq<u8>)
    requires
        body.len() > 0,
        forall|j: int| 1 <= j < body.len() ==> #[trigger] body[j] != 0x5d,
    ensures
        body[0] != 0x21 && body[0] != 0x5e ==> (glob(
            seq![0x5bu8] + body + seq![0x5du8] + rest,
            text,
        ) <==> text.len() > 0 && set_has(body, text[0]) && glob(rest, text.skip(1))),
        glob(seq![0x5bu8, 0x21] + body + seq![0x5du8] + rest, text) <==> text.len() > 0 && !set_has(
            body,
            text[0],
        ) && glob(rest, text.skip(1)),
        glob(seq![0x5bu8, 0x5e] + body + seq![0x5du8] + rest, text) <==> text.len() > 0 && !set_has(
            body,
            text[0],
        ) && glob(rest, text.skip(1)),
{
    let none = Seq::<u8>::empty();
    if body[0] != 0x21 && body[0] != 0x5e {
        lemma_class(none, body, rest, text);
        assert(seq![0x5bu8] + none + body + seq![0x5du8] + rest =~= seq![0x5bu8] + body + seq![
            0x5du8,
        ] + rest);
    }
    lemma_class(seq![0x21u8], body, rest, text);
    lemma_class(seq![0x5eu8], body, rest, text);
    assert(seq![0x5bu8] + seq![0x21u8] + body + seq![0x5du8] + rest =~= seq![0x5bu8, 0x21] + body
        + seq![0x5du8] + rest);
    assert(seq![0x5bu8] + seq![0x5eu8] + body + seq![0x5du8] + rest =~= seq![0x5bu8, 0x5e] + body
        + seq![0x5du8] + rest);
    if text.len() > 0 {
        lemma_set_has(body, text[0]);
    }
}

proof fn lemma_tail_of(front: Seq<Tok>, lit: Seq<u8>)
    requires
        front.len() == 0 || !(front.last() is Lit),
    ensures
        literal_tail(front + Seq::new(lit.len(), |i: int| Tok::Lit(lit[i]))) == lit,
    decreases lit.len(),
{
    let toks = front + Seq::new(lit.len(), |i: int| Tok::Lit(lit[i]));
    if lit.len() == 0 {
        assert(toks =~= front);
        assert(literal_tail(front) =~= lit);
    } else {
        let less = lit.drop_last();
        lemma_tail_of(front, less);
        assert(toks.drop_last() =~= front + Seq::new(less.len(), |i: int| Tok::Lit(less[i])));
        assert(literal_tail(toks) =~= lit);
    }
}

/// Characters without a meaning of their own, alone or behind a `*` or a `?`, are what every
/// match ends in; they can be looked for beforehand unless one of them is a separator. Behind
/// them a `*` or a `?` leaves nothing to look for.
pub proof fn law_literal_ends_can_be_looked_for(lit: Seq<u8>)
    requires
        lit.len() > 0,
        forall|i: int|
            0 <= i < lit.len() ==> #[trigger] lit[i] != 0x2a && lit[i] != 0x3f && lit[i] != 0x5b
                && lit[i] != 0x5c,
    ensures
        !lit.contains(0x2fu8) ==> tail_anchor(lit) == Some(lit) && tail_anchor(seq![0x2au8] + lit)
            == Some(lit) && tail_anchor(seq![0x3fu8] + lit) == Some(lit),
        lit.contains(0x2fu8) ==> tail_anchor(lit) is None && tail_anchor(seq![0x2au8] + lit) is None
            && tail_anchor(seq![0x3fu8] + lit) is None,
        tail_anchor(lit + seq![0x2au8]) is None,
        tail_anchor(lit + seq![0x3fu8]) is None,
        tail_anchor(Seq::empty()) is None,
{
    assert forall|i: int| 0 <= i < lit.len() implies is_plain(#[trigger] lit[i]) by {}
    let lits = Seq::new(lit.len(), |i: int| Tok::Lit(lit[i]));
    lemma_plain_tokens(lit, 0);
    assert(tokens(lit) =~= lits);
    let none = Seq::<Tok>::empty();
    lemma_tail_of(none, lit);
    assert(none + lits =~= lits);
    lemma_wild_first(0x2a, lit);
    lemma_wild_first(0x3f, lit);
    lemma_tail_of(seq![Tok::Star], lit);
    lemma_tail_of(seq![Tok::Any], lit);
    lemma_wild_last(lit, 0x2a, 0);
    lemma_wild_last(lit, 0x3f, 0);
    assert(tokens(Seq::empty()) =~= none);
}

proof fn lemma_wild_first(w: u8, lit: Seq<u8>)
    requires
        w == 0x2a || w == 0x3f,
    ensures
        tokens(seq![w] + lit) == seq![
            if w == 0x2a {
                Tok::Star
            } else {
                Tok::Any
            },
        ] + tokens(lit),
{
    let pat = seq![w] + lit;
    lemma_tok_at(pat, 0);
    lemma_tokens_shift(seq![w], lit, 0);
}

proof fn lemma_wild_last(lit: Seq<u8>, w: u8, p: int)
    requires
        w == 0x2a || w == 0x3f,
        0 <= p <= lit.len(),
        forall|i: int| 0 <= i < lit.len() ==> is_plain(#[trigger] lit[i]),
    ensures
        tokens_from(lit + seq![w], p).len() > 0,
        !(tokens_from(lit + seq![w], p).last() is Lit),
    decreases lit.len() - p,
{
    let pat = lit + seq![w];
    lemma_tok_at(pat, p);
    if p < lit.len() {
        assert(is_plain(lit[p]));
        assert(pat[p] == lit[p]);
        lemma_wild_last(lit, w, p + 1);
        let more = tokens_from(pat, p + 1);
        assert(tokens_from(pat, p) == seq![tok_at(pat, p).0] + more);
        assert(tokens_from(pat, p).last() == more.last());
    } else {
        assert(pat[p] == w);
        assert(tokens_from(pat, p + 1) =~= Seq::empty());
        assert(tokens_from(pat, p).last() == tok_at(pat, p).0);
    }
}

} // verus!
