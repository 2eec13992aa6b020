//! Splitting a line of text into words.

use vstd::prelude::*;
use vstd::utf8::encode_utf8;
#[allow(unused_imports)]
use vstd::utf8::encode_scalar;

use crate::text::lower;
#[allow(unused_imports)]
use crate::text::{lower_byte, lowered};

verus! {

/// The characters with the Unicode property `White_Space`.
pub open spec fn is_space(c: char) -> bool {
    ||| '\u{9}' <= c <= '\u{d}'
    ||| c == '\u{20}'
    ||| c == '\u{85}'
    ||| c == '\u{a0}'
    ||| c == '\u{1680}'
    ||| '\u{2000}' <= c <= '\u{200a}'
    ||| c == '\u{2028}'
    ||| c == '\u{2029}'
    ||| c == '\u{202f}'
    ||| c == '\u{205f}'
    ||| c == '\u{3000}'
}

/// The words of a line: its maximal runs of characters that are not white space,
/// in order.
pub open spec fn words(s: Seq<char>) -> Seq<Seq<char>>
    decreases s.len(),
{
    if s.len() == 0 {
        Seq::empty()
    } else {
        let before = words(s.drop_last());
        let c = s.last();
        if is_space(c) {
            before
        } else if s.len() == 1 || is_space(s[s.len() - 2]) {
            before.push(seq![c])
        } else {
            before.drop_last().push(before.last().push(c))
        }
    }
}

/// The folded UTF-8 bytes of a word.
pub open spec fn folded(word: Seq<char>) -> Seq<u8> {
    lowered(encode_utf8(word))
}

/// Whether `c` is white space.
pub fn is_whitespace(c: char) -> (r: bool)
    ensures
        r == is_space(c),
{
    ('\u{9}' <= c && c <= '\u{d}') || c == '\u{20}' || c == '\u{85}' || c == '\u{a0}' || c
        == '\u{1680}' || ('\u{2000}' <= c && c <= '\u{200a}') || c == '\u{2028}' || c == '\u{2029}'
        || c == '\u{202f}' || c == '\u{205f}' || c == '\u{3000}'
}

/// Encoding goes character by character.
pub proof fn lemma_encode_push(s: Seq<char>, c: char)
    ensures
        encode_utf8(s.push(c)) == encode_utf8(s) + encode_scalar(c as u32),
    decreases s.len(),
{
    if s.len() == 0 {
        assert(s.push(c).drop_first() =~= Seq::empty());
        assert(encode_utf8(s.push(c)) =~= encode_scalar(c as u32) + encode_utf8(Seq::empty()));
        assert(encode_utf8(s.push(c)) =~= encode_utf8(s) + encode_scalar(c as u32));
    } else {
        lemma_encode_push(s.drop_first(), c);
        assert(s.push(c).drop_first() =~= s.drop_first().push(c));
        assert(encode_utf8(s.push(c)) =~= encode_utf8(s) + encode_scalar(c as u32));
    }
}

/// Encoding a longer text keeps the bytes of a shorter one in front.
proof fn lemma_encode_prefix(s: Seq<char>, k: int)
    requires
        0 <= k < s.len(),
    ensures
        ({
            let a = encode_utf8(s.take(k));
            let w = encode_scalar(s[k] as u32);
            &&& a.len() + w.len() <= encode_utf8(s).len()
            &&& encode_utf8(s).subrange(a.len() as int, (a.len() + w.len()) as int) == w
            &&& encode_utf8(s.take(k + 1)).len() == a.len() + w.len()
        }),
    decreases s.len() - k,
{
    assert(s.take(k + 1) =~= s.take(k).push(s[k]));
    lemma_encode_push(s.take(k), s[k]);
    lemma_encode_take(s, k + 1);
    let a = encode_utf8(s.take(k));
    let w = encode_scalar(s[k] as u32);
    assert(encode_utf8(s).subrange(a.len() as int, (a.len() + w.len()) as int) =~= encode_utf8(
        s,
    ).subrange(0, (a.len() + w.len()) as int).subrange(
        a.len() as int,
        (a.len() + w.len()) as int,
    ));
    assert((a + w).subrange(a.len() as int, (a.len() + w.len()) as int) =~= w);
}

proof fn lemma_encode_take(s: Seq<char>, k: int)
    requires
        0 <= k <= s.len(),
    ensures
        encode_utf8(s.take(k)).len() <= encode_utf8(s).len(),
        encode_utf8(s).subrange(0, encode_utf8(s.take(k)).len() as int) == encode_utf8(s.take(k)),
    decreases s.len() - k,
{
    if k == s.len() {
        assert(s.take(k) =~= s);
        assert(encode_utf8(s).subrange(0, encode_utf8(s).len() as int) =~= encode_utf8(s));
    } else {
        lemma_encode_take(s, k + 1);
        assert(s.take(k + 1) =~= s.take(k).push(s[k]));
        lemma_encode_push(s.take(k), s[k]);
        let n = encode_utf8(s.take(k)).len() as int;
        assert(encode_utf8(s).subrange(0, n) =~= encode_utf8(s).subrange(
            0,
            encode_utf8(s.take(k + 1)).len() as int,
        ).subrange(0, n));
        assert(encode_utf8(s.take(k + 1)).subrange(0, n) =~= encode_utf8(s.take(k)));
    }
}

proof fn lemma_words_nonempty(s: Seq<char>)
    ensures
        s.len() > 0 && !is_space(s.last()) ==> words(s).len() > 0,
    decreases s.len(),
{
    if s.len() > 1 && !is_space(s.last()) && !is_space(s[s.len() - 2]) {
        lemma_words_nonempty(s.drop_last());
    }
}

/// Number of bytes in the UTF-8 encoding of `c`.
pub fn utf8_width(c: char) -> (w: usize)
    ensures
        w == encode_scalar(c as u32).len(),
{
    let u = c as u32;
    if u <= 0x7f {
        1
    } else if u <= 0x7ff {
        2
    } else if u <= 0xffff {
        3
    } else {
        4
    }
}

/// The words of `s`, each as its folded UTF-8 bytes.
#[verifier::rlimit(60)]
pub fn folded_words(s: &str) -> (r: Vec<Vec<u8>>)
    ensures
        r@.len() == words(s@).len(),
        forall|i: int| 0 <= i < r@.len() ==> (#[trigger] r@[i])@ == folded(words(s@)[i]),
{
    let bytes = s.as_bytes();
    let mut out: Vec<Vec<u8>> = Vec::new();
    let mut cur: Vec<u8> = Vec::new();
    let mut pos: usize = 0;
    let mut in_word = false;
    let ghost mut open: Seq<char> = Seq::empty();
    let ghost mut i: int = 0;
    assert(folded(Seq::empty()) =~= Seq::empty());
    for c in it: s.chars()
        invariant
            it.seq() == s@,
            i == it.index(),
            bytes@ == encode_utf8(s@),
            pos == encode_utf8(s@.take(i)).len(),
            pos <= bytes.len(),
            in_word == (i > 0 && !is_space(s@[i - 1])),
            cur@ == folded(open),
            !in_word ==> open == Seq::<char>::empty(),
            words(s@.take(i)) == if in_word {
                words(s@.take(i)).drop_last().push(open)
            } else {
                words(s@.take(i))
            },
            in_word ==> words(s@.take(i)).len() > 0,
            out@.len() == words(s@.take(i)).len() - if in_word {
                1int
            } else {
                0
            },
            forall|k: int| 0 <= k < out@.len() ==> (#[trigger] out@[k])@ == folded(words(s@.take(i))[k]),
    {
        let ghost pre = s@.take(i);
        let ghost post = s@.take(i + 1);
        let ghost w = encode_scalar(c as u32);
        let n = utf8_width(c);
        proof {
            assert(c == s@[i]);
            assert(post =~= pre.push(c));
            assert(post.drop_last() =~= pre);
            if i > 0 {
                assert(post[i - 1] == s@[i - 1]);
            }
            lemma_encode_prefix(s@, i);
            assert(pos + n <= bytes.len());
            lemma_words_nonempty(post);
            lemma_words_nonempty(pre);
        }
        if is_whitespace(c) {
            if in_word {
                out.push(cur);
                cur = Vec::new();
                in_word = false;
                proof {
                    open = Seq::empty();
                }
            }
        } else {
            let ghost start = cur@;
            let end = pos + n;
            let mut j = pos;
            while j < end
                invariant
                    pos <= j <= end <= bytes.len(),
                    end == pos + n,
                    n == w.len(),
                    bytes@.subrange(pos as int, end as int) == w,
                    cur@ == start + lowered(w).take(j - pos),
                decreases end - j,
            {
                let b = bytes[j];
                assert(b == w[j - pos]);
                cur.push(lower(b));
                j += 1;
                assert(lowered(w).take(j - pos) =~= lowered(w).take(j - 1 - pos).push(
                    lower_byte(b),
                ));
            }
            in_word = true;
            proof {
                assert(lowered(w).take(n as int) =~= lowered(w));
                lemma_encode_push(open, c);
                assert(lowered(encode_utf8(open) + w) =~= lowered(encode_utf8(open)) + lowered(w));
                open = open.push(c);
            }
        }
        pos = pos + n;
        proof {
            i = i + 1;
        }
    }
    assert(s@.take(i) =~= s@);
    if in_word {
        out.push(cur);
    }
    out
}

// --- laws ---

/// Every word is a non-empty run without white space.
pub proof fn law_words_hold_no_space(s: Seq<char>)
    ensures
        forall|i: int, j: int|
            0 <= i < words(s).len() && 0 <= j < words(s)[i].len() ==> !is_space(
                #[trigger] words(s)[i][j],
            ),
        forall|i: int| 0 <= i < words(s).len() ==> (#[trigger] words(s)[i]).len() > 0,
    decreases s.len(),
{
    if s.len() > 0 {
        law_words_hold_no_space(s.drop_last());
        lemma_words_nonempty(s.drop_last());
        let before = words(s.drop_last());
        let c = s.last();
        assert forall|i: int, j: int|
            0 <= i < words(s).len() && 0 <= j < words(s)[i].len() implies !is_space(
            #[trigger] words(s)[i][j],
        ) by {
            if i < before.len() && j < before[i].len() {
                assert(!is_space(before[i][j]));
            }
        }
    }
}

/// `a` and `b` are the same letter, in upper or lower case.
pub open spec fn same_letter(a: char, b: char) -> bool {
    ||| a == b
    ||| 'A' <= a <= 'Z' && b as u32 == a as u32 + 0x20
    ||| 'A' <= b <= 'Z' && a as u32 == b as u32 + 0x20
}

/// `a` and `b` differ in the case of their letters only.
pub open spec fn same_text(a: Seq<char>, b: Seq<char>) -> bool {
    a.len() == b.len() && forall|i: int|
        0 <= i < a.len() ==> same_letter(#[trigger] a[i], #[trigger] b[i])
}

proof fn lemma_plain_scalar(c: char)
    requires
        c as u32 <= 0x7f,
    ensures
        encode_scalar(c as u32) == seq![(c as u32) as u8],
{
    let u = c as u32;
    assert(u & 0x7f == u) by (bit_vector)
        requires
            u <= 0x7f,
    ;
    assert(encode_scalar(u) =~= seq![u as u8]);
}

proof fn lemma_folded_same(a: Seq<char>, b: Seq<char>)
    requires
        same_text(a, b),
    ensures
        folded(a) == folded(b),
    decreases a.len(),
{
    if a.len() == 0 {
        assert(a =~= b);
    } else {
        let (x, y) = (a.drop_last(), b.drop_last());
        assert(same_text(x, y)) by {
            assert forall|i: int| 0 <= i < x.len() implies same_letter(
                #[trigger] x[i],
                #[trigger] y[i],
            ) by {
                assert(same_letter(a[i], b[i]));
            }
        }
        lemma_folded_same(x, y);
        let (c, d) = (a.last(), b.last());
        assert(same_letter(a[a.len() - 1], b[b.len() - 1]));
        lemma_encode_push(x, c);
        lemma_encode_push(y, d);
        assert(x.push(c) =~= a);
        assert(y.push(d) =~= b);
        let (cw, dw) = (encode_scalar(c as u32), encode_scalar(d as u32));
        if c != d {
            lemma_plain_scalar(c);
            lemma_plain_scalar(d);
            let (p, q) = ((c as u32) as u8, (d as u32) as u8);
            assert(lower_byte(p) == lower_byte(q));
            assert(lowered(cw)[0] == lower_byte(p));
            assert(lowered(dw)[0] == lower_byte(q));
            assert(lowered(cw) =~= lowered(dw));
        }
        assert(lowered(encode_utf8(x) + cw) =~= lowered(encode_utf8(x)) + lowered(cw));
        assert(lowered(encode_utf8(y) + dw) =~= lowered(encode_utf8(y)) + lowered(dw));
    }
}

/// Texts that differ in the case of their letters only have the same folded words.
pub proof fn law_words_ignore_case(a: Seq<char>, b: Seq<char>)
    requires
        same_text(a, b),
    ensures
        words(a).len() == words(b).len(),
        forall|i: int|
            0 <= i < words(a).len() ==> folded(#[trigger] words(a)[i]) == folded(words(b)[i]),
{
    lemma_words_same(a, b);
    assert forall|i: int| 0 <= i < words(a).len() implies folded(#[trigger] words(a)[i]) == folded(
        words(b)[i],
    ) by {
        lemma_folded_same(words(a)[i], words(b)[i]);
    }
}

proof fn lemma_words_same(a: Seq<char>, b: Seq<char>)
    requires
        same_text(a, b),
    ensures
        words(a).len() == words(b).len(),
        forall|i: int|
            0 <= i < words(a).len() ==> same_text(#[trigger] words(a)[i], words(b)[i]),
    decreases a.len(),
{
    if a.len() > 0 {
        let (x, y) = (a.drop_last(), b.drop_last());
        assert forall|i: int| 0 <= i < a.len() implies same_letter(
            #[trigger] a[i],
            #[trigger] b[i],
        ) && is_space(a[i]) == is_space(b[i]) by {}
        assert(same_text(x, y)) by {
            assert forall|i: int| 0 <= i < x.len() implies same_letter(
                #[trigger] x[i],
                #[trigger] y[i],
            ) by {
                assert(same_letter(a[i], b[i]));
            }
        }
        lemma_words_same(x, y);
        lemma_words_nonempty(x);
        lemma_words_nonempty(y);
        let n = a.len() - 1;
        let (c, d) = (a[n], b[n]);
        assert(same_letter(c, d) && is_space(c) == is_space(d));
        if n > 0 {
            assert(is_space(a[n - 1]) == is_space(b[n - 1]));
        }
        let (wx, wy) = (words(x), words(y));
        assert forall|i: int| 0 <= i < words(a).len() implies same_text(
            #[trigger] words(a)[i],
            words(b)[i],
        ) by {
            if i < wx.len() && words(a)[i] == wx[i] {
                assert(same_text(wx[i], wy[i]));
            }
            if !is_space(c) && n > 0 && !is_space(a[n - 1]) && i == wx.len() - 1 {
                assert(same_text(wx[i], wy[i]));
                assert(words(a)[i] == wx[i].push(c));
                assert(words(b)[i] == wy[i].push(d));
            }
        }
    }
}

/// White space is what Unicode says it is.
pub proof fn law_spaces_are_these(c: char)
    ensures
        is_space(c) <==> seq![
            9u32, 10, 11, 12, 13, 32, 133, 160, 5760, 8192, 8193, 8194, 8195, 8196, 8197, 8198, 8199,
            8200, 8201, 8202, 8232, 8233, 8239, 8287, 12288,
        ].contains(c as u32),
{
    let all = seq![
        9u32, 10, 11, 12, 13, 32, 133, 160, 5760, 8192, 8193, 8194, 8195, 8196, 8197, 8198, 8199,
        8200, 8201, 8202, 8232, 8233, 8239, 8287, 12288,
    ];
    let u = c as u32;
    if is_space(c) {
        let k: int = if u <= 13 {
            u - 9
        } else if u == 32 {
            5
        } else if u == 133 {
            6
        } else if u == 160 {
            7
        } else if u == 5760 {
            8
        } else if u <= 8202 {
            u - 8192 + 9
        } else if u == 8232 {
            20
        } else if u == 8233 {
            21
        } else if u == 8239 {
            22
        } else if u == 8287 {
            23
        } else {
            24
        };
        assert(all[k] == u);
    }
}

proof fn lemma_words_run(w: Seq<char>)
    requires
        w.len() > 0,
        forall|i: int| 0 <= i < w.len() ==> !is_space(#[trigger] w[i]),
    ensures
        words(w) == seq![w],
    decreases w.len(),
{
    let front = w.drop_last();
    assert(!is_space(w[w.len() - 1]));
    if front.len() == 0 {
        assert(front =~= Seq::empty());
        assert(words(front) =~= Seq::empty());
        assert(seq![w.last()] =~= w);
        assert(words(w) =~= seq![w]);
    } else {
        assert forall|i: int| 0 <= i < front.len() implies !is_space(#[trigger] front[i]) by {
            assert(front[i] == w[i]);
        }
        lemma_words_run(front);
        assert(!is_space(w[w.len() - 2]));
        assert(front.push(w.last()) =~= w);
        assert(words(w) =~= seq![w]);
    }
}

proof fn lemma_words_split(a: Seq<char>, c: char, b: Seq<char>)
    requires
        is_space(c),
    ensures
        words(a + seq![c] + b) == words(a) + words(b),
    decreases b.len(),
{
    let s = a + seq![c] + b;
    if b.len() == 0 {
        assert(s.drop_last() =~= a);
        assert(words(b) =~= Seq::empty());
        assert(words(a) + words(b) =~= words(a));
    } else {
        let front = b.drop_last();
        lemma_words_split(a, c, front);
        lemma_words_nonempty(front);
        assert(s.drop_last() =~= a + seq![c] + front);
        assert(s.last() == b.last());
        assert(s[s.len() - 2] == if b.len() == 1 {
            c
        } else {
            b[b.len() - 2]
        });
        assert(words(s) =~= words(a) + words(b));
    }
}

/// A line is cut at white space: the words in front of a space and those behind it are the
/// words of the line, and a run without spaces is one word.
pub proof fn law_lines_are_cut_at_spaces(a: Seq<char>, c: char, b: Seq<char>, w: Seq<char>)
    requires
        is_space(c),
        w.len() > 0,
        forall|i: int| 0 <= i < w.len() ==> !is_space(#[trigger] w[i]),
    ensures
        words(a + seq![c] + b) == words(a) + words(b),
        words(w) == seq![w],
        words(Seq::empty()) == Seq::<Seq<char>>::empty(),
{
    lemma_words_split(a, c, b);
    lemma_words_run(w);
}

/// A word is folded character by character: an ASCII letter becomes a small one, any other
/// ASCII character is its own byte, and the rest keep their UTF-8 bytes.
pub proof fn law_words_are_folded_by_character(a: Seq<char>, c: char)
    ensures
        folded(a.push(c)) == folded(a) + folded(seq![c]),
        folded(Seq::empty()) == Seq::<u8>::empty(),
        c as u32 <= 0x7f ==> folded(seq![c]) == seq![
            if 0x41 <= c as u32 <= 0x5a {
                (c as u32 + 0x20) as u8
            } else {
                (c as u32) as u8
            },
        ],
        c as u32 > 0x7f ==> folded(seq![c]) == encode_utf8(seq![c]),
{
    let none = Seq::<char>::empty();
    let w = encode_scalar(c as u32);
    lemma_encode_push(a, c);
    lemma_encode_push(none, c);
    assert(none.push(c) =~= seq![c]);
    assert(encode_utf8(seq![c]) =~= w);
    assert(lowered(encode_utf8(a) + w) =~= lowered(encode_utf8(a)) + lowered(w));
    assert(folded(none) =~= Seq::<u8>::empty());
    if c as u32 <= 0x7f {
        lemma_plain_scalar(c);
        assert(lowered(w) =~= seq![lower_byte((c as u32) as u8)]);
    } else {
        lemma_wide_scalar(c);
        assert(lowered(w) =~= w);
    }
}

proof fn lemma_wide_scalar(c: char)
    requires
        c as u32 > 0x7f,
    ensures
        forall|i: int|
            0 <= i < encode_scalar(c as u32).len() ==> #[trigger] encode_scalar(c as u32)[i] >= 0x80,
{
    let u = c as u32;
    let w = encode_scalar(u);
    assert forall|i: int| 0 <= i < w.len() implies #[trigger] w[i] >= 0x80 by {
        assert(0xC0u8 | (((u >> 6) & 0x1F) as u8) >= 0x80) by (bit_vector);
        assert(0xE0u8 | (((u >> 12) & 0x0F) as u8) >= 0x80) by (bit_vector);
        assert(0xF0u8 | (((u >> 18) & 0x07) as u8) >= 0x80) by (bit_vector);
        assert(0x80u8 | ((u & 0x3F) as u8) >= 0x80) by (bit_vector);
        assert(0x80u8 | (((u >> 6) & 0x3F) as u8) >= 0x80) by (bit_vector);
        assert(0x80u8 | (((u >> 12) & 0x3F) as u8) >= 0x80) by (bit_vector);
    }
}

} // verus!
