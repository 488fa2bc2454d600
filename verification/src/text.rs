//! Text as the daemon lays it out: paragraphs, words, wrapped lines, and a
//! line cut short with an ellipsis. Widths are measured outside the library:
//! every function takes a `fits` test that says whether a string fits the
//! box in the font at hand.
use vstd::prelude::*;
use crate::text_laws::{
    lemma_line_scan, lemma_solid_blank, lemma_solid_concat, lemma_solid_lines_concat,
    lemma_solid_lines_flatten, lemma_solid_lines_push, lemma_solid_single, lemma_words_solid, solid,
    solid_lines,
};

verus! {

/// The horizontal ellipsis that marks a cut line.
pub const ELLIPSIS: char = '\u{2026}';

/// Appends `c` to `s`.
///
/// Trusted: calls `String::push` of std, which appends one character; the
/// contract says that the characters of `s` grow by `c` and nothing else.
#[verifier::external_body]
fn push_char(s: &mut String, c: char)
    ensures
        final(s)@ == old(s)@.push(c),
{
    s.push(c);
}

/// The characters of `v`, one sequence per string.
pub open spec fn texts(v: Seq<String>) -> Seq<Seq<char>> {
    v.map_values(|s: String| s@)
}

/// Unicode's White_Space characters, the ones `char::is_whitespace` accepts.
pub open spec fn is_space(c: char) -> bool {
    let u = c as u32;
    ||| 0x9 <= u <= 0xD
    ||| u == 0x20
    ||| u == 0x85
    ||| u == 0xA0
    ||| u == 0x1680
    ||| 0x2000 <= u <= 0x200A
    ||| u == 0x2028
    ||| u == 0x2029
    ||| u == 0x202F
    ||| u == 0x205F
    ||| u == 0x3000
}

/// Whether `c` is white space.
pub fn is_whitespace(c: char) -> (r: bool)
    ensures
        r == is_space(c),
{
    let u = c as u32;
    (0x9 <= u && u <= 0xD) || u == 0x20 || u == 0x85 || u == 0xA0 || u == 0x1680 || (0x2000 <= u
        && u <= 0x200A) || u == 0x2028 || u == 0x2029 || u == 0x202F || u == 0x205F || u == 0x3000
}

/// A text made of white space only (the empty text too).
pub open spec fn blank(s: Seq<char>) -> bool {
    forall|i: int| 0 <= i < s.len() ==> is_space(#[trigger] s[i])
}

/// The characters of `s`.
fn chars_of(s: &str) -> (v: Vec<char>)
    ensures
        v@ == s@,
{
    let mut v: Vec<char> = Vec::new();
    for c in it: s.chars()
        invariant
            v@ == it.seq().take(it.index() as int),
            it.seq() == s@,
    {
        v.push(c);
    }
    v
}

/// The string of the characters `v[from..to]`.
fn string_of(v: &Vec<char>, from: usize, to: usize) -> (s: String)
    requires
        from <= to <= v.len(),
    ensures
        s@ == v@.subrange(from as int, to as int),
{
    let mut s = String::new();
    let mut i = from;
    while i < to
        invariant
            from <= i <= to <= v.len(),
            s@ == v@.subrange(from as int, i as int),
        decreases to - i,
    {
        push_char(&mut s, v[i]);
        proof {
            assert(v@.subrange(from as int, i + 1) =~= v@.subrange(from as int, i as int).push(v@[i as int]));
        }
        i = i + 1;
    }
    s
}

/// Whether `s` is white space only, as `s.trim().is_empty()` tells.
pub fn is_blank(s: &str) -> (r: bool)
    ensures
        r == blank(s@),
{
    let cs = chars_of(s);
    let mut i: usize = 0;
    while i < cs.len()
        invariant
            cs@ == s@,
            i <= cs@.len(),
            forall|j: int| 0 <= j < i ==> is_space(#[trigger] cs@[j]),
        decreases cs@.len() - i,
    {
        if !is_whitespace(cs[i]) {
            return false;
        }
        i = i + 1;
    }
    true
}

/// Scanning `s` for words, left to right: the words ended so far, and the
/// one being read.
pub open spec fn word_scan(s: Seq<char>) -> (Seq<Seq<char>>, Seq<char>)
    decreases s.len(),
{
    if s.len() == 0 {
        (Seq::empty(), Seq::empty())
    } else {
        let (done, cur) = word_scan(s.drop_last());
        let c = s.last();
        if is_space(c) {
            if cur.len() > 0 {
                (done.push(cur), Seq::empty())
            } else {
                (done, cur)
            }
        } else {
            (done, cur.push(c))
        }
    }
}

/// The words of `s`: its longest runs of characters other than white space,
/// in order, as `str::split_whitespace` gives them.
pub open spec fn words(s: Seq<char>) -> Seq<Seq<char>> {
    let (done, cur) = word_scan(s);
    if cur.len() > 0 {
        done.push(cur)
    } else {
        done
    }
}

/// Scanning `s` for lines, left to right: the lines ended so far, and the
/// one being read.
pub open spec fn line_scan(s: Seq<char>) -> (Seq<Seq<char>>, Seq<char>)
    decreases s.len(),
{
    if s.len() == 0 {
        (Seq::empty(), Seq::empty())
    } else {
        let (done, cur) = line_scan(s.drop_last());
        if s.last() == '\n' {
            (done.push(cur), Seq::empty())
        } else {
            (done, cur.push(s.last()))
        }
    }
}

/// The pieces of `s` between line feeds, as `str::split('\n')` gives them:
/// one more than there are line feeds.
pub open spec fn paragraphs(s: Seq<char>) -> Seq<Seq<char>> {
    let (done, cur) = line_scan(s);
    done.push(cur)
}

/// The words of `s`.
pub fn split_words(s: &str) -> (r: Vec<String>)
    ensures
        texts(r@) == words(s@),
{
    let cs = chars_of(s);
    let mut done: Vec<String> = Vec::new();
    let mut cur = String::new();
    let mut i: usize = 0;
    proof {
        assert(cs@.take(0) =~= Seq::<char>::empty());
        assert(texts(done@) =~= Seq::<Seq<char>>::empty());
    }
    while i < cs.len()
        invariant
            cs@ == s@,
            i <= cs@.len(),
            (texts(done@), cur@) == word_scan(cs@.take(i as int)),
        decreases cs@.len() - i,
    {
        let c = cs[i];
        proof {
            assert(cs@.take(i + 1).drop_last() =~= cs@.take(i as int));
            assert(cs@.take(i + 1).last() == c);
        }
        let ghost d0 = done@;
        if is_whitespace(c) {
            if !cur.as_str().is_empty() {
                let word = cur;
                cur = String::new();
                done.push(word);
                proof {
                    assert(texts(done@) =~= texts(d0).push(word@));
                }
            }
        } else {
            push_char(&mut cur, c);
        }
        i = i + 1;
    }
    proof {
        assert(cs@.take(cs@.len() as int) =~= cs@);
    }
    if !cur.as_str().is_empty() {
        let ghost d0 = done@;
        done.push(cur);
        proof {
            assert(texts(done@) =~= texts(d0).push(cur@));
        }
    }
    done
}

/// The pieces of `s` between line feeds.
pub fn split_paragraphs(s: &str) -> (r: Vec<String>)
    ensures
        texts(r@) == paragraphs(s@),
{
    let cs = chars_of(s);
    let mut done: Vec<String> = Vec::new();
    let mut cur = String::new();
    let mut i: usize = 0;
    proof {
        assert(cs@.take(0) =~= Seq::<char>::empty());
        assert(texts(done@) =~= Seq::<Seq<char>>::empty());
    }
    while i < cs.len()
        invariant
            cs@ == s@,
            i <= cs@.len(),
            (texts(done@), cur@) == line_scan(cs@.take(i as int)),
        decreases cs@.len() - i,
    {
        let c = cs[i];
        proof {
            assert(cs@.take(i + 1).drop_last() =~= cs@.take(i as int));
            assert(cs@.take(i + 1).last() == c);
        }
        let ghost d0 = done@;
        if c == '\n' {
            let line = cur;
            cur = String::new();
            done.push(line);
            proof {
                assert(texts(done@) =~= texts(d0).push(line@));
            }
        } else {
            push_char(&mut cur, c);
        }
        i = i + 1;
    }
    proof {
        assert(cs@.take(cs@.len() as int) =~= cs@);
    }
    let ghost d0 = done@;
    done.push(cur);
    proof {
        assert(texts(done@) =~= texts(d0).push(cur@));
    }
    done
}


/// Some call of `fits` on a string with the characters `s` answered yes.
pub open spec fn accepts<F: Fn(&str) -> bool>(fits: F, s: Seq<char>) -> bool {
    exists|t: &str| #[trigger] call_ensures(fits, (t,), true) && t@ == s
}

/// `fits` answers by the characters of its argument alone, the same for
/// the same text, as a width measure in a fixed font does.
pub open spec fn is_measure<F: Fn(&str) -> bool>(fits: F) -> bool {
    forall|t1: &str, t2: &str, r1: bool, r2: bool|
        #![trigger call_ensures(fits, (t1,), r1), call_ensures(fits, (t2,), r2)]
        t1@ == t2@ && call_ensures(fits, (t1,), r1) && call_ensures(fits, (t2,), r2) ==> r1 == r2
}

/// `fits` can be called on any string.
pub open spec fn can_call<F: Fn(&str) -> bool>(fits: F) -> bool {
    forall|t: &str| #[trigger] call_requires(fits, (t,))
}

/// The test that `fits` stands for, as a predicate on texts.
pub open spec fn fit_pred<F: Fn(&str) -> bool>(fits: F) -> spec_fn(Seq<char>) -> bool {
    |s: Seq<char>| accepts(fits, s)
}

/// Asks `fits` about `s`.
fn measure<F: Fn(&str) -> bool>(fits: &F, s: &String) -> (r: bool)
    requires
        can_call(*fits),
    ensures
        r ==> accepts(*fits, s@),
        is_measure(*fits) ==> r == fit_pred(*fits)(s@),
{
    let t = s.as_str();
    let r = fits(t);
    proof {
        if is_measure(*fits) && !r && accepts(*fits, s@) {
            let t2 = choose|t2: &str| #[trigger] call_ensures(*fits, (t2,), true) && t2@ == s@;
            assert(call_ensures(*fits, (t2,), true));
        }
    }
    r
}


/// Cutting the word `w` into pieces, left to right: the pieces ended so far,
/// and the one being grown. A piece grows by one character as long as the
/// longer piece fits; a piece of one character is kept even if it does not.
pub open spec fn chunk_scan(w: Seq<char>, fit: spec_fn(Seq<char>) -> bool) -> (Seq<Seq<char>>, Seq<char>)
    decreases w.len(),
{
    if w.len() == 0 {
        (Seq::empty(), Seq::empty())
    } else {
        let (done, cur) = chunk_scan(w.drop_last(), fit);
        let c = w.last();
        if cur.len() == 0 || fit(cur.push(c)) {
            (done, cur.push(c))
        } else {
            (done.push(cur), seq![c])
        }
    }
}

/// The pieces into which a word too wide for a line is cut.
pub open spec fn chunks(w: Seq<char>, fit: spec_fn(Seq<char>) -> bool) -> Seq<Seq<char>> {
    let (done, cur) = chunk_scan(w, fit);
    if cur.len() > 0 {
        done.push(cur)
    } else {
        done
    }
}

/// Adding a string at the end of `v` adds its characters at the end of the
/// flattened text.
proof fn lemma_texts_push(v: Seq<String>, s: String)
    ensures
        texts(v.push(s)) == texts(v).push(s@),
        texts(v.push(s)).flatten() == texts(v).flatten() + s@,
{
    assert(texts(v.push(s)) =~= texts(v).push(s@));
    texts(v).lemma_flatten_push(s@);
}

/// Adding a non-empty string to strings that are all non-empty keeps them so.
proof fn lemma_push_nonempty(v: Seq<String>, s: String)
    requires
        forall|q: int| 0 <= q < v.len() ==> (#[trigger] v[q])@.len() > 0,
        s@.len() > 0,
    ensures
        forall|q: int| 0 <= q < v.push(s).len() ==> (#[trigger] v.push(s)[q])@.len() > 0,
{
    assert forall|q: int| 0 <= q < v.push(s).len() implies (#[trigger] v.push(s)[q])@.len() > 0 by {
        if q < v.len() {
            assert(v.push(s)[q] == v[q]);
        }
    }
}

/// Cuts `word` into pieces that fit: each piece takes characters as long as
/// the longer piece still fits, and holds at least one character.
pub fn split_long_word<F: Fn(&str) -> bool>(word: &str, fits: &F) -> (r: Vec<String>)
    requires
        can_call(*fits),
    ensures
        texts(r@).flatten() == word@,
        forall|i: int| 0 <= i < r@.len() ==> (#[trigger] r@[i])@.len() > 0,
        is_measure(*fits) ==> texts(r@) == chunks(word@, fit_pred(*fits)),
{
    let cs = chars_of(word);
    let mut out: Vec<String> = Vec::new();
    let mut cur = String::new();
    let mut i: usize = 0;
    proof {
        assert(cs@.take(0) =~= Seq::<char>::empty());
        assert(texts(out@) =~= Seq::<Seq<char>>::empty());
        assert(texts(out@).flatten() + cur@ =~= cs@.take(0));
    }
    while i < cs.len()
        invariant
            cs@ == word@,
            i <= cs@.len(),
            can_call(*fits),
            texts(out@).flatten() + cur@ == cs@.take(i as int),
            forall|j: int| 0 <= j < out@.len() ==> (#[trigger] out@[j])@.len() > 0,
            is_measure(*fits) ==> (texts(out@), cur@) == chunk_scan(cs@.take(i as int), fit_pred(*fits)),
        decreases cs@.len() - i,
    {
        let c = cs[i];
        proof {
            assert(cs@.take(i + 1).drop_last() =~= cs@.take(i as int));
            assert(cs@.take(i + 1).last() == c);
            assert(cs@.take(i + 1) =~= cs@.take(i as int).push(c));
        }
        let grow = if cur.as_str().is_empty() {
            true
        } else {
            let mut candidate = cur.clone();
            push_char(&mut candidate, c);
            measure(fits, &candidate)
        };
        let ghost out0 = out@;
        let ghost cur0 = cur@;
        if grow {
            push_char(&mut cur, c);
            proof {
                assert(texts(out@).flatten() + cur@ =~= texts(out0).flatten() + cur0 + seq![c]);
            }
        } else {
            let piece = cur;
            out.push(piece);
            cur = String::new();
            push_char(&mut cur, c);
            proof {
                lemma_texts_push(out0, piece);
                assert(texts(out@).flatten() + cur@ =~= texts(out0).flatten() + cur0 + seq![c]);
            }
        }
        i = i + 1;
    }
    proof {
        assert(cs@.take(cs@.len() as int) =~= cs@);
    }
    if !cur.as_str().is_empty() {
        let ghost out0 = out@;
        out.push(cur);
        proof {
            lemma_texts_push(out0, cur);
        }
    } else {
        proof {
            assert(texts(out@).flatten() + cur@ =~= texts(out@).flatten());
        }
    }
    out
}


/// Filling lines with the words `ws`, left to right: the lines ended so far,
/// and the one being filled. A word that fits joins the current line after a
/// space if the longer line still fits, else starts a new line; a word too
/// wide for a line ends the current line and is cut into pieces, the last of
/// which becomes the current line.
pub open spec fn wrap_scan(ws: Seq<Seq<char>>, fit: spec_fn(Seq<char>) -> bool) -> (Seq<Seq<char>>, Seq<char>)
    decreases ws.len(),
{
    if ws.len() == 0 {
        (Seq::empty(), Seq::empty())
    } else {
        let (lines, cur) = wrap_scan(ws.drop_last(), fit);
        let w = ws.last();
        if fit(w) {
            if cur.len() == 0 {
                (lines, w)
            } else if fit(cur + seq![' '] + w) {
                (lines, cur + seq![' '] + w)
            } else {
                (lines.push(cur), w)
            }
        } else {
            let ended = if cur.len() > 0 {
                lines.push(cur)
            } else {
                lines
            };
            let pieces = chunks(w, fit);
            if pieces.len() > 0 {
                (ended + pieces.drop_last(), pieces.last())
            } else {
                (ended, Seq::empty())
            }
        }
    }
}

/// The lines of a paragraph: one empty line for a blank paragraph, else its
/// words filled into lines.
pub open spec fn wrapped(p: Seq<char>, fit: spec_fn(Seq<char>) -> bool) -> Seq<Seq<char>> {
    if blank(p) {
        seq![Seq::<char>::empty()]
    } else {
        let (lines, cur) = wrap_scan(words(p), fit);
        if cur.len() > 0 {
            lines.push(cur)
        } else {
            lines
        }
    }
}

/// Wraps one paragraph (a text without line feeds) into lines that fit.
pub fn wrap_paragraph<F: Fn(&str) -> bool>(paragraph: &str, fits: &F) -> (r: Vec<String>)
    requires
        can_call(*fits),
    ensures
        blank(paragraph@) ==> texts(r@) == seq![Seq::<char>::empty()],
        !blank(paragraph@) ==> forall|i: int| 0 <= i < r@.len() ==> (#[trigger] r@[i])@.len() > 0,
        solid_lines(texts(r@)) == solid(paragraph@),
        is_measure(*fits) ==> texts(r@) == wrapped(paragraph@, fit_pred(*fits)),
{
    if is_blank(paragraph) {
        let mut only: Vec<String> = Vec::new();
        only.push(String::new());
        proof {
            assert(texts(only@) =~= seq![Seq::<char>::empty()]);
            lemma_solid_blank(paragraph@);
            lemma_solid_lines_push(Seq::<Seq<char>>::empty(), Seq::<char>::empty());
            assert(Seq::<Seq<char>>::empty().push(Seq::<char>::empty()) =~= seq![Seq::<char>::empty()]);
            assert(solid_lines(Seq::<Seq<char>>::empty()) =~= Seq::<char>::empty());
            assert(solid(Seq::<char>::empty()) =~= Seq::<char>::empty());
        }
        return only;
    }
    let ws = split_words(paragraph);
    let ghost wv = texts(ws@);
    let mut lines: Vec<String> = Vec::new();
    let mut cur = String::new();
    let mut k: usize = 0;
    proof {
        assert(wv.take(0) =~= Seq::<Seq<char>>::empty());
        assert(texts(lines@) =~= Seq::<Seq<char>>::empty());
        assert(solid_lines(Seq::<Seq<char>>::empty()) =~= Seq::<char>::empty());
        assert(solid(Seq::<char>::empty()) =~= Seq::<char>::empty());
        assert(Seq::<char>::empty() + Seq::<char>::empty() =~= Seq::<char>::empty());
    }
    while k < ws.len()
        invariant
            wv == texts(ws@),
            wv == words(paragraph@),
            k <= ws@.len(),
            can_call(*fits),
            solid_lines(texts(lines@)) + solid(cur@) == solid(wv.take(k as int).flatten()),
            forall|j: int| 0 <= j < lines@.len() ==> (#[trigger] lines@[j])@.len() > 0,
            is_measure(*fits) ==> (texts(lines@), cur@) == wrap_scan(wv.take(k as int), fit_pred(*fits)),
        decreases ws@.len() - k,
    {
        let word = &ws[k];
        proof {
            assert(wv.take(k + 1).drop_last() =~= wv.take(k as int));
            assert(wv.take(k + 1).last() == word@);
            assert(wv.take(k as int).push(word@) =~= wv.take(k + 1));
            wv.take(k as int).lemma_flatten_push(word@);
            lemma_solid_concat(wv.take(k as int).flatten(), word@);
            assert(solid(Seq::<char>::empty()) =~= Seq::<char>::empty());
        }
        let ghost lines0 = lines@;
        let ghost cur0 = cur@;
        let ghost done0 = solid_lines(texts(lines@));
        if measure(fits, word) {
            if cur.as_str().is_empty() {
                cur = word.clone();
                proof {
                    assert(done0 + solid(cur0) =~= done0);
                }
            } else {
                let mut candidate = cur.clone();
                push_char(&mut candidate, ' ');
                candidate.append(word.as_str());
                proof {
                    assert(candidate@ =~= cur0 + seq![' '] + word@);
                }
                if measure(fits, &candidate) {
                    cur = candidate;
                    proof {
                        lemma_solid_concat(cur0 + seq![' '], word@);
                        lemma_solid_concat(cur0, seq![' ']);
                        lemma_solid_single(' ');
                        assert(solid(cur0) + solid(seq![' ']) =~= solid(cur0));
                    }
                } else {
                    let line = cur;
                    lines.push(line);
                    cur = word.clone();
                    proof {
                        lemma_texts_push(lines0, line);
                        lemma_push_nonempty(lines0, line);
                        lemma_solid_lines_push(texts(lines0), line@);
                    }
                }
            }
        } else {
            if !cur.as_str().is_empty() {
                let line = cur;
                lines.push(line);
                cur = String::new();
                proof {
                    lemma_texts_push(lines0, line);
                    lemma_push_nonempty(lines0, line);
                    lemma_solid_lines_push(texts(lines0), line@);
                }
            }
            proof {
                assert(solid_lines(texts(lines@)) == done0 + solid(cur0));
                assert(cur@ == Seq::<char>::empty());
            }
            let pieces = split_long_word(word.as_str(), fits);
            proof {
                lemma_solid_lines_flatten(texts(pieces@));
            }
            let n = pieces.len();
            if n > 0 {
                let ghost lines1 = lines@;
                let mut j: usize = 0;
                while j < n - 1
                    invariant
                        n == pieces@.len(),
                        n > 0,
                        j <= n - 1,
                        texts(lines@) == texts(lines1) + texts(pieces@).take(j as int),
                        forall|q: int| 0 <= q < lines@.len() ==> (#[trigger] lines@[q])@.len() > 0,
                        forall|q: int| 0 <= q < pieces@.len() ==> (#[trigger] pieces@[q])@.len() > 0,
                    decreases n - 1 - j,
                {
                    let ghost l0 = lines@;
                    let piece = pieces[j].clone();
                    lines.push(piece);
                    proof {
                        lemma_texts_push(l0, piece);
                        lemma_push_nonempty(l0, piece);
                        assert(texts(pieces@).take(j + 1) =~= texts(pieces@).take(j as int).push(pieces@[j as int]@));
                        assert(texts(lines@) =~= texts(lines1) + texts(pieces@).take(j + 1));
                    }
                    j = j + 1;
                }
                cur = pieces[n - 1].clone();
                proof {
                    assert(texts(pieces@).take(n - 1) =~= texts(pieces@).drop_last());
                    assert(cur@ == texts(pieces@).last());
                    let tp = texts(pieces@);
                    assert(tp.drop_last().push(tp.last()) =~= tp);
                    lemma_solid_lines_push(tp.drop_last(), tp.last());
                    lemma_solid_lines_concat(texts(lines1), tp.drop_last());
                    assert(solid_lines(texts(lines@)) + solid(cur@) =~= solid_lines(texts(lines1)) + solid_lines(tp));
                }
            } else {
                proof {
                    assert(texts(pieces@) =~= Seq::<Seq<char>>::empty());
                    assert(solid_lines(Seq::<Seq<char>>::empty()) =~= Seq::<char>::empty());
                    assert(solid(word@) =~= Seq::<char>::empty());
                    assert(solid_lines(texts(lines@)) + solid(cur@) =~= solid_lines(texts(lines@)) + solid(word@));
                }
            }
        }
        k = k + 1;
    }
    proof {
        assert(wv.take(ws@.len() as int) =~= wv);
        lemma_words_solid(paragraph@);
    }
    if !cur.as_str().is_empty() {
        let ghost l0 = lines@;
        let last = cur;
        lines.push(last);
        proof {
            lemma_texts_push(l0, last);
            lemma_push_nonempty(l0, last);
            lemma_solid_lines_push(texts(l0), last@);
        }
    } else {
        proof {
            assert(solid(cur@) =~= Seq::<char>::empty());
            assert(solid_lines(texts(lines@)) + solid(cur@) =~= solid_lines(texts(lines@)));
        }
    }
    lines
}


/// The lines of a text: the lines of each of its paragraphs, in order.
pub open spec fn wrapped_text(t: Seq<char>, fit: spec_fn(Seq<char>) -> bool) -> Seq<Seq<char>> {
    paragraphs(t).map_values(|p: Seq<char>| wrapped(p, fit)).flatten()
}

/// Wraps a text into lines that fit, paragraph by paragraph; a blank
/// paragraph gives one empty line.
pub fn wrap_text<F: Fn(&str) -> bool>(text: &str, fits: &F) -> (r: Vec<String>)
    requires
        can_call(*fits),
    ensures
        solid_lines(texts(r@)) == solid(text@),
        is_measure(*fits) ==> texts(r@) == wrapped_text(text@, fit_pred(*fits)),
{
    let ps = split_paragraphs(text);
    let ghost pv = texts(ps@);
    let ghost f = |p: Seq<char>| wrapped(p, fit_pred(*fits));
    let mut lines: Vec<String> = Vec::new();
    let mut k: usize = 0;
    proof {
        assert(pv.take(0).map_values(f) =~= Seq::<Seq<Seq<char>>>::empty());
        assert(texts(lines@) =~= Seq::<Seq<char>>::empty());
        assert(pv.take(0) =~= Seq::<Seq<char>>::empty());
        assert(solid_lines(Seq::<Seq<char>>::empty()) =~= Seq::<char>::empty());
        assert(solid(Seq::<char>::empty()) =~= Seq::<char>::empty());
    }
    while k < ps.len()
        invariant
            pv == texts(ps@),
            pv == paragraphs(text@),
            f == (|p: Seq<char>| wrapped(p, fit_pred(*fits))),
            k <= ps@.len(),
            can_call(*fits),
            is_measure(*fits) ==> texts(lines@) == pv.take(k as int).map_values(f).flatten(),
            solid_lines(texts(lines@)) == solid(pv.take(k as int).flatten()),
        decreases ps@.len() - k,
    {
        let ghost l0 = lines@;
        proof {
            assert(pv.take(k + 1) =~= pv.take(k as int).push(ps@[k as int]@));
            pv.take(k as int).lemma_flatten_push(ps@[k as int]@);
            lemma_solid_concat(pv.take(k as int).flatten(), ps@[k as int]@);
            assert(pv.take(k + 1).map_values(f) =~= pv.take(k as int).map_values(f).push(f(ps@[k as int]@)));
            pv.take(k as int).map_values(f).lemma_flatten_push(f(ps@[k as int]@));
        }
        if is_blank(ps[k].as_str()) {
            lines.push(String::new());
            proof {
                assert(texts(lines@) =~= texts(l0) + seq![Seq::<char>::empty()]);
                assert(texts(lines@) =~= texts(l0).push(Seq::<char>::empty()));
                lemma_solid_lines_push(texts(l0), Seq::<char>::empty());
                lemma_solid_blank(ps@[k as int]@);
                assert(solid(Seq::<char>::empty()) =~= Seq::<char>::empty());
            }
        } else {
            let mut more = wrap_paragraph(ps[k].as_str(), fits);
            let ghost m0 = more@;
            lines.append(&mut more);
            proof {
                assert(texts(lines@) =~= texts(l0) + texts(m0));
                lemma_solid_lines_concat(texts(l0), texts(m0));
            }
        }
        k = k + 1;
    }
    proof {
        assert(pv.take(ps@.len() as int) =~= pv);
        lemma_line_scan(text@);
        line_scan(text@).0.lemma_flatten_push(line_scan(text@).1);
    }
    lines
}

/// `line` cut to its first `k` characters, then shorter one character at a
/// time, until it fits with an ellipsis after it; with no character left,
/// the ellipsis alone.
pub open spec fn shortened(line: Seq<char>, k: int, fit: spec_fn(Seq<char>) -> bool) -> Seq<char>
    decreases k,
{
    if k <= 0 || fit(line.take(k).push(ELLIPSIS)) {
        line.take(k).push(ELLIPSIS)
    } else {
        shortened(line, k - 1, fit)
    }
}

/// The longest beginning of `line` that fits with an ellipsis after it, the
/// ellipsis included; nothing if not even the ellipsis fits.
pub open spec fn ellipsized(line: Seq<char>, fit: spec_fn(Seq<char>) -> bool) -> Seq<char> {
    if !fit(seq![ELLIPSIS]) {
        Seq::empty()
    } else {
        shortened(line, line.len() as int, fit)
    }
}

/// Ends `line` with an ellipsis, dropping characters from its end until it
/// fits.
pub fn append_ellipsis<F: Fn(&str) -> bool>(line: &str, fits: &F) -> (r: String)
    requires
        can_call(*fits),
    ensures
        r@.len() == 0 || exists|k: int| 0 <= k <= line@.len() && r@ == #[trigger] line@.take(k).push(ELLIPSIS),
        is_measure(*fits) ==> r@ == ellipsized(line@, fit_pred(*fits)),
{
    let mut mark = String::new();
    push_char(&mut mark, ELLIPSIS);
    proof {
        assert(mark@ =~= seq![ELLIPSIS]);
    }
    if !measure(fits, &mark) {
        return String::new();
    }
    let cs = chars_of(line);
    let mut k: usize = cs.len();
    loop
        invariant
            cs@ == line@,
            k <= cs@.len(),
            can_call(*fits),
            is_measure(*fits) ==> ellipsized(line@, fit_pred(*fits)) == shortened(line@, k as int, fit_pred(*fits)),
        decreases k,
    {
        let mut candidate = string_of(&cs, 0, k);
        push_char(&mut candidate, ELLIPSIS);
        proof {
            assert(cs@.subrange(0, k as int) =~= line@.take(k as int));
        }
        if k == 0 || measure(fits, &candidate) {
            return candidate;
        }
        k = k - 1;
    }
}

} // verus!
