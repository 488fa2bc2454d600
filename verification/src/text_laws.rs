//! What holds of wrapping and cutting text, whatever the width test.
use vstd::prelude::*;
use crate::text::{
    blank, chunk_scan, chunks, ellipsized, is_space, line_scan, paragraphs, shortened, word_scan, words,
    wrap_scan, wrapped, wrapped_text, ELLIPSIS,
};

verus! {

/// What the scan of a word keeps true: the pieces and the growing piece
/// spell the characters read so far, no piece is empty, every piece grew
/// only while it fitted, and each ended piece did not fit with the next
/// character.
pub open spec fn scan_ok(
    w: Seq<char>,
    done: Seq<Seq<char>>,
    cur: Seq<char>,
    fit: spec_fn(Seq<char>) -> bool,
) -> bool {
    &&& done.flatten() + cur == w
    &&& cur.len() == 0 ==> done.len() == 0
    &&& forall|i: int| 0 <= i < done.len() ==> (#[trigger] done[i]).len() > 0
    &&& forall|i: int, j: int| 0 <= i < done.len() && 2 <= j <= done[i].len() ==> fit(#[trigger] done[i].take(j))
    &&& forall|j: int| 2 <= j <= cur.len() ==> fit(#[trigger] cur.take(j))
    &&& forall|i: int| 0 <= i < done.len() - 1 ==> !fit(#[trigger] done[i].push(done[i + 1][0]))
    &&& done.len() > 0 ==> !fit(done.last().push(cur[0]))
}

proof fn lemma_chunk_scan(w: Seq<char>, fit: spec_fn(Seq<char>) -> bool)
    ensures
        scan_ok(w, chunk_scan(w, fit).0, chunk_scan(w, fit).1, fit),
    decreases w.len(),
{
    if w.len() == 0 {
        assert(Seq::<Seq<char>>::empty().flatten() + Seq::<char>::empty() =~= w);
    } else {
        let v = w.drop_last();
        lemma_chunk_scan(v, fit);
        let (done, cur) = chunk_scan(v, fit);
        let c = w.last();
        assert(v.push(c) =~= w);
        if cur.len() == 0 || fit(cur.push(c)) {
            let cur2 = cur.push(c);
            assert(chunk_scan(w, fit) == (done, cur2));
            assert(done.flatten() + cur2 =~= (done.flatten() + cur).push(c));
            assert forall|j: int| 2 <= j <= cur2.len() implies fit(#[trigger] cur2.take(j)) by {
                if j <= cur.len() {
                    assert(cur2.take(j) =~= cur.take(j));
                } else {
                    assert(cur2.take(j) =~= cur2);
                }
            }
            if done.len() > 0 {
                assert(cur2[0] == cur[0]);
            }
        } else {
            let done2 = done.push(cur);
            let cur2 = seq![c];
            assert(chunk_scan(w, fit) == (done2, cur2));
            done.lemma_flatten_push(cur);
            assert(done2.flatten() + cur2 =~= (done.flatten() + cur).push(c));
            assert forall|i: int| 0 <= i < done2.len() implies (#[trigger] done2[i]).len() > 0 by {
                if i < done.len() {
                    assert(done2[i] == done[i]);
                }
            }
            assert forall|i: int, j: int| 0 <= i < done2.len() && 2 <= j <= done2[i].len() implies fit(
                #[trigger] done2[i].take(j),
            ) by {
                if i < done.len() {
                    assert(done2[i] == done[i]);
                }
            }
            assert forall|i: int| 0 <= i < done2.len() - 1 implies !fit(#[trigger] done2[i].push(done2[i + 1][0])) by {
                if i < done.len() - 1 {
                    assert(done2[i] == done[i]);
                    assert(done2[i + 1] == done[i + 1]);
                } else {
                    assert(done2[i] == done.last());
                    assert(done2[i + 1] == cur);
                }
            }
        }
    }
}

/// The pieces of a cut word spell the word, and none is empty.
pub proof fn law_chunks_spell_word(w: Seq<char>, fit: spec_fn(Seq<char>) -> bool)
    ensures
        chunks(w, fit).flatten() == w,
        forall|i: int| 0 <= i < chunks(w, fit).len() ==> (#[trigger] chunks(w, fit)[i]).len() > 0,
{
    lemma_chunk_scan(w, fit);
    let (done, cur) = chunk_scan(w, fit);
    if cur.len() > 0 {
        done.lemma_flatten_push(cur);
        assert forall|i: int| 0 <= i < done.push(cur).len() implies (#[trigger] done.push(cur)[i]).len() > 0 by {
            if i < done.len() {
                assert(done.push(cur)[i] == done[i]);
            }
        }
    } else {
        assert(done.flatten() + cur =~= done.flatten());
    }
}

/// A word is cut greedily: every piece took each of its characters after the
/// first only because the longer piece fitted, and every piece but the last
/// ended because it did not fit with the next character.
pub proof fn law_chunks_are_greedy(w: Seq<char>, fit: spec_fn(Seq<char>) -> bool)
    ensures
        forall|i: int, j: int|
            0 <= i < chunks(w, fit).len() && 2 <= j <= chunks(w, fit)[i].len() ==> fit(
                #[trigger] chunks(w, fit)[i].take(j),
            ),
        forall|i: int|
            0 <= i < chunks(w, fit).len() - 1 ==> !fit(
                #[trigger] chunks(w, fit)[i].push(chunks(w, fit)[i + 1][0]),
            ),
{
    lemma_chunk_scan(w, fit);
    let (done, cur) = chunk_scan(w, fit);
    let cs = chunks(w, fit);
    if cur.len() > 0 {
        assert forall|i: int, j: int| 0 <= i < cs.len() && 2 <= j <= cs[i].len() implies fit(
            #[trigger] cs[i].take(j),
        ) by {
            if i < done.len() {
                assert(cs[i] == done[i]);
            } else {
                assert(cs[i] == cur);
            }
        }
        assert forall|i: int| 0 <= i < cs.len() - 1 implies !fit(#[trigger] cs[i].push(cs[i + 1][0])) by {
            assert(cs[i] == done[i]);
            if i < done.len() - 1 {
                assert(cs[i + 1] == done[i + 1]);
            } else {
                assert(cs[i + 1] == cur);
            }
        }
    }
}

/// A line cut with an ellipsis fits whenever the ellipsis alone fits; it is
/// a beginning of the line followed by the ellipsis, or nothing.
pub proof fn law_ellipsized_fits(line: Seq<char>, fit: spec_fn(Seq<char>) -> bool)
    ensures
        fit(seq![ELLIPSIS]) ==> fit(ellipsized(line, fit)),
        ellipsized(line, fit).len() == 0 || exists|k: int|
            0 <= k <= line.len() && ellipsized(line, fit) == #[trigger] line.take(k).push(ELLIPSIS),
{
    if fit(seq![ELLIPSIS]) {
        lemma_shortened(line, line.len() as int, fit);
    }
}

proof fn lemma_shortened(line: Seq<char>, k: int, fit: spec_fn(Seq<char>) -> bool)
    requires
        0 <= k <= line.len(),
        fit(seq![ELLIPSIS]),
    ensures
        fit(shortened(line, k, fit)),
        exists|i: int| 0 <= i <= k && shortened(line, k, fit) == #[trigger] line.take(i).push(ELLIPSIS),
    decreases k,
{
    if k <= 0 {
        assert(line.take(0).push(ELLIPSIS) =~= seq![ELLIPSIS]);
        assert(shortened(line, k, fit) == line.take(0).push(ELLIPSIS));
    } else if fit(line.take(k).push(ELLIPSIS)) {
        assert(shortened(line, k, fit) == line.take(k).push(ELLIPSIS));
    } else {
        lemma_shortened(line, k - 1, fit);
    }
}


/// The characters of `s` that show: all but the white space.
pub open spec fn solid(s: Seq<char>) -> Seq<char>
    decreases s.len(),
{
    if s.len() == 0 {
        s
    } else if is_space(s.last()) {
        solid(s.drop_last())
    } else {
        solid(s.drop_last()).push(s.last())
    }
}

/// The characters that show in the lines `ls`, in reading order.
pub open spec fn solid_lines(ls: Seq<Seq<char>>) -> Seq<char> {
    ls.map_values(|l: Seq<char>| solid(l)).flatten()
}

pub(crate) proof fn lemma_solid_single(c: char)
    ensures
        solid(seq![c]) == (if is_space(c) { Seq::<char>::empty() } else { seq![c] }),
        is_space(' '),
        is_space('\n'),
{
    let e = Seq::<char>::empty();
    assert(seq![c].drop_last() =~= e);
    assert(seq![c].last() == c);
    assert(solid(e) == e);
    assert(solid(seq![c]) == (if is_space(c) { solid(e) } else { solid(e).push(c) }));
    assert((' ' as u32) == 0x20);
    assert(('\n' as u32) == 0xA);
    if !is_space(c) {
        assert(Seq::<char>::empty().push(c) =~= seq![c]);
    }
}

pub(crate) proof fn lemma_solid_concat(a: Seq<char>, b: Seq<char>)
    ensures
        solid(a + b) == solid(a) + solid(b),
    decreases b.len(),
{
    if b.len() == 0 {
        assert(a + b =~= a);
        assert(solid(a) + solid(b) =~= solid(a));
    } else {
        let b1 = b.drop_last();
        lemma_solid_concat(a, b1);
        assert((a + b).drop_last() =~= a + b1);
        assert((a + b).last() == b.last());
        if !is_space(b.last()) {
            assert(solid(a) + solid(b) =~= (solid(a) + solid(b1)).push(b.last()));
        }
    }
}

pub(crate) proof fn lemma_solid_blank(s: Seq<char>)
    requires
        blank(s),
    ensures
        solid(s) == Seq::<char>::empty(),
    decreases s.len(),
{
    if s.len() > 0 {
        assert(is_space(s[s.len() - 1]));
        let t = s.drop_last();
        assert forall|i: int| 0 <= i < t.len() implies is_space(#[trigger] t[i]) by {
            assert(t[i] == s[i]);
        }
        lemma_solid_blank(t);
    }
}

pub(crate) proof fn lemma_solid_lines_push(ls: Seq<Seq<char>>, l: Seq<char>)
    ensures
        solid_lines(ls.push(l)) == solid_lines(ls) + solid(l),
{
    let f = |x: Seq<char>| solid(x);
    assert(ls.push(l).map_values(f) =~= ls.map_values(f).push(solid(l)));
    ls.map_values(f).lemma_flatten_push(solid(l));
}

pub(crate) proof fn lemma_solid_lines_concat(a: Seq<Seq<char>>, b: Seq<Seq<char>>)
    ensures
        solid_lines(a + b) == solid_lines(a) + solid_lines(b),
{
    let f = |x: Seq<char>| solid(x);
    assert((a + b).map_values(f) =~= a.map_values(f) + b.map_values(f));
    vstd::seq_lib::lemma_flatten_concat(a.map_values(f), b.map_values(f));
}

/// What shows in lines is what shows in their characters read in a row.
pub(crate) proof fn lemma_solid_lines_flatten(ls: Seq<Seq<char>>)
    ensures
        solid_lines(ls) == solid(ls.flatten()),
    decreases ls.len(),
{
    if ls.len() == 0 {
        assert(solid_lines(ls) =~= Seq::<char>::empty());
    } else {
        let l1 = ls.drop_last();
        lemma_solid_lines_flatten(l1);
        assert(l1.push(ls.last()) =~= ls);
        lemma_solid_lines_push(l1, ls.last());
        l1.lemma_flatten_push(ls.last());
        lemma_solid_concat(l1.flatten(), ls.last());
    }
}

proof fn lemma_word_scan(s: Seq<char>)
    ensures
        solid(word_scan(s).0.flatten() + word_scan(s).1) == solid(s),
    decreases s.len(),
{
    if s.len() == 0 {
        assert(Seq::<Seq<char>>::empty().flatten() + Seq::<char>::empty() =~= s);
    } else {
        let t = s.drop_last();
        lemma_word_scan(t);
        let (done, cur) = word_scan(t);
        let c = s.last();
        done.lemma_flatten_push(cur);
        lemma_solid_concat(done.flatten() + cur, seq![c]);
        lemma_solid_concat(t, seq![c]);
        assert(t + seq![c] =~= s);
        lemma_solid_single(c);
        assert((done.flatten() + cur).push(c) =~= done.flatten() + cur + seq![c]);
        if is_space(c) {
            if cur.len() > 0 {
                assert(done.push(cur).flatten() + Seq::<char>::empty() =~= done.flatten() + cur);
            } else {
                assert(done.flatten() + Seq::<char>::empty() =~= done.flatten() + cur);
            }
        } else {
            assert(done.flatten() + cur.push(c) =~= done.flatten() + cur + seq![c]);
        }
    }
}

/// The words of a text hold exactly the characters of it that show.
pub(crate) proof fn lemma_words_solid(s: Seq<char>)
    ensures
        solid(words(s).flatten()) == solid(s),
{
    lemma_word_scan(s);
    let (done, cur) = word_scan(s);
    if cur.len() > 0 {
        done.lemma_flatten_push(cur);
    }
}

proof fn lemma_wrap_scan(ws: Seq<Seq<char>>, fit: spec_fn(Seq<char>) -> bool)
    ensures
        solid_lines(wrap_scan(ws, fit).0) + solid(wrap_scan(ws, fit).1) == solid(ws.flatten()),
    decreases ws.len(),
{
    if ws.len() == 0 {
        assert(solid_lines(Seq::<Seq<char>>::empty()) =~= Seq::<char>::empty());
        assert(solid_lines(Seq::<Seq<char>>::empty()) + Seq::<char>::empty() =~= Seq::<char>::empty());
    } else {
        let v = ws.drop_last();
        let w = ws.last();
        lemma_wrap_scan(v, fit);
        let (lines, cur) = wrap_scan(v, fit);
        assert(v.push(w) =~= ws);
        v.lemma_flatten_push(w);
        lemma_solid_concat(v.flatten(), w);
        let x = solid_lines(lines);
        if fit(w) {
            if cur.len() == 0 {
                assert(x + solid(w) =~= x + solid(cur) + solid(w));
            } else if fit(cur + seq![' '] + w) {
                lemma_solid_concat(cur + seq![' '], w);
                lemma_solid_concat(cur, seq![' ']);
                lemma_solid_single(' ');
                assert(solid(cur) + solid(seq![' ']) =~= solid(cur));
                assert(x + solid(cur + seq![' '] + w) =~= x + solid(cur) + solid(w));
            } else {
                lemma_solid_lines_push(lines, cur);
                assert(solid_lines(lines.push(cur)) + solid(w) =~= x + solid(cur) + solid(w));
            }
        } else {
            let ended = if cur.len() > 0 {
                lines.push(cur)
            } else {
                lines
            };
            lemma_solid_lines_push(lines, cur);
            assert(solid_lines(ended) == x + solid(cur));
            let pieces = chunks(w, fit);
            law_chunks_spell_word(w, fit);
            lemma_solid_lines_flatten(pieces);
            if pieces.len() > 0 {
                let first = pieces.drop_last();
                assert(first.push(pieces.last()) =~= pieces);
                lemma_solid_lines_push(first, pieces.last());
                lemma_solid_lines_concat(ended, first);
                assert(solid_lines(ended + first) + solid(pieces.last()) =~= x + solid(cur) + solid(w));
            } else {
                assert(solid(w) =~= Seq::<char>::empty());
                assert(solid_lines(ended) + Seq::<char>::empty() =~= x + solid(cur) + solid(w));
            }
        }
    }
}

/// Wrapping a paragraph neither loses nor adds a character that shows: only
/// white space changes, whatever the width test.
pub proof fn law_wrapping_keeps_text(p: Seq<char>, fit: spec_fn(Seq<char>) -> bool)
    ensures
        solid_lines(wrapped(p, fit)) == solid(p),
{
    if blank(p) {
        lemma_solid_blank(p);
        lemma_solid_lines_push(Seq::<Seq<char>>::empty(), Seq::<char>::empty());
        assert(Seq::<Seq<char>>::empty().push(Seq::<char>::empty()) =~= seq![Seq::<char>::empty()]);
        assert(solid_lines(Seq::<Seq<char>>::empty()) =~= Seq::<char>::empty());
        assert(solid(Seq::<char>::empty()) =~= Seq::<char>::empty());
    } else {
        let ws = words(p);
        lemma_wrap_scan(ws, fit);
        lemma_words_solid(p);
        let (lines, cur) = wrap_scan(ws, fit);
        if cur.len() > 0 {
            lemma_solid_lines_push(lines, cur);
        } else {
            assert(solid(cur) =~= Seq::<char>::empty());
            assert(solid_lines(lines) + solid(cur) =~= solid_lines(lines));
        }
    }
}

pub(crate) proof fn lemma_line_scan(s: Seq<char>)
    ensures
        solid(line_scan(s).0.flatten() + line_scan(s).1) == solid(s),
    decreases s.len(),
{
    if s.len() == 0 {
        assert(Seq::<Seq<char>>::empty().flatten() + Seq::<char>::empty() =~= s);
    } else {
        let t = s.drop_last();
        lemma_line_scan(t);
        let (done, cur) = line_scan(t);
        let c = s.last();
        done.lemma_flatten_push(cur);
        lemma_solid_concat(done.flatten() + cur, seq![c]);
        lemma_solid_concat(t, seq![c]);
        assert(t + seq![c] =~= s);
        lemma_solid_single(c);
        if c == '\n' {
            assert(is_space(c));
            assert(done.push(cur).flatten() + Seq::<char>::empty() =~= done.flatten() + cur);
        } else {
            assert(done.flatten() + cur.push(c) =~= done.flatten() + cur + seq![c]);
        }
    }
}

/// Wrapping a text neither loses nor adds a character that shows: only white
/// space and line breaks change, whatever the width test.
pub proof fn law_wrapping_text_keeps_text(t: Seq<char>, fit: spec_fn(Seq<char>) -> bool)
    ensures
        solid_lines(wrapped_text(t, fit)) == solid(t),
{
    let ps = paragraphs(t);
    let f = |p: Seq<char>| wrapped(p, fit);
    let q = ps.map_values(f);
    assert forall|k: int| 0 <= k <= ps.len() implies #[trigger] solid_lines(q.take(k).flatten()) == solid(
        ps.take(k).flatten(),
    ) by {
        lemma_paragraph_prefix(ps, fit, k);
    }
    assert(q.take(ps.len() as int) =~= q);
    assert(ps.take(ps.len() as int) =~= ps);
    lemma_line_scan(t);
    let (done, cur) = line_scan(t);
    done.lemma_flatten_push(cur);
}

proof fn lemma_paragraph_prefix(ps: Seq<Seq<char>>, fit: spec_fn(Seq<char>) -> bool, k: int)
    requires
        0 <= k <= ps.len(),
    ensures
        solid_lines(ps.map_values(|p: Seq<char>| wrapped(p, fit)).take(k).flatten()) == solid(ps.take(k).flatten()),
    decreases k,
{
    let f = |p: Seq<char>| wrapped(p, fit);
    let q = ps.map_values(f);
    if k == 0 {
        assert(q.take(0) =~= Seq::<Seq<Seq<char>>>::empty());
        assert(ps.take(0) =~= Seq::<Seq<char>>::empty());
        assert(solid_lines(Seq::<Seq<char>>::empty()) =~= Seq::<char>::empty());
    } else {
        lemma_paragraph_prefix(ps, fit, k - 1);
        assert(q.take(k) =~= q.take(k - 1).push(f(ps[k - 1])));
        assert(ps.take(k) =~= ps.take(k - 1).push(ps[k - 1]));
        q.take(k - 1).lemma_flatten_push(f(ps[k - 1]));
        ps.take(k - 1).lemma_flatten_push(ps[k - 1]);
        lemma_solid_lines_concat(q.take(k - 1).flatten(), f(ps[k - 1]));
        law_wrapping_keeps_text(ps[k - 1], fit);
        lemma_solid_concat(ps.take(k - 1).flatten(), ps[k - 1]);
    }
}


/// A line fits the box, or holds at most one character (a single character
/// of a word is kept even when it is too wide on its own).
pub open spec fn line_fits(l: Seq<char>, fit: spec_fn(Seq<char>) -> bool) -> bool {
    l.len() <= 1 || fit(l)
}

proof fn lemma_chunks_fit(w: Seq<char>, fit: spec_fn(Seq<char>) -> bool)
    ensures
        forall|i: int| 0 <= i < chunks(w, fit).len() ==> line_fits(#[trigger] chunks(w, fit)[i], fit),
{
    law_chunks_are_greedy(w, fit);
    let cs = chunks(w, fit);
    assert forall|i: int| 0 <= i < cs.len() implies line_fits(#[trigger] cs[i], fit) by {
        if cs[i].len() >= 2 {
            assert(cs[i].take(cs[i].len() as int) =~= cs[i]);
            assert(fit(cs[i].take(cs[i].len() as int)));
        }
    }
}

proof fn lemma_wrap_scan_fits(ws: Seq<Seq<char>>, fit: spec_fn(Seq<char>) -> bool)
    ensures
        forall|i: int| 0 <= i < wrap_scan(ws, fit).0.len() ==> line_fits(#[trigger] wrap_scan(ws, fit).0[i], fit),
        line_fits(wrap_scan(ws, fit).1, fit),
    decreases ws.len(),
{
    if ws.len() > 0 {
        let v = ws.drop_last();
        let w = ws.last();
        lemma_wrap_scan_fits(v, fit);
        let (lines, cur) = wrap_scan(v, fit);
        let (lines2, cur2) = wrap_scan(ws, fit);
        if fit(w) {
            if cur.len() > 0 && !fit(cur + seq![' '] + w) {
                assert forall|i: int| 0 <= i < lines2.len() implies line_fits(#[trigger] lines2[i], fit) by {
                    if i < lines.len() {
                        assert(lines2[i] == lines[i]);
                    }
                }
            }
        } else {
            let ended = if cur.len() > 0 {
                lines.push(cur)
            } else {
                lines
            };
            assert forall|i: int| 0 <= i < ended.len() implies line_fits(#[trigger] ended[i], fit) by {
                if i < lines.len() {
                    assert(ended[i] == lines[i]);
                }
            }
            let pieces = chunks(w, fit);
            lemma_chunks_fit(w, fit);
            if pieces.len() > 0 {
                assert(lines2 == ended + pieces.drop_last());
                assert forall|i: int| 0 <= i < lines2.len() implies line_fits(#[trigger] lines2[i], fit) by {
                    if i < ended.len() {
                        assert(lines2[i] == ended[i]);
                    } else {
                        assert(lines2[i] == pieces[i - ended.len()]);
                    }
                }
                assert(cur2 == pieces[pieces.len() - 1]);
            }
        }
    }
}

/// Every line of a wrapped paragraph fits the box, but for a lone character
/// of a word too wide for any line: a word joins the current line only when
/// the line with a space and the word still fits.
pub proof fn law_wrapped_lines_fit(p: Seq<char>, fit: spec_fn(Seq<char>) -> bool)
    ensures
        forall|i: int| 0 <= i < wrapped(p, fit).len() ==> line_fits(#[trigger] wrapped(p, fit)[i], fit),
{
    if !blank(p) {
        lemma_wrap_scan_fits(words(p), fit);
        let (lines, cur) = wrap_scan(words(p), fit);
        if cur.len() > 0 {
            assert forall|i: int| 0 <= i < lines.push(cur).len() implies line_fits(#[trigger] lines.push(cur)[i], fit) by {
                if i < lines.len() {
                    assert(lines.push(cur)[i] == lines[i]);
                }
            }
        }
    }
}

/// Every line of a wrapped text fits the box, but for a lone character of a
/// word too wide for any line.
pub proof fn law_wrapped_text_lines_fit(t: Seq<char>, fit: spec_fn(Seq<char>) -> bool)
    ensures
        forall|i: int| 0 <= i < wrapped_text(t, fit).len() ==> line_fits(#[trigger] wrapped_text(t, fit)[i], fit),
{
    let q = paragraphs(t).map_values(|p: Seq<char>| wrapped(p, fit));
    assert forall|j: int, i: int| 0 <= j < q.len() && 0 <= i < q[j].len() implies line_fits(#[trigger] q[j][i], fit) by {
        law_wrapped_lines_fit(paragraphs(t)[j], fit);
    }
    lemma_flatten_fits(q, fit);
}

proof fn lemma_flatten_fits(q: Seq<Seq<Seq<char>>>, fit: spec_fn(Seq<char>) -> bool)
    requires
        forall|j: int, i: int| 0 <= j < q.len() && 0 <= i < q[j].len() ==> line_fits(#[trigger] q[j][i], fit),
    ensures
        forall|i: int| 0 <= i < q.flatten().len() ==> line_fits(#[trigger] q.flatten()[i], fit),
    decreases q.len(),
{
    if q.len() > 0 {
        let r = q.drop_first();
        assert forall|j: int, i: int| 0 <= j < r.len() && 0 <= i < r[j].len() implies line_fits(#[trigger] r[j][i], fit) by {
            assert(r[j] == q[j + 1]);
        }
        lemma_flatten_fits(r, fit);
        let a = q[0];
        let b = r.flatten();
        assert(q.flatten() == a + b);
        assert forall|i: int| 0 <= i < (a + b).len() implies line_fits(#[trigger] (a + b)[i], fit) by {
            if i < a.len() {
                assert((a + b)[i] == q[0][i]);
            } else {
                assert((a + b)[i] == b[i - a.len()]);
            }
        }
    }
}

} // verus!
