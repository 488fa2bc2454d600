//! The measured shape of one notification: its wrapped lines and its height.
use vstd::prelude::*;
use crate::config::{MAX_BUFFER_HEIGHT, MIN_HEIGHT};
use crate::text::{append_ellipsis, can_call, ellipsized, fit_pred, is_measure, texts};

verus! {

/// The height that a box gets for a content of `raw_height` pixels (padding
/// included): never below the minimum, never above the buffer's height.
pub open spec fn clamp_height_spec(raw_height: i32) -> i32 {
    if raw_height < MIN_HEIGHT {
        MIN_HEIGHT
    } else if raw_height > MAX_BUFFER_HEIGHT {
        MAX_BUFFER_HEIGHT
    } else {
        raw_height
    }
}

/// Clamps a box height to the range the daemon draws.
pub fn clamp_height(raw_height: i32) -> (r: i32)
    ensures
        r == clamp_height_spec(raw_height),
        MIN_HEIGHT <= r <= MAX_BUFFER_HEIGHT,
{
    let h = if raw_height < MIN_HEIGHT {
        MIN_HEIGHT
    } else {
        raw_height
    };
    if h > MAX_BUFFER_HEIGHT {
        MAX_BUFFER_HEIGHT
    } else {
        h
    }
}

/// The lines of a notification as they are drawn, and the height of its box.
pub struct NotificationLayout {
    pub summary_lines: Vec<String>,
    pub body_lines: Vec<String>,
    pub height: i32,
}

impl NotificationLayout {
    /// A layout's height lies in the range that `clamp_height` gives.
    pub open spec fn valid(&self) -> bool {
        MIN_HEIGHT <= self.height <= MAX_BUFFER_HEIGHT
    }

    /// Builds the layout of lines whose box measures `raw_height` pixels before
    /// clamping.
    pub fn new(summary_lines: Vec<String>, body_lines: Vec<String>, raw_height: i32) -> (r: Self)
        ensures
            r.summary_lines == summary_lines,
            r.body_lines == body_lines,
            r.height == clamp_height_spec(raw_height),
            r.valid(),
    {
        NotificationLayout { summary_lines, body_lines, height: clamp_height(raw_height) }
    }
}


/// `ls` with its last line cut to fit with an ellipsis.
pub open spec fn ellipsize_last(ls: Seq<Seq<char>>, fit: spec_fn(Seq<char>) -> bool) -> Seq<Seq<char>> {
    if ls.len() == 0 {
        ls
    } else {
        ls.update(ls.len() - 1, ellipsized(ls.last(), fit))
    }
}

/// The summary and body lines kept in a box that has room for
/// `max_summary_lines` summary lines, or, with the summary shown whole, for
/// `max_body_lines` body lines. A summary too long is cut and the body
/// dropped; a body too long is cut; a body with no room at all is dropped,
/// and the summary then ends with an ellipsis. Each cut line ends with an
/// ellipsis.
pub open spec fn fitted(
    summary: Seq<Seq<char>>,
    body: Seq<Seq<char>>,
    max_summary_lines: int,
    max_body_lines: int,
    fit_summary: spec_fn(Seq<char>) -> bool,
    fit_body: spec_fn(Seq<char>) -> bool,
) -> (Seq<Seq<char>>, Seq<Seq<char>>) {
    if summary.len() > max_summary_lines {
        if max_summary_lines == 0 {
            (Seq::empty(), Seq::empty())
        } else {
            (ellipsize_last(summary.take(max_summary_lines), fit_summary), Seq::empty())
        }
    } else if body.len() == 0 {
        (summary, Seq::empty())
    } else if body.len() <= max_body_lines {
        (summary, body)
    } else if max_body_lines == 0 {
        (ellipsize_last(summary, fit_summary), Seq::empty())
    } else {
        (summary, ellipsize_last(body.take(max_body_lines), fit_body))
    }
}

/// A box never holds more summary or body lines than it has room for; body
/// lines are kept only with the whole summary; and when everything has room,
/// everything is kept unchanged.
pub proof fn law_fitted_respects_room(
    summary: Seq<Seq<char>>,
    body: Seq<Seq<char>>,
    max_summary_lines: int,
    max_body_lines: int,
    fit_summary: spec_fn(Seq<char>) -> bool,
    fit_body: spec_fn(Seq<char>) -> bool,
)
    requires
        max_summary_lines >= 0,
        max_body_lines >= 0,
    ensures
        ({
            let r = fitted(summary, body, max_summary_lines, max_body_lines, fit_summary, fit_body);
            &&& r.0.len() <= max_summary_lines
            &&& r.1.len() <= max_body_lines
            &&& r.1.len() > 0 ==> r.0 == summary
            &&& summary.len() <= max_summary_lines && body.len() <= max_body_lines ==> r == (summary, body)
        }),
{
    if body.len() == 0 {
        assert(body =~= Seq::<Seq<char>>::empty());
    }
}

/// Cuts the last of `lines` to fit with an ellipsis.
fn ellipsize_last_line<F: Fn(&str) -> bool>(lines: &mut Vec<String>, fits: &F)
    requires
        can_call(*fits),
    ensures
        final(lines)@.len() == old(lines)@.len(),
        forall|i: int| 0 <= i < final(lines)@.len() - 1 ==> (#[trigger] final(lines)@[i]) == old(lines)@[i],
        is_measure(*fits) ==> texts(final(lines)@) == ellipsize_last(texts(old(lines)@), fit_pred(*fits)),
{
    let n = lines.len();
    if n > 0 {
        let cut = append_ellipsis(lines[n - 1].as_str(), fits);
        lines[n - 1] = cut;
        proof {
            assert(texts(old(lines)@).last() == old(lines)@[n - 1]@);
            if is_measure(*fits) {
                assert(texts(lines@) =~= ellipsize_last(texts(old(lines)@), fit_pred(*fits)));
            }
        }
    } else {
        proof {
            assert(texts(lines@) =~= texts(old(lines)@));
        }
    }
}

/// Keeps the lines that the box has room for, as `fitted` says. The lines
/// that are not cut come back unchanged whatever the `fits` tests answer;
/// the cut ones are exactly those of `fitted` when the tests are measures.
pub fn fit_lines_to_height<F: Fn(&str) -> bool, G: Fn(&str) -> bool>(
    summary_lines: Vec<String>,
    body_lines: Vec<String>,
    max_summary_lines: usize,
    max_body_lines: usize,
    fits_summary: &F,
    fits_body: &G,
) -> (r: (Vec<String>, Vec<String>))
    requires
        can_call(*fits_summary),
        can_call(*fits_body),
    ensures
        ({
            let want = fitted(
                texts(summary_lines@),
                texts(body_lines@),
                max_summary_lines as int,
                max_body_lines as int,
                fit_pred(*fits_summary),
                fit_pred(*fits_body),
            );
            &&& r.0@.len() == want.0.len()
            &&& r.1@.len() == want.1.len()
            &&& forall|i: int| 0 <= i < r.0@.len() - 1 ==> (#[trigger] r.0@[i])@ == want.0[i]
            &&& forall|i: int| 0 <= i < r.1@.len() - 1 ==> (#[trigger] r.1@[i])@ == want.1[i]
            &&& is_measure(*fits_summary) ==> texts(r.0@) == want.0
            &&& is_measure(*fits_body) ==> texts(r.1@) == want.1
        }),
{
    let ghost s = texts(summary_lines@);
    let ghost b = texts(body_lines@);
    if summary_lines.len() > max_summary_lines {
        if max_summary_lines == 0 {
            let r = (Vec::new(), Vec::new());
            proof {
                assert(texts(r.0@) =~= Seq::<Seq<char>>::empty());
                assert(texts(r.1@) =~= Seq::<Seq<char>>::empty());
            }
            return r;
        }
        let mut kept = summary_lines;
        kept.truncate(max_summary_lines);
        proof {
            assert(texts(kept@) =~= s.take(max_summary_lines as int));
        }
        ellipsize_last_line(&mut kept, fits_summary);
        let r = (kept, Vec::new());
        proof {
            assert(texts(r.1@) =~= Seq::<Seq<char>>::empty());
        }
        return r;
    }
    if body_lines.len() == 0 {
        let r = (summary_lines, Vec::new());
        proof {
            assert(texts(r.1@) =~= Seq::<Seq<char>>::empty());
        }
        return r;
    }
    if body_lines.len() <= max_body_lines {
        return (summary_lines, body_lines);
    }
    if max_body_lines == 0 {
        let mut kept = summary_lines;
        ellipsize_last_line(&mut kept, fits_summary);
        let r = (kept, Vec::new());
        proof {
            assert(texts(r.1@) =~= Seq::<Seq<char>>::empty());
        }
        return r;
    }
    let mut kept_body = body_lines;
    kept_body.truncate(max_body_lines);
    proof {
        assert(texts(kept_body@) =~= b.take(max_body_lines as int));
    }
    ellipsize_last_line(&mut kept_body, fits_body);
    (summary_lines, kept_body)
}

} // verus!
