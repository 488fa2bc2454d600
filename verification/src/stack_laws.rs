//! What holds of the stack across its operations.
use vstd::prelude::*;
use crate::config::MAX_VISIBLE;
use crate::stack::{
    activated, create_action, expired, expired_at, first_match, has_id, lemma_first_match,
    lemma_first_match_facts, lemma_margins_fit, lemma_refill_count, lemma_top_margin_step, margins_fit,
    reflow_actions, top_margin, without_id, ActiveNotification, PendingNotification, StackModel,
    SurfaceAction,
};

verus! {

/// Filling the stack from the queue keeps every notification and their order.
pub proof fn law_refill_keeps_order(m: StackModel, now: u64)
    ensures
        m.refill(now).0.ids() == m.ids(),
    decreases m.pending.len(),
{
    if m.active.len() < MAX_VISIBLE && m.pending.len() > 0 {
        let n = m.pending[0];
        let rest = StackModel { active: m.active.push(activated(n, now)), pending: m.pending.drop_first() };
        law_refill_keeps_order(rest, now);
        assert(rest.ids() =~= m.ids());
    }
}

/// A new notification goes to the end of the line: shown if there is room,
/// else shown after all those that arrived before it.
pub proof fn law_enqueue_appends(m: StackModel, n: PendingNotification, now: u64)
    requires
        m.wf(),
    ensures
        m.enqueue(n, now).0.ids() == m.ids().push(n.id),
{
    assert(m.enqueue(n, now).0.ids() =~= m.ids().push(n.id));
}

/// Dismissing the notification at `index` takes it out of the line and
/// leaves the others in their order; past the end, nothing changes.
pub proof fn law_dismiss_removes(m: StackModel, index: int, now: u64)
    ensures
        0 <= index < m.active.len() ==> m.dismiss(index, now).0.ids() == m.ids().remove(index),
        !(0 <= index < m.active.len()) ==> m.dismiss(index, now) == (m, Seq::<SurfaceAction>::empty()),
{
    if 0 <= index < m.active.len() {
        let removed = StackModel { active: m.active.remove(index), pending: m.pending };
        law_refill_keeps_order(removed, now);
        assert(removed.ids() =~= m.ids().remove(index));
    }
}

/// A queue in which no notification has id `id` loses nothing to `without_id`.
proof fn lemma_without_absent_id(p: Seq<PendingNotification>, id: u32)
    requires
        forall|i: int| 0 <= i < p.len() ==> (#[trigger] p[i]).id != id,
    ensures
        without_id(p, id) == p,
    decreases p.len(),
{
    if p.len() > 0 {
        let q = p.drop_last();
        assert forall|i: int| 0 <= i < q.len() implies (#[trigger] q[i]).id != id by {
            assert(q[i] == p[i]);
        }
        lemma_without_absent_id(q, id);
        assert(p.last() == p[p.len() - 1]);
        assert(q.push(p.last()) =~= p);
    }
}

/// No notification of `m` has id `id`, neither on screen nor waiting.
proof fn lemma_absent_id(m: StackModel, id: u32)
    requires
        !m.ids().contains(id),
    ensures
        forall|i: int| 0 <= i < m.active.len() ==> !has_id(id)(#[trigger] m.active[i]),
        forall|i: int| 0 <= i < m.pending.len() ==> (#[trigger] m.pending[i]).id != id,
{
    assert forall|i: int| 0 <= i < m.active.len() implies !has_id(id)(#[trigger] m.active[i]) by {
        assert(m.ids()[i] == m.active[i].id);
    }
    assert forall|i: int| 0 <= i < m.pending.len() implies (#[trigger] m.pending[i]).id != id by {
        assert(m.ids()[m.active.len() + i] == m.pending[i].id);
    }
}

/// Closing an id that no notification has changes nothing and asks for no
/// surface change.
pub proof fn law_close_absent_is_noop(m: StackModel, id: u32, now: u64)
    requires
        !m.ids().contains(id),
    ensures
        m.close(id, now) == (m, Seq::<SurfaceAction>::empty()),
{
    lemma_absent_id(m, id);
    lemma_first_match(m.active, has_id(id), m.active.len() as int);
    lemma_without_absent_id(m.pending, id);
}

/// Closing a notification right after it arrived, under an id that no other
/// notification has, gives back the line as it was.
pub proof fn law_close_undoes_enqueue(m: StackModel, n: PendingNotification, now: u64, later: u64)
    requires
        m.wf(),
        !m.ids().contains(n.id),
    ensures
        m.enqueue(n, now).0.close(n.id, later).0.ids() == m.ids(),
{
    lemma_absent_id(m, n.id);
    let m1 = m.enqueue(n, now).0;
    if m.active.len() >= MAX_VISIBLE {
        lemma_first_match(m.active, has_id(n.id), m.active.len() as int);
        assert(m1.pending.drop_last() =~= m.pending);
        lemma_without_absent_id(m.pending, n.id);
        assert(m1.close(n.id, later).0 == m);
    } else {
        let i = m.active.len() as int;
        assert forall|j: int| 0 <= j < i implies !has_id(n.id)(#[trigger] m1.active[j]) by {
            assert(m1.active[j] == m.active[j]);
        }
        assert(m1.active[i] == activated(n, now));
        lemma_first_match(m1.active, has_id(n.id), i);
        law_dismiss_removes(m1, i, later);
        assert(m1.ids().remove(i) =~= m.ids());
    }
}

/// After a sweep, no notification on screen is expired.
pub proof fn law_sweep_clears_expired(m: StackModel, now: u64)
    ensures
        forall|i: int| 0 <= i < m.sweep(now).0.active.len() ==> !expired(#[trigger] m.sweep(now).0.active[i], now),
    decreases m.active.len() + m.pending.len(),
{
    let i = first_match(m.active, expired_at(now));
    lemma_first_match_facts(m.active, expired_at(now));
    if 0 <= i < m.active.len() {
        lemma_refill_count(StackModel { active: m.active.remove(i), pending: m.pending }, now);
        let m1 = m.dismiss(i, now).0;
        law_sweep_clears_expired(m1, now);
        assert(m.sweep(now).0 == m1.sweep(now).0);
    } else {
        assert(m.sweep(now).0 == m);
        assert forall|j: int| 0 <= j < m.active.len() implies !expired(#[trigger] m.active[j], now) by {
            assert(!expired_at(now)(m.active[j]));
        }
    }
}

/// The boxes of a stack do not overlap: each one starts below the end of
/// every box above it, gap included.
pub proof fn law_boxes_do_not_overlap(a: Seq<ActiveNotification>, i: int, j: int)
    requires
        0 <= i < j <= a.len(),
        forall|k: int| 0 <= k < a.len() ==> (#[trigger] a[k]).layout.valid(),
    ensures
        top_margin(a, i) + a[i].layout.height + crate::config::GAP <= top_margin(a, j),
    decreases j - i,
{
    lemma_top_margin_step(a, i);
    if j > i + 1 {
        law_boxes_do_not_overlap(a, i + 1, j);
        assert(a[i + 1].layout.valid());
    }
}

/// A notification is drawn once: after its surface is configured and its
/// content drawn, configuring the surface again asks for no new drawing.
pub proof fn law_drawn_once(m: StackModel, index: int)
    requires
        0 <= index < m.active.len(),
    ensures
        m.configure(index).0.begin_draw(index).1,
        !m.configure(index).0.begin_draw(index).0.configure(index).1,
{
}


/// Where the surfaces are, from the top down, once `act` is carried out: a
/// created surface joins the end at its top, a destroyed one leaves, a moved
/// one gets its new top.
pub open spec fn apply_action(pos: Seq<int>, act: SurfaceAction) -> Seq<int> {
    match act {
        SurfaceAction::Create { id: _, height: _, top } => pos.push(top as int),
        SurfaceAction::Destroy { index } => if index < pos.len() {
            pos.remove(index as int)
        } else {
            pos
        },
        SurfaceAction::Move { index, top } => if index < pos.len() {
            pos.update(index as int, top as int)
        } else {
            pos
        },
    }
}

/// Where the surfaces are once the actions `acts` are carried out in order.
pub open spec fn apply_actions(pos: Seq<int>, acts: Seq<SurfaceAction>) -> Seq<int>
    decreases acts.len(),
{
    if acts.len() == 0 {
        pos
    } else {
        apply_action(apply_actions(pos, acts.drop_last()), acts.last())
    }
}

/// There is one surface per notification of `a`, and every configured one
/// is at its place in the stack.
pub open spec fn placed(a: Seq<ActiveNotification>, pos: Seq<int>) -> bool {
    &&& pos.len() == a.len()
    &&& forall|i: int| #![trigger a[i]] 0 <= i < a.len() && a[i].configured ==> pos[i] == top_margin(a, i)
}

proof fn lemma_apply_concat(p: Seq<int>, x: Seq<SurfaceAction>, y: Seq<SurfaceAction>)
    ensures
        apply_actions(p, x + y) == apply_actions(apply_actions(p, x), y),
    decreases y.len(),
{
    if y.len() == 0 {
        assert(x + y =~= x);
    } else {
        lemma_apply_concat(p, x, y.drop_last());
        assert((x + y).drop_last() =~= x + y.drop_last());
        assert((x + y).last() == y.last());
    }
}

proof fn lemma_apply_one(p: Seq<int>, a: SurfaceAction)
    ensures
        apply_actions(p, seq![a]) == apply_action(p, a),
{
    assert(seq![a].drop_last() =~= Seq::<SurfaceAction>::empty());
    assert(apply_actions(p, Seq::<SurfaceAction>::empty()) == p);
}

proof fn lemma_top_margin_push(a: Seq<ActiveNotification>, x: ActiveNotification, i: int)
    requires
        0 <= i <= a.len(),
    ensures
        top_margin(a.push(x), i) == top_margin(a, i),
{
    assert(a.push(x).take(i) =~= a.take(i));
}

/// The moves of a reflow put every configured surface of `a` at its place
/// and leave the others where they were.
proof fn lemma_reflow_moves(a: Seq<ActiveNotification>, p: Seq<int>)
    requires
        p.len() >= a.len(),
        a.len() <= MAX_VISIBLE,
        margins_fit(a, a.len() as int),
    ensures
        apply_actions(p, reflow_actions(a)).len() == p.len(),
        forall|i: int| #![trigger apply_actions(p, reflow_actions(a))[i]]
            0 <= i < p.len() ==> apply_actions(p, reflow_actions(a))[i] == if i < a.len() && a[i].configured {
                top_margin(a, i)
            } else {
                p[i]
            },
    decreases a.len(),
{
    if a.len() == 0 {
        assert(reflow_actions(a) =~= Seq::<SurfaceAction>::empty());
        assert(apply_actions(p, Seq::<SurfaceAction>::empty()) == p);
    } else {
        let n = a.len() - 1;
        let b = a.drop_last();
        assert(b.push(a[n]) =~= a);
        assert forall|k: int| 0 <= k <= b.len() implies i32::MIN <= #[trigger] top_margin(b, k) <= i32::MAX by {
            lemma_top_margin_push(b, a[n], k);
        }
        lemma_reflow_moves(b, p);
        let q1 = apply_actions(p, reflow_actions(b));
        let tail = if a[n].configured {
            seq![SurfaceAction::Move { index: n as usize, top: top_margin(a, n) as i32 }]
        } else {
            Seq::<SurfaceAction>::empty()
        };
        assert(reflow_actions(a) == reflow_actions(b) + tail);
        lemma_apply_concat(p, reflow_actions(b), tail);
        let q = apply_actions(q1, tail);
        assert(top_margin(a, n) <= i32::MAX && top_margin(a, n) >= i32::MIN);
        if a[n].configured {
            lemma_apply_one(q1, tail[0]);
            assert(tail =~= seq![tail[0]]);
            assert(q == q1.update(n, top_margin(a, n)));
        } else {
            assert(q == q1);
        }
        assert forall|i: int| 0 <= i < p.len() implies #[trigger] q[i] == if i < a.len() && a[i].configured {
            top_margin(a, i)
        } else {
            p[i]
        } by {
            if i < n {
                lemma_top_margin_push(b, a[n], i);
                assert(a[i] == b[i]);
                assert(q1[i] == (if i < b.len() && b[i].configured { top_margin(b, i) } else { p[i] }));
            } else if i > n {
                assert(q1[i] == p[i]);
            }
        }
    }
}

/// Filling the stack from the queue keeps the configured surfaces where
/// they are and creates each new one at its place.
proof fn lemma_refill_places(m: StackModel, now: u64, q: Seq<int>)
    requires
        m.layouts_valid(),
        m.active.len() <= MAX_VISIBLE,
        placed(m.active, q),
    ensures
        placed(m.refill(now).0.active, apply_actions(q, m.refill(now).1)),
        m.refill(now).0.wf(),
        m.refill(now).0.active.len() >= m.active.len(),
        forall|i: int| 0 <= i < m.active.len() ==> #[trigger] m.refill(now).0.active[i] == m.active[i],
        forall|i: int| 0 <= i < q.len() ==> #[trigger] apply_actions(q, m.refill(now).1)[i] == q[i],
        forall|i: int|
            m.active.len() <= i < m.refill(now).0.active.len() ==> #[trigger] apply_actions(q, m.refill(now).1)[i]
                == top_margin(m.refill(now).0.active, i),
    decreases m.pending.len(),
{
    if m.active.len() < MAX_VISIBLE && m.pending.len() > 0 {
        let n = m.pending[0];
        let rest = StackModel { active: m.active.push(activated(n, now)), pending: m.pending.drop_first() };
        let c = create_action(m.active, n);
        lemma_margins_fit(m.active, m.active.len() as int);
        let len = m.active.len() as int;
        let q1 = q.push(top_margin(m.active, len));
        lemma_apply_one(q, c);
        assert(apply_action(q, c) == q1);
        assert forall|i: int| #![trigger rest.active[i]] 0 <= i < rest.active.len() && rest.active[i].configured implies q1[i]
            == top_margin(rest.active, i) by {
            lemma_top_margin_push(m.active, activated(n, now), i);
            if i < m.active.len() {
                assert(rest.active[i] == m.active[i]);
            }
        }
        assert forall|i: int| 0 <= i < rest.active.len() implies (#[trigger] rest.active[i]).layout.valid() by {
            if i < m.active.len() {
                assert(rest.active[i] == m.active[i]);
            }
        }
        assert forall|i: int| 0 <= i < rest.pending.len() implies (#[trigger] rest.pending[i]).layout.valid() by {
            assert(rest.pending[i] == m.pending[i + 1]);
        }
        lemma_refill_places(rest, now, q1);
        lemma_apply_concat(q, seq![c], rest.refill(now).1);
        assert(m.refill(now) == (rest.refill(now).0, seq![c] + rest.refill(now).1));
        let fin = rest.refill(now).0.active;
        let big = apply_actions(q1, rest.refill(now).1);
        assert forall|i: int| 0 <= i < m.active.len() implies #[trigger] fin[i] == m.active[i] by {
            assert(fin[i] == rest.active[i]);
            assert(rest.active[i] == m.active[i]);
        }
        assert forall|i: int| 0 <= i < q.len() implies #[trigger] big[i] == q[i] by {
            assert(big[i] == q1[i]);
        }
        assert forall|i: int| len <= i < fin.len() implies #[trigger] big[i] == top_margin(fin, i) by {
            if i == len {
                assert(big[i] == q1[i]);
                assert(fin.take(len) =~= m.active.take(len));
                assert(m.active.take(len) =~= m.active);
            }
        }
    }
}

/// Dismissing a notification destroys its surface, moves every configured
/// surface left to its new place in the stack, and creates those shown in
/// the room at their places: afterwards there is one surface per
/// notification and every configured one is where the stack says, wherever
/// the surfaces were before.
pub proof fn law_dismiss_places_surfaces(m: StackModel, index: int, now: u64, pos: Seq<int>)
    requires
        m.wf(),
        0 <= index < m.active.len(),
        pos.len() == m.active.len(),
    ensures
        placed(m.dismiss(index, now).0.active, apply_actions(pos, m.dismiss(index, now).1)),
        forall|i: int|
            m.active.len() - 1 <= i < m.dismiss(index, now).0.active.len() ==> #[trigger] apply_actions(
                pos,
                m.dismiss(index, now).1,
            )[i] == top_margin(m.dismiss(index, now).0.active, i),
        m.dismiss(index, now).0.wf(),
{
    let removed = StackModel { active: m.active.remove(index), pending: m.pending };
    assert forall|i: int| 0 <= i < removed.active.len() implies (#[trigger] removed.active[i]).layout.valid() by {
        if i < index {
            assert(removed.active[i] == m.active[i]);
        } else {
            assert(removed.active[i] == m.active[i + 1]);
        }
    }
    let d = seq![SurfaceAction::Destroy { index: index as usize }];
    let r = reflow_actions(removed.active);
    let f = removed.refill(now).1;
    lemma_apply_concat(pos, d + r, f);
    lemma_apply_concat(pos, d, r);
    lemma_apply_one(pos, d[0]);
    assert(d =~= seq![d[0]]);
    let p1 = pos.remove(index);
    assert(apply_actions(pos, d) == p1);
    lemma_margins_fit(removed.active, removed.active.len() as int);
    lemma_reflow_moves(removed.active, p1);
    lemma_refill_places(removed, now, apply_actions(p1, r));
}

/// A sweep leaves one surface per notification, with every configured one
/// at its place in the stack, when they were so before.
pub proof fn law_sweep_places_surfaces(m: StackModel, now: u64, pos: Seq<int>)
    requires
        m.wf(),
        placed(m.active, pos),
    ensures
        placed(m.sweep(now).0.active, apply_actions(pos, m.sweep(now).1)),
        m.sweep(now).0.wf(),
    decreases m.active.len() + m.pending.len(),
{
    let i = first_match(m.active, expired_at(now));
    lemma_first_match_facts(m.active, expired_at(now));
    if 0 <= i < m.active.len() {
        lemma_refill_count(StackModel { active: m.active.remove(i), pending: m.pending }, now);
        let (m1, a1) = m.dismiss(i, now);
        law_dismiss_places_surfaces(m, i, now, pos);
        let p1 = apply_actions(pos, a1);
        law_sweep_places_surfaces(m1, now, p1);
        lemma_apply_concat(pos, a1, m1.sweep(now).1);
        assert(m.sweep(now) == (m1.sweep(now).0, a1 + m1.sweep(now).1));
    } else {
        assert(m.sweep(now) == (m, Seq::<SurfaceAction>::empty()));
    }
}

/// Closing a notification leaves one surface per notification, with every
/// configured one at its place in the stack, when they were so before.
pub proof fn law_close_places_surfaces(m: StackModel, id: u32, now: u64, pos: Seq<int>)
    requires
        m.wf(),
        placed(m.active, pos),
    ensures
        placed(m.close(id, now).0.active, apply_actions(pos, m.close(id, now).1)),
{
    let i = first_match(m.active, has_id(id));
    lemma_first_match_facts(m.active, has_id(id));
    if i >= 0 {
        law_dismiss_places_surfaces(m, i, now, pos);
    }
}

/// Closing an id on screen takes its topmost notification out of the line,
/// keeping the others in order; an id only in the queue leaves the screen
/// as it is and the queue without that id.
pub proof fn law_close_removes(m: StackModel, id: u32, now: u64)
    ensures
        first_match(m.active, has_id(id)) >= 0 ==> {
            let i = first_match(m.active, has_id(id));
            &&& m.active[i].id == id
            &&& forall|j: int| 0 <= j < i ==> (#[trigger] m.active[j]).id != id
            &&& m.close(id, now).0.ids() == m.ids().remove(i)
        },
        first_match(m.active, has_id(id)) < 0 ==> {
            &&& m.close(id, now).0.active == m.active
            &&& m.close(id, now).0.pending == without_id(m.pending, id)
            &&& m.close(id, now).1.len() == 0
        },
{
    let i = first_match(m.active, has_id(id));
    lemma_first_match_facts(m.active, has_id(id));
    if i >= 0 {
        law_dismiss_removes(m, i, now);
        assert forall|j: int| 0 <= j < i implies (#[trigger] m.active[j]).id != id by {
            assert(!has_id(id)(m.active[j]));
        }
    }
}

/// A new notification leaves one surface per notification, with every
/// configured one at its place in the stack, when they were so before.
pub proof fn law_enqueue_places_surfaces(m: StackModel, n: PendingNotification, now: u64, pos: Seq<int>)
    requires
        m.wf(),
        n.layout.valid(),
        placed(m.active, pos),
    ensures
        placed(m.enqueue(n, now).0.active, apply_actions(pos, m.enqueue(n, now).1)),
        forall|i: int|
            m.active.len() <= i < m.enqueue(n, now).0.active.len() ==> #[trigger] apply_actions(
                pos,
                m.enqueue(n, now).1,
            )[i] == top_margin(m.enqueue(n, now).0.active, i),
{
    if m.active.len() < MAX_VISIBLE {
        let c = create_action(m.active, n);
        lemma_margins_fit(m.active, m.active.len() as int);
        lemma_apply_one(pos, c);
        let a2 = m.active.push(activated(n, now));
        assert forall|i: int| #![trigger a2[i]] 0 <= i < a2.len() && a2[i].configured implies apply_action(pos, c)[i]
            == top_margin(a2, i) by {
            lemma_top_margin_push(m.active, activated(n, now), i);
            if i < m.active.len() {
                assert(a2[i] == m.active[i]);
            }
        }
        lemma_top_margin_push(m.active, activated(n, now), m.active.len() as int);
    } else {
        assert(apply_actions(pos, Seq::<SurfaceAction>::empty()) == pos);
    }
}

} // verus!
