//! The stack of notifications on screen and the queue of those waiting for
//! room. Every operation updates the state and lists, in order, what has to
//! happen to the on-screen surfaces; the caller carries those actions out.
use vstd::prelude::*;
use std::collections::VecDeque;
use crate::config::{GAP, MAX_BUFFER_HEIGHT, MAX_VISIBLE, TOP_MARGIN};
use crate::layout::NotificationLayout;

verus! {

/// The latest clock reading, in milliseconds, at which a deadline of any
/// `u32` lifetime can still be computed without overflow.
pub const NOW_LIMIT: u64 = 0xFFFF_FFFF_0000_0000;

/// A notification received but not shown yet.
pub struct PendingNotification {
    pub id: u32,
    /// Lifetime once shown, in milliseconds; `None`: until closed.
    pub timeout_ms: Option<u32>,
    pub layout: NotificationLayout,
}

/// A notification on screen; the `i`-th of the stack owns the `i`-th surface.
pub struct ActiveNotification {
    pub id: u32,
    pub layout: NotificationLayout,
    /// Clock reading, in milliseconds, from which it counts as expired.
    pub expire_at: Option<u64>,
    /// Whether the compositor has configured its surface.
    pub configured: bool,
    /// Whether its content still has to be drawn.
    pub should_draw: bool,
}

/// What has to happen to the surfaces, one step at a time.
#[derive(Debug, PartialEq, Eq, Structural)]
pub enum SurfaceAction {
    /// Create a surface of `height` pixels at the end of the stack, `top`
    /// pixels from the top of the screen.
    Create { id: u32, height: i32, top: i32 },
    /// Destroy the surface at `index`; each surface after it takes the index
    /// before its own.
    Destroy { index: usize },
    /// Move the surface at `index` to `top` pixels from the top of the screen.
    Move { index: usize, top: i32 },
}

/// A request that reaches the stack from the notification server.
pub enum DaemonEvent {
    /// A new notification to show.
    Show(PendingNotification),
    /// A client closes the notification with this id.
    Close(u32),
}

/// The sum of the heights of the boxes in `a`, each with the gap below it.
pub open spec fn stack_height(a: Seq<ActiveNotification>) -> int
    decreases a.len(),
{
    if a.len() == 0 {
        0
    } else {
        stack_height(a.drop_last()) + a.last().layout.height + GAP
    }
}

/// The distance from the top of the screen at which the box number `index`
/// of the stack `a` starts: the top margin plus the boxes above it (all of
/// them when `index` is past the end).
pub open spec fn top_margin(a: Seq<ActiveNotification>, index: int) -> int {
    TOP_MARGIN + stack_height(a.take(if index < a.len() { index } else { a.len() as int }))
}

/// Every margin up to `index` fits in an `i32`.
pub open spec fn margins_fit(a: Seq<ActiveNotification>, index: int) -> bool {
    forall|k: int| 0 <= k <= index ==> i32::MIN <= #[trigger] top_margin(a, k) <= i32::MAX
}

/// Going one box down adds that box's height and the gap.
pub proof fn lemma_top_margin_step(a: Seq<ActiveNotification>, i: int)
    requires
        0 <= i < a.len(),
    ensures
        top_margin(a, i + 1) == top_margin(a, i) + a[i].layout.height + GAP,
{
    assert(a.take(i + 1).drop_last() =~= a.take(i));
}

/// With valid layouts, a stack is between zero and its length times the
/// tallest box (with its gap) high.
proof fn lemma_stack_height_bounds(a: Seq<ActiveNotification>)
    requires
        forall|j: int| 0 <= j < a.len() ==> (#[trigger] a[j]).layout.valid(),
    ensures
        0 <= stack_height(a) <= a.len() * (MAX_BUFFER_HEIGHT + GAP),
    decreases a.len(),
{
    if a.len() > 0 {
        let b = a.drop_last();
        assert forall|j: int| 0 <= j < b.len() implies (#[trigger] b[j]).layout.valid() by {
            assert(b[j] == a[j]);
        }
        lemma_stack_height_bounds(b);
        assert(a.last() == a[a.len() - 1]);
    }
}

/// A stack of at most `MAX_VISIBLE` valid boxes has all its margins in range.
pub proof fn lemma_margins_fit(a: Seq<ActiveNotification>, index: int)
    requires
        a.len() <= MAX_VISIBLE,
        forall|j: int| 0 <= j < a.len() ==> (#[trigger] a[j]).layout.valid(),
    ensures
        margins_fit(a, index),
{
    assert forall|k: int| 0 <= k <= index implies i32::MIN <= #[trigger] top_margin(a, k)
        <= i32::MAX by {
        let n = if k < a.len() { k } else { a.len() as int };
        let t = a.take(n);
        assert forall|j: int| 0 <= j < t.len() implies (#[trigger] t[j]).layout.valid() by {
            assert(t[j] == a[j]);
        }
        lemma_stack_height_bounds(t);
        assert(t.len() * (MAX_BUFFER_HEIGHT + GAP) <= 5 * (MAX_BUFFER_HEIGHT + GAP)) by (nonlinear_arith)
            requires
                t.len() <= 5,
        ;
    }
}

/// The distance from the top of the screen of the box number `index` of
/// `active`.
pub fn top_margin_for_index(active: &[ActiveNotification], index: usize) -> (r: i32)
    requires
        margins_fit(active@, index as int),
    ensures
        r == top_margin(active@, index as int),
{
    let n = if index < active.len() {
        index
    } else {
        active.len()
    };
    let mut top: i32 = TOP_MARGIN;
    let mut i: usize = 0;
    assert(active@.take(0) =~= Seq::<ActiveNotification>::empty());
    while i < n
        invariant
            0 <= i <= n,
            n <= active@.len(),
            n == (if index < active@.len() { index as int } else { active@.len() as int }),
            margins_fit(active@, index as int),
            top == top_margin(active@, i as int),
        decreases n - i,
    {
        proof {
            lemma_top_margin_step(active@, i as int);
            assert(top_margin(active@, (i + 1) as int) <= i32::MAX);
        }
        let next: i64 = top as i64 + active[i].layout.height as i64 + GAP as i64;
        top = next as i32;
        i = i + 1;
    }
    top
}

/// The state of the daemon's stack, as a value.
pub struct StackModel {
    /// The notifications on screen, from the top down.
    pub active: Seq<ActiveNotification>,
    /// The notifications waiting for room, oldest first.
    pub pending: Seq<PendingNotification>,
}

/// Whether `now` is a clock reading from which every lifetime can be added.
pub open spec fn now_ok(now: u64) -> bool {
    now <= NOW_LIMIT
}

/// The deadline of a notification shown at `now`.
pub open spec fn expiry(timeout_ms: Option<u32>, now: u64) -> Option<u64> {
    match timeout_ms {
        Some(t) => Some((now + t) as u64),
        None => None,
    }
}

/// Whether a notification on screen has reached its deadline at `now`.
pub open spec fn expired(n: ActiveNotification, now: u64) -> bool {
    match n.expire_at {
        Some(t) => t <= now,
        None => false,
    }
}

/// A pending notification as it is once shown at `now`: not configured yet,
/// still to be drawn.
pub open spec fn activated(n: PendingNotification, now: u64) -> ActiveNotification {
    ActiveNotification {
        id: n.id,
        layout: n.layout,
        expire_at: expiry(n.timeout_ms, now),
        configured: false,
        should_draw: true,
    }
}

/// The surface that a notification gets when it joins the end of `a`.
pub open spec fn create_action(a: Seq<ActiveNotification>, n: PendingNotification) -> SurfaceAction {
    SurfaceAction::Create { id: n.id, height: n.layout.height, top: top_margin(a, a.len() as int) as i32 }
}

/// The moves that put every configured surface of `a` at its place in the
/// stack, from the top down.
pub open spec fn reflow_actions(a: Seq<ActiveNotification>) -> Seq<SurfaceAction>
    decreases a.len(),
{
    if a.len() == 0 {
        Seq::empty()
    } else {
        let i = a.len() - 1;
        reflow_actions(a.drop_last()) + if a[i].configured {
            seq![SurfaceAction::Move { index: i as usize, top: top_margin(a, i) as i32 }]
        } else {
            Seq::<SurfaceAction>::empty()
        }
    }
}

/// The first index of `a` whose notification satisfies `p`, or -1.
pub open spec fn first_match(a: Seq<ActiveNotification>, p: spec_fn(ActiveNotification) -> bool) -> int
    decreases a.len(),
{
    if a.len() == 0 {
        -1
    } else if p(a[0]) {
        0
    } else {
        let r = first_match(a.drop_first(), p);
        if r < 0 {
            -1
        } else {
            r + 1
        }
    }
}

/// The notifications with id `id`.
pub open spec fn has_id(id: u32) -> spec_fn(ActiveNotification) -> bool {
    |n: ActiveNotification| n.id == id
}

/// The notifications expired at `now`.
pub open spec fn expired_at(now: u64) -> spec_fn(ActiveNotification) -> bool {
    |n: ActiveNotification| expired(n, now)
}

/// The first match of `p` in `a` is at `i` when nothing before `i` matches
/// and `a[i]` does; there is none when nothing matches.
pub proof fn lemma_first_match(a: Seq<ActiveNotification>, p: spec_fn(ActiveNotification) -> bool, i: int)
    requires
        0 <= i <= a.len(),
        forall|j: int| 0 <= j < i ==> !p(#[trigger] a[j]),
        i < a.len() ==> p(a[i]),
    ensures
        first_match(a, p) == (if i < a.len() { i } else { -1 }),
    decreases a.len(),
{
    if a.len() > 0 && i > 0 {
        let b = a.drop_first();
        assert forall|j: int| 0 <= j < i - 1 implies !p(#[trigger] b[j]) by {
            assert(b[j] == a[j + 1]);
        }
        if i < a.len() {
            assert(b[i - 1] == a[i]);
        }
        assert(!p(a[0]));
        lemma_first_match(b, p, i - 1);
    }
}

/// A first match lies in `a` and matches, and nothing before it does; when
/// there is none, nothing in `a` matches.
pub proof fn lemma_first_match_facts(a: Seq<ActiveNotification>, p: spec_fn(ActiveNotification) -> bool)
    ensures
        -1 <= first_match(a, p) < a.len(),
        first_match(a, p) >= 0 ==> p(a[first_match(a, p)]),
        forall|j: int| 0 <= j < a.len() && (first_match(a, p) < 0 || j < first_match(a, p)) ==> !p(
            #[trigger] a[j],
        ),
    decreases a.len(),
{
    if a.len() > 0 && !p(a[0]) {
        let b = a.drop_first();
        lemma_first_match_facts(b, p);
        assert forall|j: int| 0 <= j < a.len() && (first_match(a, p) < 0 || j < first_match(a, p)) implies !p(
            #[trigger] a[j],
        ) by {
            if j > 0 {
                assert(a[j] == b[j - 1]);
            }
        }
        if first_match(a, p) >= 0 {
            assert(a[first_match(a, p)] == b[first_match(b, p)]);
        }
    }
}

/// The queue `p` without the notifications whose id is `id`.
pub open spec fn without_id(p: Seq<PendingNotification>, id: u32) -> Seq<PendingNotification>
    decreases p.len(),
{
    if p.len() == 0 {
        p
    } else {
        let r = without_id(p.drop_last(), id);
        if p.last().id == id {
            r
        } else {
            r.push(p.last())
        }
    }
}

impl StackModel {
    /// Every layout of the stack and of the queue has a valid height.
    pub open spec fn layouts_valid(self) -> bool {
        &&& forall|i: int| 0 <= i < self.active.len() ==> (#[trigger] self.active[i]).layout.valid()
        &&& forall|i: int| 0 <= i < self.pending.len() ==> (#[trigger] self.pending[i]).layout.valid()
    }

    /// The invariant of the daemon: at most `MAX_VISIBLE` notifications on
    /// screen, and none waits while there is room.
    pub open spec fn wf(self) -> bool {
        &&& self.layouts_valid()
        &&& self.active.len() <= MAX_VISIBLE
        &&& self.pending.len() > 0 ==> self.active.len() == MAX_VISIBLE
    }

    /// The ids of all notifications, those on screen from the top down, then
    /// those waiting, oldest first.
    pub open spec fn ids(self) -> Seq<u32> {
        self.active.map_values(|n: ActiveNotification| n.id) + self.pending.map_values(
            |n: PendingNotification| n.id,
        )
    }

    /// Shows `n` at the end of the stack.
    pub open spec fn spawn(self, n: PendingNotification, now: u64) -> (StackModel, Seq<SurfaceAction>) {
        (
            StackModel { active: self.active.push(activated(n, now)), pending: self.pending },
            seq![create_action(self.active, n)],
        )
    }

    /// Shows `n` if there is room, else queues it.
    pub open spec fn enqueue(self, n: PendingNotification, now: u64) -> (StackModel, Seq<SurfaceAction>) {
        if self.active.len() >= MAX_VISIBLE {
            (StackModel { active: self.active, pending: self.pending.push(n) }, Seq::empty())
        } else {
            self.spawn(n, now)
        }
    }

    /// Shows the oldest waiting notifications while there is room.
    pub open spec fn refill(self, now: u64) -> (StackModel, Seq<SurfaceAction>)
        decreases self.pending.len(),
    {
        if self.active.len() < MAX_VISIBLE && self.pending.len() > 0 {
            let n = self.pending[0];
            let rest = StackModel {
                active: self.active.push(activated(n, now)),
                pending: self.pending.drop_first(),
            };
            let (m, acts) = rest.refill(now);
            (m, seq![create_action(self.active, n)] + acts)
        } else {
            (self, Seq::empty())
        }
    }

    /// Removes the notification at `index` from the screen, moves the
    /// configured ones to their new places, and fills the room it left.
    pub open spec fn dismiss(self, index: int, now: u64) -> (StackModel, Seq<SurfaceAction>) {
        if index < 0 || index >= self.active.len() {
            (self, Seq::empty())
        } else {
            let removed = StackModel { active: self.active.remove(index), pending: self.pending };
            let (m, acts) = removed.refill(now);
            (m, seq![SurfaceAction::Destroy { index: index as usize }] + reflow_actions(removed.active) + acts)
        }
    }

    /// Closes the notification `id`: the first one on screen with that id, or
    /// else every waiting one with that id.
    pub open spec fn close(self, id: u32, now: u64) -> (StackModel, Seq<SurfaceAction>) {
        let i = first_match(self.active, has_id(id));
        if i >= 0 {
            self.dismiss(i, now)
        } else {
            (StackModel { active: self.active, pending: without_id(self.pending, id) }, Seq::empty())
        }
    }

    /// Dismisses the topmost expired notification until none on screen is
    /// expired at `now`.
    pub open spec fn sweep(self, now: u64) -> (StackModel, Seq<SurfaceAction>)
        decreases self.active.len() + self.pending.len(),
    {
        let i = first_match(self.active, expired_at(now));
        if 0 <= i < self.active.len() {
            proof {
                lemma_refill_count(StackModel { active: self.active.remove(i), pending: self.pending }, now);
            }
            let (m1, a1) = self.dismiss(i, now);
            let (m2, a2) = m1.sweep(now);
            (m2, a1 + a2)
        } else {
            (self, Seq::empty())
        }
    }

    /// Handles a request of the server.
    pub open spec fn handle(self, event: DaemonEvent, now: u64) -> (StackModel, Seq<SurfaceAction>) {
        match event {
            DaemonEvent::Show(n) => self.enqueue(n, now),
            DaemonEvent::Close(id) => self.close(id, now),
        }
    }

    /// Marks the surface at `index` as configured; says whether it is due to
    /// be drawn.
    pub open spec fn configure(self, index: int) -> (StackModel, bool) {
        if 0 <= index < self.active.len() {
            (
                StackModel {
                    active: self.active.update(index, ActiveNotification { configured: true, ..self.active[index] }),
                    pending: self.pending,
                },
                self.active[index].should_draw,
            )
        } else {
            (self, false)
        }
    }

    /// Takes the notification at `index` as drawn, if it can be drawn.
    pub open spec fn begin_draw(self, index: int) -> (StackModel, bool) {
        if 0 <= index < self.active.len() && self.active[index].configured {
            (
                StackModel {
                    active: self.active.update(index, ActiveNotification { should_draw: false, ..self.active[index] }),
                    pending: self.pending,
                },
                true,
            )
        } else {
            (self, false)
        }
    }
}

/// The stack and queue of a running daemon.
pub struct NotificationStack {
    active: Vec<ActiveNotification>,
    pending: VecDeque<PendingNotification>,
}

impl View for NotificationStack {
    type V = StackModel;

    closed spec fn view(&self) -> StackModel {
        StackModel { active: self.active@, pending: self.pending@ }
    }
}

impl NotificationStack {
    /// An empty screen and an empty queue.
    pub fn new() -> (s: Self)
        ensures
            s@.active.len() == 0,
            s@.pending.len() == 0,
            s@.wf(),
    {
        NotificationStack { active: Vec::new(), pending: VecDeque::new() }
    }

    /// The notifications on screen, from the top down.
    pub fn active(&self) -> (r: &[ActiveNotification])
        ensures
            r@ == self@.active,
    {
        self.active.as_slice()
    }

    /// How many notifications wait for room.
    pub fn pending_len(&self) -> (r: usize)
        ensures
            r == self@.pending.len(),
    {
        self.pending.len()
    }

    /// Shows `notif` at the end of the stack.
    fn spawn_notification(&mut self, notif: PendingNotification, now: u64, actions: &mut Vec<SurfaceAction>)
        requires
            old(self)@.layouts_valid(),
            old(self)@.active.len() < MAX_VISIBLE,
            notif.layout.valid(),
            now_ok(now),
        ensures
            final(self)@ == old(self)@.spawn(notif, now).0,
            final(actions)@ == old(actions)@ + old(self)@.spawn(notif, now).1,
            final(self)@.layouts_valid(),
    {
        proof {
            lemma_margins_fit(self.active@, self.active@.len() as int);
        }
        let top = top_margin_for_index(self.active.as_slice(), self.active.len());
        let expire_at = match notif.timeout_ms {
            Some(t) => Some(now + t as u64),
            None => None,
        };
        actions.push(SurfaceAction::Create { id: notif.id, height: notif.layout.height, top });
        let ghost n = notif;
        self.active.push(
            ActiveNotification {
                id: notif.id,
                layout: notif.layout,
                expire_at,
                configured: false,
                should_draw: true,
            },
        );
        proof {
            assert(self.active@.last() == activated(n, now));
            assert(self@.active =~= old(self)@.active.push(activated(n, now)));
            assert(actions@ =~= old(actions)@ + seq![create_action(old(self)@.active, n)]);
            assert forall|i: int| 0 <= i < self@.active.len() implies (#[trigger] self@.active[i]).layout.valid() by {
                if i < old(self)@.active.len() {
                    assert(self@.active[i] == old(self)@.active[i]);
                }
            }
        }
    }

    /// Shows `notif` if fewer than `MAX_VISIBLE` notifications are on screen,
    /// else queues it behind the others.
    pub fn enqueue_notification(&mut self, notif: PendingNotification, now: u64, actions: &mut Vec<SurfaceAction>)
        requires
            old(self)@.wf(),
            notif.layout.valid(),
            now_ok(now),
        ensures
            final(self)@ == old(self)@.enqueue(notif, now).0,
            final(actions)@ == old(actions)@ + old(self)@.enqueue(notif, now).1,
            final(self)@.wf(),
    {
        if self.active.len() >= MAX_VISIBLE {
            let ghost n = notif;
            self.pending.push_back(notif);
            proof {
                assert(actions@ =~= old(actions)@ + Seq::<SurfaceAction>::empty());
                assert forall|i: int| 0 <= i < self@.pending.len() implies (#[trigger] self@.pending[i]).layout.valid() by {
                    if i < old(self)@.pending.len() {
                        assert(self@.pending[i] == old(self)@.pending[i]);
                    } else {
                        assert(self@.pending[i] == n);
                    }
                }
            }
        } else {
            self.spawn_notification(notif, now, actions);
        }
    }

    /// The moves that put every configured surface at its place in the stack.
    pub fn reflow(&self, actions: &mut Vec<SurfaceAction>)
        requires
            self@.layouts_valid(),
            self@.active.len() <= MAX_VISIBLE,
        ensures
            final(actions)@ == old(actions)@ + reflow_actions(self@.active),
    {
        let n = self.active.len();
        let ghost a = self@.active;
        proof {
            lemma_margins_fit(a, n as int);
            assert(a.take(0) =~= Seq::<ActiveNotification>::empty());
            assert(actions@ =~= old(actions)@ + reflow_actions(a.take(0)));
        }
        let mut i: usize = 0;
        while i < n
            invariant
                n == a.len(),
                a == self@.active,
                i <= n,
                margins_fit(a, n as int),
                actions@ == old(actions)@ + reflow_actions(a.take(i as int)),
            decreases n - i,
        {
            proof {
                let t = a.take(i + 1);
                assert(t.drop_last() =~= a.take(i as int));
                assert(t.take(i as int) =~= a.take(i as int));
                assert(t[i as int] == a[i as int]);
            }
            if self.active[i].configured {
                let top = top_margin_for_index(self.active.as_slice(), i);
                actions.push(SurfaceAction::Move { index: i, top });
            }
            proof {
                assert(actions@ =~= old(actions)@ + reflow_actions(a.take(i + 1)));
            }
            i = i + 1;
        }
        proof {
            assert(a.take(n as int) =~= a);
        }
    }

    /// Shows the oldest waiting notifications while there is room.
    fn refill(&mut self, now: u64, actions: &mut Vec<SurfaceAction>)
        requires
            old(self)@.layouts_valid(),
            old(self)@.active.len() <= MAX_VISIBLE,
            now_ok(now),
        ensures
            final(self)@ == old(self)@.refill(now).0,
            final(actions)@ == old(actions)@ + old(self)@.refill(now).1,
            final(self)@.wf(),
    {
        let ghost target = self@.refill(now);
        let ghost acts0 = actions@;
        proof {
            assert(actions@ + self@.refill(now).1 == acts0 + target.1);
        }
        while self.active.len() < MAX_VISIBLE && self.pending.len() > 0
            invariant
                self@.layouts_valid(),
                self@.active.len() <= MAX_VISIBLE,
                now_ok(now),
                self@.refill(now).0 == target.0,
                actions@ + self@.refill(now).1 == acts0 + target.1,
            decreases self@.pending.len(),
        {
            let ghost before = self@;
            let ghost acts_before = actions@;
            match self.pending.pop_front() {
                Some(next) => {
                    proof {
                        assert(next == before.pending[0]);
                        assert(self@.pending =~= before.pending.drop_first());
                        assert forall|i: int| 0 <= i < self@.pending.len() implies (#[trigger] self@.pending[i]).layout.valid() by {
                            assert(self@.pending[i] == before.pending[i + 1]);
                        }
                    }
                    self.spawn_notification(next, now, actions);
                    proof {
                        let rest = StackModel {
                            active: before.active.push(activated(next, now)),
                            pending: before.pending.drop_first(),
                        };
                        assert(self@ == rest);
                        assert(before.refill(now).1 == seq![create_action(before.active, next)] + rest.refill(now).1);
                        assert(actions@ + self@.refill(now).1 =~= acts_before + before.refill(now).1);
                    }
                },
                None => {},
            }
        }
        proof {
            assert(actions@ =~= acts0 + target.1);
        }
    }

    /// Removes the notification at `index` from the screen (nothing happens
    /// past the end), moves the configured ones to their new places, and
    /// shows waiting ones in the room it left.
    pub fn dismiss(&mut self, index: usize, now: u64, actions: &mut Vec<SurfaceAction>)
        requires
            old(self)@.wf(),
            now_ok(now),
        ensures
            final(self)@ == old(self)@.dismiss(index as int, now).0,
            final(actions)@ == old(actions)@ + old(self)@.dismiss(index as int, now).1,
            final(self)@.wf(),
    {
        if index >= self.active.len() {
            proof {
                assert(actions@ =~= old(actions)@ + Seq::<SurfaceAction>::empty());
            }
            return;
        }
        let ghost removed = StackModel { active: self@.active.remove(index as int), pending: self@.pending };
        let _gone = self.active.remove(index);
        actions.push(SurfaceAction::Destroy { index });
        proof {
            assert(self@ == removed);
            assert forall|i: int| 0 <= i < self@.active.len() implies (#[trigger] self@.active[i]).layout.valid() by {
                if i < index {
                    assert(self@.active[i] == old(self)@.active[i]);
                } else {
                    assert(self@.active[i] == old(self)@.active[i + 1]);
                }
            }
        }
        let ghost a1 = actions@;
        self.reflow(actions);
        let ghost a2 = actions@;
        self.refill(now, actions);
        proof {
            assert(actions@ =~= old(actions)@ + (seq![SurfaceAction::Destroy { index: index }] + reflow_actions(
                removed.active,
            ) + removed.refill(now).1));
        }
    }

    /// The place of the topmost notification on screen with id `id`.
    fn position_of_id(&self, id: u32) -> (r: Option<usize>)
        ensures
            r matches Some(i) ==> i == first_match(self@.active, has_id(id)),
            r is None ==> first_match(self@.active, has_id(id)) < 0,
    {
        let mut i: usize = 0;
        while i < self.active.len()
            invariant
                i <= self@.active.len(),
                forall|j: int| 0 <= j < i ==> !has_id(id)(#[trigger] self@.active[j]),
            decreases self@.active.len() - i,
        {
            if self.active[i].id == id {
                proof {
                    lemma_first_match(self@.active, has_id(id), i as int);
                }
                return Some(i);
            }
            i = i + 1;
        }
        proof {
            lemma_first_match(self@.active, has_id(id), i as int);
        }
        None
    }

    /// The place of the topmost notification on screen expired at `now`.
    fn first_expired(&self, now: u64) -> (r: Option<usize>)
        ensures
            r matches Some(i) ==> i == first_match(self@.active, expired_at(now)),
            r is None ==> first_match(self@.active, expired_at(now)) < 0,
    {
        let mut i: usize = 0;
        while i < self.active.len()
            invariant
                i <= self@.active.len(),
                forall|j: int| 0 <= j < i ==> !expired_at(now)(#[trigger] self@.active[j]),
            decreases self@.active.len() - i,
        {
            let hit = match self.active[i].expire_at {
                Some(t) => t <= now,
                None => false,
            };
            if hit {
                proof {
                    lemma_first_match(self@.active, expired_at(now), i as int);
                }
                return Some(i);
            }
            i = i + 1;
        }
        proof {
            lemma_first_match(self@.active, expired_at(now), i as int);
        }
        None
    }

    /// Closes the notification `id`: the topmost one on screen with that id
    /// is dismissed; if none is on screen, every waiting one with that id
    /// leaves the queue.
    pub fn close_notification_by_id(&mut self, id: u32, now: u64, actions: &mut Vec<SurfaceAction>)
        requires
            old(self)@.wf(),
            now_ok(now),
        ensures
            final(self)@ == old(self)@.close(id, now).0,
            final(actions)@ == old(actions)@ + old(self)@.close(id, now).1,
            final(self)@.wf(),
    {
        match self.position_of_id(id) {
            Some(index) => {
                self.dismiss(index, now, actions);
                return;
            },
            None => {},
        }
        let ghost old_pending = self@.pending;
        let total = self.pending.len();
        let mut kept: VecDeque<PendingNotification> = VecDeque::new();
        let mut k: usize = 0;
        proof {
            assert(old_pending.take(0) =~= Seq::<PendingNotification>::empty());
            assert(old_pending.skip(0) =~= old_pending);
        }
        while self.pending.len() > 0
            invariant
                k <= old_pending.len(),
                total == old_pending.len(),
                self@.pending == old_pending.skip(k as int),
                kept@ == without_id(old_pending.take(k as int), id),
                self@.active == old(self)@.active,
            decreases self@.pending.len(),
        {
            let ghost before = self@.pending;
            match self.pending.pop_front() {
                Some(n) => {
                    proof {
                        assert(n == old_pending[k as int]);
                        assert(old_pending.take(k + 1).drop_last() =~= old_pending.take(k as int));
                        assert(self@.pending =~= old_pending.skip(k + 1));
                    }
                    if n.id != id {
                        kept.push_back(n);
                    }
                    k = k + 1;
                },
                None => {},
            }
        }
        proof {
            assert(old_pending.take(k as int) =~= old_pending);
        }
        self.pending = kept;
        proof {
            assert(actions@ =~= old(actions)@ + Seq::<SurfaceAction>::empty());
            lemma_without_id_valid(old_pending, id);
        }
    }

    /// Handles a request of the server: shows or queues a new notification,
    /// or closes one.
    pub fn handle_event(&mut self, event: DaemonEvent, now: u64, actions: &mut Vec<SurfaceAction>)
        requires
            old(self)@.wf(),
            now_ok(now),
            event matches DaemonEvent::Show(n) ==> n.layout.valid(),
        ensures
            final(self)@ == old(self)@.handle(event, now).0,
            final(actions)@ == old(actions)@ + old(self)@.handle(event, now).1,
            final(self)@.wf(),
    {
        match event {
            DaemonEvent::Show(notif) => self.enqueue_notification(notif, now, actions),
            DaemonEvent::Close(id) => self.close_notification_by_id(id, now, actions),
        }
    }

    /// Dismisses the topmost expired notification until none on screen is
    /// expired at `now`.
    pub fn sweep_expired(&mut self, now: u64, actions: &mut Vec<SurfaceAction>)
        requires
            old(self)@.wf(),
            now_ok(now),
        ensures
            final(self)@ == old(self)@.sweep(now).0,
            final(actions)@ == old(actions)@ + old(self)@.sweep(now).1,
            final(self)@.wf(),
    {
        let ghost target = self@.sweep(now);
        let ghost acts0 = actions@;
        let mut next = self.first_expired(now);
        proof {
            assert(actions@ + self@.sweep(now).1 == acts0 + target.1);
        }
        while next.is_some()
            invariant
                self@.wf(),
                now_ok(now),
                self@.sweep(now).0 == target.0,
                actions@ + self@.sweep(now).1 == acts0 + target.1,
                next matches Some(i) ==> i == first_match(self@.active, expired_at(now)),
                next is None ==> first_match(self@.active, expired_at(now)) < 0,
            decreases self@.active.len() + self@.pending.len(),
        {
            let ghost before = self@;
            let ghost acts_before = actions@;
            match next {
                Some(i) => {
                    proof {
                        lemma_first_match_facts(before.active, expired_at(now));
                        lemma_refill_count(
                            StackModel { active: before.active.remove(i as int), pending: before.pending },
                            now,
                        );
                    }
                    self.dismiss(i, now, actions);
                    proof {
                        let (m1, a1) = before.dismiss(i as int, now);
                        assert(before.sweep(now) == (m1.sweep(now).0, a1 + m1.sweep(now).1));
                        assert(actions@ + self@.sweep(now).1 =~= acts_before + before.sweep(now).1);
                    }
                },
                None => {},
            }
            next = self.first_expired(now);
        }
        proof {
            assert(actions@ =~= acts0 + target.1);
        }
    }

    /// Marks the surface at `index` as configured by the compositor; the
    /// result says whether its content still has to be drawn.
    pub fn configure(&mut self, index: usize) -> (draw: bool)
        requires
            old(self)@.wf(),
        ensures
            (final(self)@, draw) == old(self)@.configure(index as int),
            final(self)@.wf(),
    {
        if index >= self.active.len() {
            return false;
        }
        self.active[index].configured = true;
        proof {
            assert(self@.active =~= old(self)@.active.update(
                index as int,
                ActiveNotification { configured: true, ..old(self)@.active[index as int] },
            ));
            assert forall|i: int| 0 <= i < self@.active.len() implies (#[trigger] self@.active[i]).layout.valid() by {
                assert(self@.active[i].layout == old(self)@.active[i].layout);
            }
        }
        self.active[index].should_draw
    }

    /// Starts drawing the notification at `index`: it can be drawn when it
    /// exists and its surface is configured, and is then no longer due.
    pub fn begin_draw(&mut self, index: usize) -> (ok: bool)
        requires
            old(self)@.wf(),
        ensures
            (final(self)@, ok) == old(self)@.begin_draw(index as int),
            final(self)@.wf(),
    {
        if index >= self.active.len() || !self.active[index].configured {
            return false;
        }
        self.active[index].should_draw = false;
        proof {
            assert(self@.active =~= old(self)@.active.update(
                index as int,
                ActiveNotification { should_draw: false, ..old(self)@.active[index as int] },
            ));
            assert forall|i: int| 0 <= i < self@.active.len() implies (#[trigger] self@.active[i]).layout.valid() by {
                assert(self@.active[i].layout == old(self)@.active[i].layout);
            }
        }
        true
    }
}

/// Dropping notifications from a queue keeps its layouts valid and makes it
/// no longer.
proof fn lemma_without_id_valid(p: Seq<PendingNotification>, id: u32)
    requires
        forall|i: int| 0 <= i < p.len() ==> (#[trigger] p[i]).layout.valid(),
    ensures
        forall|i: int| 0 <= i < without_id(p, id).len() ==> (#[trigger] without_id(p, id)[i]).layout.valid(),
        without_id(p, id).len() <= p.len(),
    decreases p.len(),
{
    if p.len() > 0 {
        let q = p.drop_last();
        assert forall|i: int| 0 <= i < q.len() implies (#[trigger] q[i]).layout.valid() by {
            assert(q[i] == p[i]);
        }
        lemma_without_id_valid(q, id);
        assert(p.last() == p[p.len() - 1]);
    }
}

/// Filling the stack moves notifications from the queue to the screen and
/// loses none.
pub proof fn lemma_refill_count(m: StackModel, now: u64)
    ensures
        m.refill(now).0.active.len() + m.refill(now).0.pending.len() == m.active.len() + m.pending.len(),
    decreases m.pending.len(),
{
    if m.active.len() < MAX_VISIBLE && m.pending.len() > 0 {
        let n = m.pending[0];
        let rest = StackModel { active: m.active.push(activated(n, now)), pending: m.pending.drop_first() };
        lemma_refill_count(rest, now);
    }
}

} // verus!
