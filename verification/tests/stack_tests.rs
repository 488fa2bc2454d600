use mako_rs::config::{GAP, MAX_VISIBLE, MIN_HEIGHT, TOP_MARGIN};
use mako_rs::layout::NotificationLayout;
use mako_rs::stack::{
    top_margin_for_index, ActiveNotification, DaemonEvent, NotificationStack, PendingNotification,
    SurfaceAction,
};

fn layout(height: i32) -> NotificationLayout {
    NotificationLayout::new(vec!["summary".to_string()], Vec::new(), height)
}

fn notif(id: u32, timeout_ms: Option<u32>, height: i32) -> PendingNotification {
    PendingNotification { id, timeout_ms, layout: layout(height) }
}

fn ids(stack: &NotificationStack) -> Vec<u32> {
    stack.active().iter().map(|n| n.id).collect()
}

fn active(id: u32, height: i32) -> ActiveNotification {
    ActiveNotification { id, layout: layout(height), expire_at: None, configured: true, should_draw: true }
}

#[test]
fn margins_stack_boxes_with_gaps() {
    let a = vec![active(1, 100), active(2, 200)];
    assert_eq!(top_margin_for_index(&a, 0), TOP_MARGIN);
    assert_eq!(top_margin_for_index(&a, 1), TOP_MARGIN + 100 + GAP);
    assert_eq!(top_margin_for_index(&a, 2), TOP_MARGIN + 300 + 2 * GAP);
    assert_eq!(top_margin_for_index(&a, 9), TOP_MARGIN + 300 + 2 * GAP);
}

#[test]
fn boxes_do_not_overlap() {
    let a = vec![active(1, 100), active(2, 250), active(3, 80)];
    for i in 0..a.len() {
        for j in i + 1..=a.len() {
            assert!(top_margin_for_index(&a, i) + a[i].layout.height + GAP <= top_margin_for_index(&a, j));
        }
    }
}

#[test]
fn first_notifications_are_shown_then_queued() {
    let mut stack = NotificationStack::new();
    let mut actions = Vec::new();
    for id in 1..=6 {
        stack.enqueue_notification(notif(id, None, 100), 0, &mut actions);
    }
    assert_eq!(ids(&stack), vec![1, 2, 3, 4, 5]);
    assert_eq!(stack.pending_len(), 1);
    assert_eq!(actions.len(), MAX_VISIBLE);
    for (k, a) in actions.iter().enumerate() {
        let k = k as i32;
        assert_eq!(
            *a,
            SurfaceAction::Create { id: (k + 1) as u32, height: 100, top: TOP_MARGIN + k * (100 + GAP) }
        );
    }
}

#[test]
fn spawned_notification_starts_unconfigured_with_deadline() {
    let mut stack = NotificationStack::new();
    let mut actions = Vec::new();
    stack.enqueue_notification(notif(7, Some(5000), 10), 1000, &mut actions);
    let n = &stack.active()[0];
    assert_eq!(n.id, 7);
    assert_eq!(n.expire_at, Some(6000));
    assert!(!n.configured);
    assert!(n.should_draw);
    assert_eq!(n.layout.height, MIN_HEIGHT);
}

#[test]
fn dismiss_moves_configured_and_fills_from_queue() {
    let mut stack = NotificationStack::new();
    let mut actions = Vec::new();
    for id in 1..=6 {
        stack.enqueue_notification(notif(id, None, 100), 0, &mut actions);
    }
    for i in 0..MAX_VISIBLE {
        assert!(stack.configure(i));
    }
    actions.clear();
    stack.dismiss(1, 0, &mut actions);
    assert_eq!(ids(&stack), vec![1, 3, 4, 5, 6]);
    assert_eq!(stack.pending_len(), 0);
    assert_eq!(
        actions,
        vec![
            SurfaceAction::Destroy { index: 1 },
            SurfaceAction::Move { index: 0, top: TOP_MARGIN },
            SurfaceAction::Move { index: 1, top: TOP_MARGIN + 105 },
            SurfaceAction::Move { index: 2, top: TOP_MARGIN + 210 },
            SurfaceAction::Move { index: 3, top: TOP_MARGIN + 315 },
            SurfaceAction::Create { id: 6, height: 100, top: TOP_MARGIN + 420 },
        ]
    );
}

#[test]
fn dismiss_past_the_end_does_nothing() {
    let mut stack = NotificationStack::new();
    let mut actions = Vec::new();
    stack.enqueue_notification(notif(1, None, 100), 0, &mut actions);
    actions.clear();
    stack.dismiss(3, 0, &mut actions);
    assert_eq!(ids(&stack), vec![1]);
    assert!(actions.is_empty());
}

#[test]
fn close_on_screen_dismisses_it() {
    let mut stack = NotificationStack::new();
    let mut actions = Vec::new();
    for id in 1..=3 {
        stack.enqueue_notification(notif(id, None, 100), 0, &mut actions);
    }
    actions.clear();
    stack.close_notification_by_id(2, 0, &mut actions);
    assert_eq!(ids(&stack), vec![1, 3]);
    // the surfaces are not configured yet: nothing moves
    assert_eq!(actions, vec![SurfaceAction::Destroy { index: 1 }]);
}

#[test]
fn close_in_queue_drops_it() {
    let mut stack = NotificationStack::new();
    let mut actions = Vec::new();
    for id in 1..=7 {
        stack.enqueue_notification(notif(id, None, 100), 0, &mut actions);
    }
    actions.clear();
    stack.close_notification_by_id(6, 0, &mut actions);
    assert_eq!(stack.pending_len(), 1);
    assert!(actions.is_empty());
    stack.dismiss(0, 0, &mut actions);
    assert_eq!(ids(&stack), vec![2, 3, 4, 5, 7]);
}

#[test]
fn close_of_unknown_id_changes_nothing() {
    let mut stack = NotificationStack::new();
    let mut actions = Vec::new();
    stack.enqueue_notification(notif(1, None, 100), 0, &mut actions);
    actions.clear();
    stack.close_notification_by_id(42, 0, &mut actions);
    assert_eq!(ids(&stack), vec![1]);
    assert!(actions.is_empty());
}

#[test]
fn enqueue_then_close_restores_the_stack() {
    let mut stack = NotificationStack::new();
    let mut actions = Vec::new();
    for id in 1..=5 {
        stack.enqueue_notification(notif(id, None, 100), 0, &mut actions);
    }
    stack.enqueue_notification(notif(9, None, 100), 0, &mut actions);
    stack.close_notification_by_id(9, 0, &mut actions);
    assert_eq!(ids(&stack), vec![1, 2, 3, 4, 5]);
    assert_eq!(stack.pending_len(), 0);
}

#[test]
fn sweep_removes_expired_and_shows_waiting() {
    let mut stack = NotificationStack::new();
    let mut actions = Vec::new();
    stack.enqueue_notification(notif(1, Some(100), 100), 0, &mut actions);
    stack.enqueue_notification(notif(2, None, 100), 0, &mut actions);
    stack.enqueue_notification(notif(3, Some(300), 100), 0, &mut actions);
    stack.enqueue_notification(notif(4, Some(50), 100), 0, &mut actions);
    stack.enqueue_notification(notif(5, None, 100), 0, &mut actions);
    stack.enqueue_notification(notif(6, Some(10), 100), 0, &mut actions);
    actions.clear();
    stack.sweep_expired(200, &mut actions);
    // 1 and 4 expired; 6 is shown at 200 and expires at 210
    assert_eq!(ids(&stack), vec![2, 3, 5, 6]);
    assert_eq!(stack.active()[3].expire_at, Some(210));
    for n in stack.active() {
        assert!(n.expire_at.map_or(true, |t| t > 200));
    }
    stack.sweep_expired(210, &mut actions);
    assert_eq!(ids(&stack), vec![2, 3, 5]);
}

#[test]
fn configure_and_draw_once() {
    let mut stack = NotificationStack::new();
    let mut actions = Vec::new();
    stack.enqueue_notification(notif(1, None, 100), 0, &mut actions);
    assert!(!stack.begin_draw(0));
    assert!(stack.configure(0));
    assert!(stack.begin_draw(0));
    assert!(!stack.active()[0].should_draw);
    assert!(!stack.configure(0));
    assert!(!stack.configure(5));
    assert!(!stack.begin_draw(5));
}

#[test]
fn events_show_and_close() {
    let mut stack = NotificationStack::new();
    let mut actions = Vec::new();
    stack.handle_event(DaemonEvent::Show(notif(3, None, 100)), 0, &mut actions);
    assert_eq!(ids(&stack), vec![3]);
    stack.handle_event(DaemonEvent::Close(3), 0, &mut actions);
    assert!(ids(&stack).is_empty());
}
