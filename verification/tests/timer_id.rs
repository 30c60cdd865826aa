use glommio::timer::handle::TimerHandle;
use glommio::timer::timer_id::TimerId;

#[test]
fn test_timer_id_creation() {
    let id = TimerId::new(42, 1);
    assert_eq!(id.index(), 42);
    assert_eq!(id.generation(), 1);
}

#[test]
fn test_timer_id_equality() {
    let id1 = TimerId::new(42, 1);
    let id2 = TimerId::new(42, 1);
    let id3 = TimerId::new(42, 2);
    let id4 = TimerId::new(43, 1);

    assert_eq!(id1, id2);
    assert_ne!(id1, id3);
    assert_ne!(id1, id4);
}

#[test]
fn test_timer_id_clone() {
    let id1 = TimerId::new(100, 5);
    let id2 = id1.clone();
    assert_eq!(id1, id2);
}

#[test]
fn test_handle_creation() {
    let handle = TimerHandle::new(42, 1);
    assert_eq!(handle.index(), 42);
    assert_eq!(handle.generation(), 1);
}

#[test]
fn test_handle_equality() {
    let h1 = TimerHandle::new(42, 1);
    let h2 = TimerHandle::new(42, 1);
    let h3 = TimerHandle::new(42, 2);
    let h4 = TimerHandle::new(43, 1);

    assert_eq!(h1, h2);
    assert_ne!(h1, h3);
    assert_ne!(h1, h4);
}

#[test]
fn test_handle_clone() {
    let h1 = TimerHandle::new(100, 5);
    let h2 = h1.clone();
    assert_eq!(h1, h2);
}
