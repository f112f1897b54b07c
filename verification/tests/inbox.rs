use ce_drive_serve::inbox::{poll_wait, Inbox, MAX_SEEN};

#[test]
fn a_request_is_taken_up_once() {
    let mut inbox = Inbox::new();
    assert_eq!(inbox.accept(Some(7), "ce-drive/v1"), Some(7));
    assert_eq!(inbox.accept(Some(7), "ce-drive/v1"), None);
    inbox.settle();
    assert_eq!(inbox.accept(Some(7), "ce-drive/v1"), None);
    assert_eq!(inbox.accept(Some(8), "ce-drive/v1"), Some(8));
}

#[test]
fn what_is_no_request_is_passed_over() {
    let mut inbox = Inbox::new();
    assert_eq!(inbox.accept(None, "ce-drive/v1"), None);
    assert_eq!(inbox.accept(Some(7), "ce-drive/items"), None);
    // Passed over is not dealt with.
    assert_eq!(inbox.accept(Some(7), "ce-drive/v1"), Some(7));
}

#[test]
fn too_many_tokens_are_forgotten() {
    let mut inbox = Inbox::new();
    for t in 0..MAX_SEEN as u64 {
        assert_eq!(inbox.accept(Some(t), "ce-drive/v1"), Some(t));
    }
    inbox.settle();
    assert_eq!(inbox.accept(Some(0), "ce-drive/v1"), None);
    assert_eq!(inbox.accept(Some(9999), "ce-drive/v1"), Some(9999));
    inbox.settle();
    assert_eq!(inbox.accept(Some(0), "ce-drive/v1"), Some(0));
}

#[test]
fn polls_keep_a_distance() {
    assert_eq!(poll_wait(0), 50);
    assert_eq!(poll_wait(50), 50);
    assert_eq!(poll_wait(200), 200);
}
