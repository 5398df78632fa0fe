use clipsync::clipboard::ClipboardContents;
use clipsync::sync::{Synchronizer, BROADCAST_DELAY_MS, CHECK_DELAY_MS, PASS_DELAY_MS};

fn text(s: &str) -> ClipboardContents {
    ClipboardContents::new(s.as_bytes().to_vec(), "text/plain")
}

#[test]
fn contents_new_keeps_fields() {
    let c = ClipboardContents::new(vec![1, 2, 3], "image/png");
    assert_eq!(c.contents, vec![1, 2, 3]);
    assert_eq!(c.mime_type, "image/png");
}

#[test]
fn default_contents_is_empty_plain_text() {
    let c = ClipboardContents::default();
    assert!(c.contents.is_empty());
    assert_eq!(c.mime_type, "text/plain");
    assert!(c.is_empty());
    let e = ClipboardContents::empty();
    assert_eq!(e.mime_type, "text/plain");
    assert!(e.is_empty());
}

#[test]
fn same_contents_compares_bytes_only() {
    let a = ClipboardContents::new(b"abc".to_vec(), "text/plain");
    let b = ClipboardContents::new(b"abc".to_vec(), "text/html");
    let c = ClipboardContents::new(b"abd".to_vec(), "text/plain");
    let d = ClipboardContents::new(b"ab".to_vec(), "text/plain");
    assert!(a.same_contents(&b));
    assert!(!a.same_contents(&c));
    assert!(!a.same_contents(&d));
    assert!(!a.is_empty());
}

#[test]
fn reconcile_seeds_from_the_only_filled_backend() {
    let (sync, writes) = Synchronizer::reconcile(vec![text(""), text("hello")]);
    assert_eq!(sync.baseline().contents, b"hello".to_vec());
    assert_eq!(writes, vec![0]);
    assert_eq!(sync.next_backend(), 0);
    assert_eq!(sync.backend_count(), 2);
}

#[test]
fn reconcile_prefers_first_backend() {
    let (sync, writes) = Synchronizer::reconcile(vec![text("one"), text("two")]);
    assert_eq!(sync.baseline().contents, b"one".to_vec());
    assert_eq!(writes, vec![1]);
}

#[test]
fn reconcile_keeps_mime_type_of_seed() {
    let png = ClipboardContents::new(vec![137, 80, 78, 71], "image/png");
    let (sync, writes) = Synchronizer::reconcile(vec![text(""), png, text("")]);
    assert_eq!(sync.baseline().mime_type, "image/png");
    assert_eq!(sync.baseline().contents, vec![137, 80, 78, 71]);
    assert_eq!(writes, vec![0, 2]);
}

#[test]
fn reconcile_all_empty_uses_default() {
    let (sync, writes) = Synchronizer::reconcile(vec![text(""), text("")]);
    assert!(sync.baseline().contents.is_empty());
    assert_eq!(sync.baseline().mime_type, "text/plain");
    assert!(writes.is_empty());
}

#[test]
fn reconcile_agreeing_backends_writes_nothing() {
    let (_, writes) = Synchronizer::reconcile(vec![text("same"), text("same")]);
    assert!(writes.is_empty());
}

#[test]
fn reconcile_twice_writes_nothing_the_second_time() {
    let (first, writes) = Synchronizer::reconcile(vec![text(""), text("hello"), text("other")]);
    assert_eq!(writes, vec![0, 2]);
    let seed = first.baseline().contents.clone();
    let after: Vec<ClipboardContents> = (0..3)
        .map(|_| ClipboardContents::new(seed.clone(), "text/plain"))
        .collect();
    let (second, writes) = Synchronizer::reconcile(after);
    assert!(writes.is_empty());
    assert_eq!(second.baseline().contents, b"hello".to_vec());
}

#[test]
fn wayland_change_propagates_then_settles() {
    let (mut sync, writes) = Synchronizer::reconcile(vec![text(""), text("hello")]);
    assert_eq!(writes, vec![0]);
    assert_eq!(sync.baseline().contents, b"hello".to_vec());

    let step = sync.observe(text("world"));
    assert_eq!(step.writes, vec![1]);
    assert_eq!(step.delay_ms, BROADCAST_DELAY_MS);
    assert_eq!(sync.baseline().contents, b"world".to_vec());
    assert_eq!(sync.next_backend(), 0);

    let step = sync.observe(text("world"));
    assert!(step.writes.is_empty());
    assert_eq!(step.delay_ms, CHECK_DELAY_MS);
    assert_eq!(sync.next_backend(), 1);
    let step = sync.observe(text("world"));
    assert!(step.writes.is_empty());
    assert_eq!(step.delay_ms, PASS_DELAY_MS);
    assert_eq!(sync.next_backend(), 0);
    assert_eq!(sync.baseline().contents, b"world".to_vec());
}

#[test]
fn change_on_second_backend_is_written_to_the_others() {
    let (mut sync, _) = Synchronizer::reconcile(vec![text("a"), text("a"), text("a")]);
    assert!(sync.observe(text("a")).writes.is_empty());
    let step = sync.observe(text("b"));
    assert_eq!(step.writes, vec![0, 2]);
    assert_eq!(sync.baseline().contents, b"b".to_vec());
    assert_eq!(sync.next_backend(), 0);
}

#[test]
fn quiet_pass_writes_nothing() {
    let (mut sync, _) = Synchronizer::reconcile(vec![text("v"), text("v")]);
    for _ in 0..3 {
        assert!(sync.observe(text("v")).writes.is_empty());
        assert!(sync.observe(text("v")).writes.is_empty());
        assert_eq!(sync.next_backend(), 0);
    }
    assert_eq!(sync.baseline().contents, b"v".to_vec());
}

#[test]
fn empty_read_is_not_an_update() {
    let (mut sync, _) = Synchronizer::reconcile(vec![text("keep"), text("keep")]);
    let step = sync.observe(text(""));
    assert!(step.writes.is_empty());
    assert_eq!(sync.baseline().contents, b"keep".to_vec());
    assert_eq!(sync.next_backend(), 1);
}

#[test]
fn mime_change_alone_is_not_an_update() {
    let (mut sync, _) = Synchronizer::reconcile(vec![text("x"), text("x")]);
    let step = sync.observe(ClipboardContents::new(b"x".to_vec(), "text/html"));
    assert!(step.writes.is_empty());
    assert_eq!(sync.baseline().mime_type, "text/plain");
}

#[test]
fn single_backend_change_writes_nothing() {
    let (mut sync, _) = Synchronizer::reconcile(vec![text("x")]);
    let step = sync.observe(text("y"));
    assert!(step.writes.is_empty());
    assert_eq!(sync.baseline().contents, b"y".to_vec());
    let step = sync.observe(text("y"));
    assert_eq!(step.delay_ms, PASS_DELAY_MS);
}
