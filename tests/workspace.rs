use epub_optimizer::tempdir::{next_acquire_step, random_name, AcquireStep, CreateOutcome, TempDir, MAX_ATTEMPTS, NAME_LEN};

#[test]
fn path_joins_root_and_name() {
    assert_eq!(TempDir::at("/tmp", "abc12345").path(), "/tmp/abc12345");
    assert_eq!(TempDir::at("/tmp/", "abc12345").path(), "/tmp/abc12345");
    assert_eq!(TempDir::at("", "abc").path(), "abc");
}

#[test]
fn random_names_are_alphanumeric() {
    for _ in 0..50 {
        let n = random_name();
        assert_eq!(n.chars().count(), NAME_LEN);
        assert!(n.chars().all(|c| c.is_ascii_alphanumeric()));
    }
}

#[test]
fn new_workspace_lies_under_root() {
    let t = TempDir::new("/tmp");
    let p = t.path();
    assert!(p.starts_with("/tmp/"));
    assert_eq!(p.len(), "/tmp/".len() + NAME_LEN);
    let u = TempDir::new("/tmp");
    // names are drawn at random: two in a row differ all but surely
    assert_ne!(t.path(), u.path());
}

#[test]
fn collisions_are_retried_then_given_up() {
    assert_eq!(next_acquire_step(1, CreateOutcome::Created), AcquireStep::Ready);
    assert_eq!(next_acquire_step(1, CreateOutcome::AlreadyExists), AcquireStep::Retry);
    assert_eq!(next_acquire_step(MAX_ATTEMPTS - 1, CreateOutcome::AlreadyExists), AcquireStep::Retry);
    assert_eq!(next_acquire_step(MAX_ATTEMPTS, CreateOutcome::AlreadyExists), AcquireStep::GiveUp);
    assert_eq!(next_acquire_step(1, CreateOutcome::Failed), AcquireStep::GiveUp);
}
