//! Why a second instance is refused.
use ed_compass::single_instance::ClaimError;

#[test]
fn the_refusal_explains_the_consequence() {
    let message = ClaimError::AlreadyRunning.message();
    assert!(
        message.contains("delete each other's recordings"),
        "the message must say why it matters, not just that it happened: {message}"
    );
}

#[test]
fn only_a_held_lock_stops_the_program() {
    assert!(ClaimError::AlreadyRunning.is_fatal());
    let other = ClaimError::Unavailable("no such object".to_string());
    assert!(!other.is_fatal());
    assert!(other.message().contains("no such object"));
}
