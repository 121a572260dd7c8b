//! The text of rewriting errors.

use grammex::RewriteError;

#[test]
fn error_messages() {
    assert_eq!(RewriteError::MaxStepsExceeded { steps: 120 }.message(), "max steps exceeded after 120 steps");
    assert_eq!(RewriteError::MaxStepsExceeded { steps: 0 }.message(), "max steps exceeded after 0 steps");
    assert_eq!(RewriteError::ConstraintViolation { rule_index: 7 }.message(), "constraint violated by rule 7");
    assert_eq!(RewriteError::InvalidGraph { message: "dangling edge" }.message(), "invalid graph: dangling edge");
    assert_eq!(
        RewriteError::ConstraintViolation { rule_index: usize::MAX }.message(),
        format!("constraint violated by rule {}", usize::MAX)
    );
}
