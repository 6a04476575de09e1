//! Hints and approval.
use smg::annotations::{AnnotationType, RmcpToolAnnotations, ToolAnnotations};

fn no_hints() -> RmcpToolAnnotations {
    RmcpToolAnnotations {
        read_only_hint: None,
        destructive_hint: None,
        idempotent_hint: None,
        open_world_hint: None,
    }
}

#[test]
fn test_from_rmcp() {
    let rmcp = RmcpToolAnnotations {
        read_only_hint: Some(true),
        destructive_hint: Some(false),
        idempotent_hint: Some(true),
        open_world_hint: Some(false),
    };
    let ann = ToolAnnotations::from_rmcp(&rmcp);
    assert!(ann.read_only);
    assert!(!ann.destructive);
    assert!(ann.idempotent);
    assert!(!ann.open_world);
}

#[test]
fn test_conservative_defaults() {
    let ann = ToolAnnotations::from_rmcp(&no_hints());
    assert!(!ann.read_only); // assume writes
    assert!(ann.destructive); // assume dangerous
    assert!(!ann.idempotent); // assume not safe to retry
    assert!(ann.open_world); // assume external access
}

#[test]
fn test_should_require_approval() {
    assert!(ToolAnnotations::new()
        .with_destructive(true)
        .should_require_approval());
    assert!(!ToolAnnotations::new()
        .with_destructive(true)
        .with_read_only(true)
        .should_require_approval());
}

#[test]
fn approval_is_needed_unless_a_hint_clears_it() {
    assert!(ToolAnnotations::from_rmcp(&no_hints()).should_require_approval());
    let reads = RmcpToolAnnotations {
        read_only_hint: Some(true),
        ..no_hints()
    };
    assert!(!ToolAnnotations::from_rmcp(&reads).should_require_approval());
    let harmless = RmcpToolAnnotations {
        destructive_hint: Some(false),
        ..no_hints()
    };
    assert!(!ToolAnnotations::from_rmcp(&harmless).should_require_approval());
}

#[test]
fn without_any_hints_all_is_assumed_for_the_worse() {
    let assumed = ToolAnnotations::new()
        .with_destructive(true)
        .with_open_world(true);
    let unknown = ToolAnnotations::from_rmcp_option(None);
    assert_eq!(unknown, assumed);
    assert!(unknown.should_require_approval());
    assert_eq!(
        ToolAnnotations::from_rmcp_option(Some(&no_hints())),
        assumed
    );
    let reads = RmcpToolAnnotations {
        read_only_hint: Some(true),
        ..no_hints()
    };
    assert!(!ToolAnnotations::from_rmcp_option(Some(&reads)).should_require_approval());
}

#[test]
fn each_annotation_type_asks_for_its_own() {
    let ann = ToolAnnotations {
        read_only: false,
        destructive: true,
        idempotent: true,
        open_world: false,
    };
    assert!(AnnotationType::Destructive.matches(&ann));
    assert!(!AnnotationType::ReadOnly.matches(&ann));
    assert!(AnnotationType::Idempotent.matches(&ann));
    assert!(!AnnotationType::OpenWorld.matches(&ann));
}
