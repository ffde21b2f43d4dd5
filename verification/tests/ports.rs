//! The adapter ports: the normalization error and policy, and the
//! tree-derivation port behind a trait object.

use std::error::Error;

use dry_core::domain::{LeafClass, LeafToken, LineColumn, NormalizedTree, Span};
use dry_core::ports::{NormalizeError, PlaceholderPolicy, TreeDeriverPort};

#[test]
fn parse_error_with_span_displays_message_and_carries_no_source() {
    let span = Span::try_new(LineColumn::new(3, 4), LineColumn::new(3, 4)).unwrap();
    let err = NormalizeError::Parse {
        message: "unexpected token".into(),
        span: Some(span),
    };
    assert_eq!(err.to_string(), "normalize error: unexpected token");
    assert!(err.source().is_none());
}

#[test]
fn parse_error_without_span_renders_message() {
    let err = NormalizeError::Parse {
        message: "whole-file parse failure".into(),
        span: None,
    };
    assert_eq!(err.to_string(), "normalize error: whole-file parse failure");
    assert!(err.source().is_none());
}

#[test]
fn unsupported_error_renders_construct_name_without_span() {
    let err = NormalizeError::Unsupported {
        construct: "macro_rules!".into(),
        span: None,
    };
    assert_eq!(err.to_string(), "unsupported construct: macro_rules!");
    assert!(err.source().is_none());
}

#[test]
fn unsupported_error_carries_optional_span() {
    let span = Span::try_new(LineColumn::new(7, 0), LineColumn::new(9, 5)).unwrap();
    let err = NormalizeError::Unsupported {
        construct: "async fn in trait".into(),
        span: Some(span),
    };
    assert_eq!(err.to_string(), "unsupported construct: async fn in trait");
    assert!(err.source().is_none());
}

#[test]
fn placeholder_policy_default_matches_v0_1_default() {
    assert_eq!(
        PlaceholderPolicy::default(),
        PlaceholderPolicy::v0_1_default()
    );
}

struct StubDeriver;

impl TreeDeriverPort for StubDeriver {
    fn derive_tree(&self, _source: &str, span: Span) -> Result<NormalizedTree, NormalizeError> {
        Ok(NormalizedTree::leaf(
            "Stub".to_string(),
            0,
            LeafToken::new(LeafClass::Ident, "stub".to_string()),
            span,
        ))
    }
}

fn span() -> Span {
    Span::try_new(LineColumn::new(1, 0), LineColumn::new(1, 4)).unwrap()
}

#[test]
fn port_is_usable_behind_dyn_coercion() {
    let stub = StubDeriver;
    let dynamic: &dyn TreeDeriverPort = &stub;
    let tree = dynamic.derive_tree("fn _x() {}", span()).unwrap();
    assert_eq!(tree.span, span());
    assert!(tree.is_leaf());
}

#[test]
fn port_is_usable_as_boxed_trait_object() {
    let boxed: Box<dyn TreeDeriverPort> = Box::new(StubDeriver);
    let tree = boxed.derive_tree("fn _x() {}", span()).unwrap();
    assert_eq!(tree.label, "Stub");
}
