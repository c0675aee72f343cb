use clr_profiler::controller::{
    apply_rewrite, Command, Event, InterceptError, InterceptionPolicy, InterceptionRule,
    RewriteAction, Stage,
};
use clr_profiler::decoder::decode;
use clr_profiler::error::DecodeError;
use clr_profiler::metadata::ResolvedMethod;

fn method(class_name: &str, method_name: &str) -> ResolvedMethod {
    ResolvedMethod {
        module_id: 7,
        token: 0x0600_0001,
        class_name: class_name.to_string(),
        method_name: method_name.to_string(),
    }
}

fn policy() -> InterceptionPolicy {
    InterceptionPolicy::new(vec![
        InterceptionRule { pattern: "Checks.Validate".to_string(), action: RewriteAction::ReturnTrue },
        InterceptionRule {
            pattern: "Net.Security.SslState.userCertValidationCallbackWrapper".to_string(),
            action: RewriteAction::ReturnTrue,
        },
    ])
}

/// An extended body with one exception region.
fn guarded_body() -> Vec<u8> {
    vec![
        0x1B, 0x30, 0x02, 0x00, 0x04, 0x00, 0x00, 0x00, 0x00, 0x00, 0x00, 0x00, //
        0x00, 0x00, 0x00, 0x2A, //
        0x01, 0x10, 0x00, 0x00, //
        0x00, 0x00, 0x00, 0x00, 0x02, 0x02, 0x00, 0x02, 0x01, 0x00, 0x00, 0x02,
    ]
}

#[test]
fn matching_method_gets_the_return_true_body() {
    let p = policy();
    let first = p.step(Stage::Observed, Event::MethodResolved(method("Checks", "Validate")));
    assert_eq!(first.stage, Stage::Resolved { action: RewriteAction::ReturnTrue });
    assert!(matches!(first.command, Command::RequestBody));
    let second = p.step(first.stage, Event::BodyRead(guarded_body()));
    assert_eq!(second.stage, Stage::Encoded);
    let bytes = match second.command {
        Command::SubmitBody(v) => v,
        other => panic!("unexpected command {:?}", other),
    };
    assert_eq!(bytes, vec![0x0A, 0x17, 0x2A]);
    let replaced = decode(&bytes, bytes.len()).unwrap();
    assert!(replaced.regions.is_empty());
    assert_eq!(replaced.instructions.len(), 2);
    let third = p.step(second.stage, Event::SubmissionAccepted);
    assert_eq!(third.stage, Stage::Submitted);
    assert!(matches!(third.command, Command::Finish));
    assert!(third.error.is_none());
}

#[test]
fn rules_match_qualified_names_only() {
    let p = policy();
    let first = p.step(
        Stage::Observed,
        Event::MethodResolved(method("Net.Security.SslState", "userCertValidationCallbackWrapper")),
    );
    assert!(matches!(first.command, Command::RequestBody));
    let other = p.step(Stage::Observed, Event::MethodResolved(method("Other", "Validate")));
    assert_eq!(other.stage, Stage::PassThrough);
}

#[test]
fn inspect_resubmits_the_body_unchanged() {
    let p = InterceptionPolicy::new(vec![InterceptionRule {
        pattern: "Checks.Validate".to_string(),
        action: RewriteAction::Inspect,
    }]);
    let first = p.step(Stage::Observed, Event::MethodResolved(method("Checks", "Validate")));
    assert_eq!(first.stage, Stage::Resolved { action: RewriteAction::Inspect });
    let second = p.step(first.stage, Event::BodyRead(vec![0x0A, 0x17, 0x2A]));
    match second.command {
        Command::SubmitBody(v) => assert_eq!(v, vec![0x0A, 0x17, 0x2A]),
        other => panic!("unexpected command {:?}", other),
    }
    assert_eq!(apply_rewrite(RewriteAction::Inspect, &guarded_body()).unwrap(), guarded_body());
}

#[test]
fn unmatched_method_passes_through_without_submission() {
    let p = policy();
    let first = p.step(Stage::Observed, Event::MethodResolved(method("Checks", "Other")));
    assert_eq!(first.stage, Stage::PassThrough);
    assert!(matches!(first.command, Command::Finish));
    assert!(first.error.is_none());
    let later = p.step(first.stage, Event::BodyRead(vec![0x0A, 0x17, 0x2A]));
    assert_eq!(later.stage, Stage::PassThrough);
    assert!(matches!(later.command, Command::Finish));
}

#[test]
fn metadata_failure_does_not_affect_the_next_method() {
    let p = policy();
    let failed = p.step(Stage::Observed, Event::ResolutionFailed(-2147024809));
    assert_eq!(failed.stage, Stage::PassThrough);
    assert_eq!(failed.error, Some(InterceptError::MetadataResolutionFailed(-2147024809)));
    let next = p.step(Stage::Observed, Event::MethodResolved(method("Checks", "Validate")));
    assert!(matches!(next.command, Command::RequestBody));
    let done = p.step(next.stage, Event::BodyRead(vec![0x06, 0x2A]));
    assert!(matches!(done.command, Command::SubmitBody(_)));
}

#[test]
fn undecodable_body_falls_back_to_pass_through() {
    let p = policy();
    let stage = Stage::Resolved { action: RewriteAction::ReturnTrue };
    let r = p.step(stage, Event::BodyRead(vec![0x06, 0x24]));
    assert_eq!(r.stage, Stage::PassThrough);
    assert_eq!(r.error, Some(InterceptError::Decode(DecodeError::UnknownOpcode)));
    assert_eq!(
        apply_rewrite(RewriteAction::ReturnTrue, &[0x00]),
        Err(InterceptError::Decode(DecodeError::UnsupportedHeaderVariant))
    );
}

#[test]
fn collaborator_failures_are_reported() {
    let p = policy();
    let stage = Stage::Resolved { action: RewriteAction::ReturnTrue };
    let r = p.step(stage, Event::BodyUnavailable(5));
    assert_eq!(r.error, Some(InterceptError::BodyAccessFailed(5)));
    let r = p.step(Stage::Encoded, Event::SubmissionRejected(6));
    assert_eq!(r.stage, Stage::PassThrough);
    assert_eq!(r.error, Some(InterceptError::BodySubmissionFailed(6)));
}

#[test]
fn rewrite_ignores_original_content() {
    assert_eq!(apply_rewrite(RewriteAction::ReturnTrue, &guarded_body()).unwrap(), vec![0x0A, 0x17, 0x2A]);
    assert_eq!(apply_rewrite(RewriteAction::ReturnTrue, &[0x06, 0x2A]).unwrap(), vec![0x0A, 0x17, 0x2A]);
}
