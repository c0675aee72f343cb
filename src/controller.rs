//! Per-method interception: which methods to rewrite, and the decisions taken as the
//! runtime reports each step of one method's compilation.
//!
//! The controller holds no state between methods: each compilation event starts a
//! fresh cycle at `Stage::Observed`, and the policy is only read.

use vstd::prelude::*;
use crate::body::{body_encoding, body_well_formed, encode, MethodBody, MethodHeader};
use crate::theorems::theorem_encoded_round_trip;
use crate::decoder::{decode, decoded_from, header_more_sections, header_read_from};
use crate::error::{DecodeError, EncodeError};
use crate::instruction::{Instruction, Opcode, Operand};
use crate::metadata::{qualified, ResolvedMethod};

verus! {

/// What to do with the body of a matching method.
#[derive(Clone, Copy, PartialEq, Eq, Debug, Structural)]
pub enum RewriteAction {
    /// Discard the body and install one that pushes `true` and returns it.
    ReturnTrue,
    /// Rewrite nothing: decode the body for inspection and write it back as decoded.
    Inspect,
}

/// A method name pattern and the rewrite for the methods it matches.
#[derive(Clone, Debug)]
pub struct InterceptionRule {
    /// A qualified name `Type.Method`.
    pub pattern: String,
    pub action: RewriteAction,
}

/// The rules, tried in order; the first that matches decides.
#[derive(Clone, Debug)]
pub struct InterceptionPolicy {
    pub rules: Vec<InterceptionRule>,
}

/// Why one method's interception stopped short of submitting a body.
#[derive(Clone, Copy, PartialEq, Eq, Debug, Structural)]
pub enum InterceptError {
    MetadataResolutionFailed(i32),
    BodyAccessFailed(i32),
    Decode(DecodeError),
    Encode(EncodeError),
    BodySubmissionFailed(i32),
}

pub open spec fn rule_matches(pattern: Seq<char>, class_name: Seq<char>, method_name: Seq<char>) -> bool {
    pattern == qualified(class_name, method_name)
}

/// Action of the first rule at or after `i` that matches.
pub open spec fn lookup_from(
    rules: Seq<InterceptionRule>,
    class_name: Seq<char>,
    method_name: Seq<char>,
    i: int,
) -> Option<RewriteAction>
    decreases rules.len() - i,
{
    if i < 0 || i >= rules.len() {
        None
    } else if rule_matches(rules[i].pattern@, class_name, method_name) {
        Some(rules[i].action)
    } else {
        lookup_from(rules, class_name, method_name, i + 1)
    }
}

pub open spec fn policy_action(
    rules: Seq<InterceptionRule>,
    class_name: Seq<char>,
    method_name: Seq<char>,
) -> Option<RewriteAction> {
    lookup_from(rules, class_name, method_name, 0)
}

/// The body `ldc.i4.1; ret` under the compact header.
pub open spec fn return_true_bytes() -> Seq<u8> {
    seq![0x0Au8, 0x17u8, 0x2Au8]
}

/// The bytes submitted under `action` for a body that the encoder wrote as `current`.
pub open spec fn submitted_bytes(action: RewriteAction, current: Seq<u8>) -> Seq<u8> {
    match action {
        RewriteAction::ReturnTrue => return_true_bytes(),
        RewriteAction::Inspect => current,
    }
}

/// `bytes` are what the encoder writes for some well-formed body.
pub open spec fn encoder_output(bytes: Seq<u8>) -> bool {
    exists|m0: MethodBody| body_well_formed(m0) && #[trigger] body_encoding(m0) == Ok::<
        Seq<u8>,
        EncodeError,
    >(bytes)
}

/// What a successful rewrite of `current` under `action` submits: for `ReturnTrue` the
/// constant body, for `Inspect` the encoding of a body decoded from `current`.
pub open spec fn rewrite_result(action: RewriteAction, current: Seq<u8>, v: Seq<u8>) -> bool {
    exists|m: MethodBody| #[trigger]
        decoded_from(current, m) && match action {
            RewriteAction::ReturnTrue => v == return_true_bytes(),
            RewriteAction::Inspect => body_encoding(m) == Ok::<Seq<u8>, EncodeError>(v),
        }
}

/// `m` is the body `ldc.i4.1; ret` with no regions.
pub open spec fn is_return_true_body(m: MethodBody) -> bool {
    &&& m.header == MethodHeader::Compact { code_size: 2 }
    &&& m.instructions@.len() == 2
    &&& m.instructions@[0].offset == 0
    &&& m.instructions@[0].opcode == Opcode { prefixed: false, code: 0x17 }
    &&& m.instructions@[0].operand is NoOperand
    &&& m.instructions@[1].offset == 1
    &&& m.instructions@[1].opcode == Opcode { prefixed: false, code: 0x2A }
    &&& m.instructions@[1].operand is NoOperand
    &&& m.regions@.len() == 0
}

/// The body `ldc.i4.1; ret`.
pub fn return_true_body() -> (m: MethodBody)
    ensures
        is_return_true_body(m),
{
    let mut instructions: Vec<Instruction> = Vec::new();
    instructions.push(
        Instruction {
            offset: 0,
            opcode: Opcode { prefixed: false, code: 0x17 },
            operand: Operand::NoOperand,
        },
    );
    instructions.push(
        Instruction {
            offset: 1,
            opcode: Opcode { prefixed: false, code: 0x2A },
            operand: Operand::NoOperand,
        },
    );
    MethodBody { header: MethodHeader::Compact { code_size: 2 }, instructions, regions: Vec::new() }
}

pub proof fn lemma_return_true_encoding(m: MethodBody)
    requires
        is_return_true_body(m),
    ensures
        body_encoding(m) == Ok::<Seq<u8>, EncodeError>(return_true_bytes()),
{
    let s = m.instructions@;
    reveal_with_fuel(crate::instruction::code_len, 3);
    reveal_with_fuel(crate::instruction::stream_prefix, 3);
    assert(s.subrange(0, 0).len() == 0);
    assert(s.subrange(0, 1).drop_last().len() == 0);
    assert(s.subrange(0, 2).drop_last() =~= s.subrange(0, 1));
    assert(s.drop_last() =~= s.subrange(0, 1));
    assert(s.subrange(0, 2) =~= s);
    assert(crate::instruction::instr_encoding(s, 0) == Ok::<Seq<u8>, EncodeError>(seq![0x17u8]))
        by {
        assert(seq![0x17u8] + Seq::<u8>::empty() =~= seq![0x17u8]);
    }
    assert(crate::instruction::instr_encoding(s, 1) == Ok::<Seq<u8>, EncodeError>(seq![0x2Au8]))
        by {
        assert(seq![0x2Au8] + Seq::<u8>::empty() =~= seq![0x2Au8]);
    }
    assert(crate::instruction::stream_prefix(s, 2) == Ok::<Seq<u8>, EncodeError>(
        seq![0x17u8, 0x2Au8],
    )) by {
        assert(Seq::<u8>::empty() + seq![0x17u8] + seq![0x2Au8] =~= seq![0x17u8, 0x2Au8]);
    }
    assert(seq![10u8] + seq![0x17u8, 0x2Au8] =~= return_true_bytes());
}

/// Decodes `current` and, where it is a method body, returns the bytes to submit under
/// `action`. `ReturnTrue` drops the body's instructions and regions; `Inspect` writes the
/// decoded body back. Bytes that the encoder wrote for a well-formed body always succeed,
/// and `Inspect` then hands them back unchanged; `ReturnTrue` succeeds on every body that
/// decodes.
pub fn apply_rewrite(action: RewriteAction, current: &[u8]) -> (r: Result<Vec<u8>, InterceptError>)
    ensures
        r matches Ok(v) ==> rewrite_result(action, current@, v@),
        r matches Err(e) ==> e is Decode || (action is Inspect && e is Encode),
        encoder_output(current@) ==> (r matches Ok(v) && v@ == submitted_bytes(action, current@)),
        action is ReturnTrue && (exists|m: MethodBody| decoded_from(current@, m)) ==> r is Ok,
{
    assert(current@.subrange(0, current@.len() as int) =~= current@);
    match decode(current, current.len()) {
        Err(e) => Err(InterceptError::Decode(e)),
        Ok(m) => {
            proof {
                if encoder_output(current@) {
                    let m0 = choose|m0: MethodBody|
                        body_well_formed(m0) && #[trigger] body_encoding(m0) == Ok::<
                            Seq<u8>,
                            EncodeError,
                        >(current@);
                    theorem_encoded_round_trip(m0, current@, m);
                }
            }
            let replacement = match action {
                RewriteAction::ReturnTrue => return_true_body(),
                RewriteAction::Inspect => m,
            };
            proof {
                if action is ReturnTrue {
                    lemma_return_true_encoding(replacement);
                }
            }
            match encode(&replacement) {
                Ok(v) => Ok(v),
                Err(e) => Err(InterceptError::Encode(e)),
            }
        },
    }
}

/// Where one method's interception stands.
#[derive(Clone, Copy, PartialEq, Eq, Debug, Structural)]
pub enum Stage {
    /// The runtime reported that the method is about to be compiled.
    Observed,
    /// The method matched a rule; its body has been asked for.
    Resolved { action: RewriteAction },
    /// A replacement body has been handed over for submission.
    Encoded,
    /// The method compiles from the body it came with.
    PassThrough,
    /// The replacement body was accepted.
    Submitted,
}

/// What the runtime reported.
#[derive(Clone, Debug)]
pub enum Event {
    MethodResolved(ResolvedMethod),
    ResolutionFailed(i32),
    BodyRead(Vec<u8>),
    BodyUnavailable(i32),
    SubmissionAccepted,
    SubmissionRejected(i32),
}

/// What the runtime is asked to do next.
#[derive(Clone, Debug)]
pub enum Command {
    RequestBody,
    SubmitBody(Vec<u8>),
    Finish,
}

/// The outcome of one decision.
#[derive(Clone, Debug)]
pub struct Step {
    pub stage: Stage,
    pub command: Command,
    /// What is reported to the diagnostic sink, if anything.
    pub error: Option<InterceptError>,
}

pub open spec fn ends(r: Step, stage: Stage, error: Option<InterceptError>) -> bool {
    r.stage == stage && r.command is Finish && r.error == error
}

/// The decision taken in `stage` on `event` under `rules`.
pub open spec fn step_spec(rules: Seq<InterceptionRule>, stage: Stage, event: Event, r: Step) -> bool {
    match stage {
        Stage::Observed => match event {
            Event::MethodResolved(rm) => match policy_action(
                rules,
                rm.class_name@,
                rm.method_name@,
            ) {
                None => ends(r, Stage::PassThrough, None),
                Some(a) => r.stage == (Stage::Resolved { action: a }) && r.command is RequestBody
                    && r.error is None,
            },
            Event::ResolutionFailed(e) => ends(
                r,
                Stage::PassThrough,
                Some(InterceptError::MetadataResolutionFailed(e)),
            ),
            _ => ends(r, Stage::PassThrough, None),
        },
        Stage::Resolved { action } => match event {
            Event::BodyRead(bytes) => {
                &&& match r.command {
                    Command::SubmitBody(v) => r.stage == Stage::Encoded && r.error is None
                        && rewrite_result(action, bytes@, v@),
                    _ => r.stage == Stage::PassThrough && r.command is Finish && (r.error matches Some(
                        e,
                    ) && (e is Decode || e is Encode)),
                }
                &&& encoder_output(bytes@) ==> (r.command matches Command::SubmitBody(v) && v@
                    == submitted_bytes(action, bytes@))
                &&& action is ReturnTrue && (exists|m: MethodBody| decoded_from(bytes@, m))
                    ==> r.command is SubmitBody
            },
            Event::BodyUnavailable(e) => ends(
                r,
                Stage::PassThrough,
                Some(InterceptError::BodyAccessFailed(e)),
            ),
            _ => ends(r, Stage::PassThrough, None),
        },
        Stage::Encoded => match event {
            Event::SubmissionAccepted => ends(r, Stage::Submitted, None),
            Event::SubmissionRejected(e) => ends(
                r,
                Stage::PassThrough,
                Some(InterceptError::BodySubmissionFailed(e)),
            ),
            _ => ends(r, Stage::PassThrough, None),
        },
        _ => ends(r, stage, None),
    }
}

impl InterceptionPolicy {
    pub fn new(rules: Vec<InterceptionRule>) -> (p: Self)
        ensures
            p.rules@ == rules@,
    {
        InterceptionPolicy { rules }
    }

    /// The action of the first rule that matches the method, if any.
    pub fn action_for(&self, rm: &ResolvedMethod) -> (r: Option<RewriteAction>)
        ensures
            r == policy_action(self.rules@, rm.class_name@, rm.method_name@),
    {
        let name = rm.qualified_name();
        let mut i: usize = 0;
        while i < self.rules.len()
            invariant
                i <= self.rules@.len(),
                name@ == qualified(rm.class_name@, rm.method_name@),
                policy_action(self.rules@, rm.class_name@, rm.method_name@) == lookup_from(
                    self.rules@,
                    rm.class_name@,
                    rm.method_name@,
                    i as int,
                ),
            decreases self.rules@.len() - i,
        {
            let rule = &self.rules[i];
            if rule.pattern == name {
                return Some(rule.action);
            }
            i = i + 1;
        }
        None
    }

    /// Decides what follows `event` in `stage`.
    pub fn step(&self, stage: Stage, event: Event) -> (r: Step)
        ensures
            step_spec(self.rules@, stage, event, r),
    {
        match stage {
            Stage::Observed => match event {
                Event::MethodResolved(rm) => match self.action_for(&rm) {
                    None => Step { stage: Stage::PassThrough, command: Command::Finish, error: None },
                    Some(a) => Step {
                        stage: Stage::Resolved { action: a },
                        command: Command::RequestBody,
                        error: None,
                    },
                },
                Event::ResolutionFailed(e) => Step {
                    stage: Stage::PassThrough,
                    command: Command::Finish,
                    error: Some(InterceptError::MetadataResolutionFailed(e)),
                },
                _ => Step { stage: Stage::PassThrough, command: Command::Finish, error: None },
            },
            Stage::Resolved { action } => match event {
                Event::BodyRead(bytes) => match apply_rewrite(action, bytes.as_slice()) {
                    Ok(v) => Step { stage: Stage::Encoded, command: Command::SubmitBody(v), error: None },
                    Err(e) => Step { stage: Stage::PassThrough, command: Command::Finish, error: Some(e) },
                },
                Event::BodyUnavailable(e) => Step {
                    stage: Stage::PassThrough,
                    command: Command::Finish,
                    error: Some(InterceptError::BodyAccessFailed(e)),
                },
                _ => Step { stage: Stage::PassThrough, command: Command::Finish, error: None },
            },
            Stage::Encoded => match event {
                Event::SubmissionAccepted => Step {
                    stage: Stage::Submitted,
                    command: Command::Finish,
                    error: None,
                },
                Event::SubmissionRejected(e) => Step {
                    stage: Stage::PassThrough,
                    command: Command::Finish,
                    error: Some(InterceptError::BodySubmissionFailed(e)),
                },
                _ => Step { stage: Stage::PassThrough, command: Command::Finish, error: None },
            },
            _ => Step { stage, command: Command::Finish, error: None },
        }
    }
}

/// A method whose name matches a rule has its body asked for, and a body that decodes is
/// replaced by the rule's body whatever it held; the replacement carries no exception
/// regions of the body it replaces.
#[verifier::rlimit(100)]
pub proof fn theorem_matching_method_is_replaced(
    rules: Seq<InterceptionRule>,
    rm: ResolvedMethod,
    first: Step,
    bytes: Vec<u8>,
    second: Step,
)
    requires
        policy_action(rules, rm.class_name@, rm.method_name@) == Some(RewriteAction::ReturnTrue),
        step_spec(rules, Stage::Observed, Event::MethodResolved(rm), first),
        step_spec(rules, first.stage, Event::BodyRead(bytes), second),
        exists|m: MethodBody| decoded_from(bytes@, m),
    ensures
        first.command is RequestBody,
        second.command is SubmitBody,
        second.command->SubmitBody_0@ == seq![0x0Au8, 0x17u8, 0x2Au8],
        second.stage == Stage::Encoded,
        forall|m: MethodBody| #[trigger]
            decoded_from(second.command->SubmitBody_0@, m) ==> m.regions@.len() == 0,
{
    assert(first.stage == (Stage::Resolved { action: RewriteAction::ReturnTrue }));
    assert(second.command is SubmitBody);
    let v = second.command->SubmitBody_0;
    assert(rewrite_result(RewriteAction::ReturnTrue, bytes@, v@));
    assert(v@ == return_true_bytes());
    assert forall|m: MethodBody| #[trigger]
        decoded_from(second.command->SubmitBody_0@, m) implies m.regions@.len() == 0 by {
        if m.header is Extended {
            assert(header_read_from(second.command->SubmitBody_0@, m.header));
        }
    }
}

/// A method whose name matches no rule finishes at once, in pass-through, and no later
/// event of its cycle leads to a body being submitted.
pub proof fn theorem_unmatched_method_passes_through(
    rules: Seq<InterceptionRule>,
    rm: ResolvedMethod,
    first: Step,
    later: Event,
    second: Step,
)
    requires
        policy_action(rules, rm.class_name@, rm.method_name@) is None,
        step_spec(rules, Stage::Observed, Event::MethodResolved(rm), first),
        step_spec(rules, first.stage, later, second),
    ensures
        first.stage == Stage::PassThrough,
        first.command is Finish,
        second.stage == Stage::PassThrough,
        !(second.command is SubmitBody),
{
}

/// A metadata failure ends only its own method's cycle, in pass-through: the next
/// method's cycle starts afresh and is decided by the policy alone.
pub proof fn theorem_resolution_failure_is_local(
    rules: Seq<InterceptionRule>,
    e: i32,
    failed: Step,
    rm: ResolvedMethod,
    next: Step,
    bytes: Vec<u8>,
    last: Step,
)
    requires
        step_spec(rules, Stage::Observed, Event::ResolutionFailed(e), failed),
        step_spec(rules, Stage::Observed, Event::MethodResolved(rm), next),
        step_spec(rules, next.stage, Event::BodyRead(bytes), last),
    ensures
        failed.stage == Stage::PassThrough,
        failed.error == Some(InterceptError::MetadataResolutionFailed(e)),
        policy_action(rules, rm.class_name@, rm.method_name@) matches Some(a) ==> next.stage == (
        Stage::Resolved { action: a }) && next.command is RequestBody,
        policy_action(rules, rm.class_name@, rm.method_name@) is None ==> next.stage
            == Stage::PassThrough,
        policy_action(rules, rm.class_name@, rm.method_name@) == Some(RewriteAction::ReturnTrue)
            && (exists|m: MethodBody| decoded_from(bytes@, m)) ==> (last.command matches Command::SubmitBody(v) && v@
            == return_true_bytes()),
{
}

} // verus!
