//! Tests for the validators and the validation suite.

use x12::parser::{Halt, Segment, SegmentHandler, SegmentParser};
use x12::validation::{
    parse_control_number, ErrorKind, Severity, Snip1Validator, Snip7Validator, SuiteValidator,
    ValidationError, ValidationSuite, Validator,
};

const ISA: &[u8] = b"ISA*00*          *00*          *ZZ*SENDER         *ZZ*RECEIVER       *210101*1200*^*00501*000000001*0*P*:~";

fn run_suite(input: &[u8]) -> ValidationSuite {
    let mut parser = SegmentParser::init();
    let mut suite = ValidationSuite::all_snip_levels();
    let consumed = parser.parse_segments(input, &mut suite).expect("parse should succeed");
    assert_eq!(consumed, input.len());
    suite
}

#[test]
fn test_snip1_validator() {
    let validator = Snip1Validator::new();
    assert_eq!(validator.errors().len(), 0);
    assert_eq!(validator.name(), "SNIP Level 1 (Syntax)");
}

#[test]
fn test_validation_suite() {
    let mut suite = ValidationSuite::new();
    suite.add(SuiteValidator::Snip1(Snip1Validator::new()));
    assert_eq!(suite.error_count(), 0);
}

#[test]
fn test_snip7_validator_name() {
    let validator = Snip7Validator::new();
    assert_eq!(validator.errors().len(), 0);
    assert_eq!(validator.name(), "SNIP Level 7 (Inter-segment)");
}

#[test]
fn test_minimal_isa_draws_no_findings() {
    let suite = run_suite(ISA);
    assert_eq!(suite.error_count(), 0);
}

fn valid_envelope() -> Vec<u8> {
    let mut input = ISA.to_vec();
    input.extend_from_slice(b"GS*HC*SENDER*RECEIVER*20210101*1200*7*X*005010~");
    input.extend_from_slice(b"ST*837*0001~");
    input.extend_from_slice(b"SE*2*0001~");
    input.extend_from_slice(b"GE*1*7~");
    input.extend_from_slice(b"IEA*1*000000001~");
    input
}

#[test]
fn test_minimal_envelope_draws_no_findings() {
    let suite = run_suite(&valid_envelope());
    assert_eq!(suite.error_count(), 0, "{:?}", suite.errors());
}

#[test]
fn test_alternate_delimiters_short_gs() {
    let alt: Vec<u8> = ISA
        .iter()
        .map(|&b| match b {
            b'*' => b'|',
            b':' => b'#',
            b'~' => b'!',
            b'^' => b'*',
            other => other,
        })
        .collect();
    let mut input = alt;
    input.extend_from_slice(b"GS|HC!");
    let suite = run_suite(&input);
    let errors = suite.errors();
    assert_eq!(errors.len(), 1);
    assert_eq!(errors[0].kind, ErrorKind::InvalidSyntax);
    assert_eq!(errors[0].severity, Severity::Error);
    assert_eq!(errors[0].segment_id_str(), "GS");
    assert_eq!(errors[0].message, "GS must have at least 8 elements, found 1");
}

#[test]
fn test_segment_sequence_flagged() {
    // ST directly after ISA, without a GS.
    let mut input = ISA.to_vec();
    input.extend_from_slice(b"ST*837*0001~");
    let suite = run_suite(&input);
    let errors = suite.errors();
    assert!(errors.iter().any(|e| e.kind == ErrorKind::SegmentSequence));
}

#[test]
fn test_interchange_control_mismatch() {
    let mut input = ISA.to_vec();
    input.extend_from_slice(b"GS*HC*S*R*20210101*1200*7*X*005010~");
    input.extend_from_slice(b"ST*837*0001~SE*2*0001~GE*1*7~");
    input.extend_from_slice(b"IEA*1*000000002~");
    let suite = run_suite(&input);
    let errors = suite.errors();
    let mismatches: Vec<&&ValidationError> = errors
        .iter()
        .filter(|e| e.kind == ErrorKind::ControlNumberMismatch)
        .collect::<Vec<_>>();
    assert_eq!(mismatches.len(), 1);
    assert_eq!(mismatches[0].segment_id_str(), "IEA");
    assert_eq!(mismatches[0].element, Some(1));
    assert_eq!(mismatches[0].message, "IEA02 value 2 does not match ISA13 value 1");
}

#[test]
fn test_count_mismatch() {
    let mut input = ISA.to_vec();
    input.extend_from_slice(b"GS*HC*S*R*20210101*1200*7*X*005010~");
    input.extend_from_slice(b"ST*837*0001~BHT*0019~REF*D9~SE*3*0001~");
    input.extend_from_slice(b"GE*1*7~IEA*1*000000001~");
    let suite = run_suite(&input);
    let mismatches: Vec<_> = suite
        .errors()
        .into_iter()
        .filter(|e| e.kind == ErrorKind::CountMismatch)
        .collect();
    assert_eq!(mismatches.len(), 1, "exactly one count mismatch");
    assert_eq!(mismatches[0].segment_id_str(), "SE");
    assert_eq!(mismatches[0].element, Some(0));
    assert_eq!(mismatches[0].message, "SE01 count 3 does not match actual 4");
}

#[test]
fn test_correct_count_second_transaction_clean() {
    // A wrong count in the first transaction must not taint the second.
    let mut input = ISA.to_vec();
    input.extend_from_slice(b"GS*HC*S*R*20210101*1200*7*X*005010~");
    input.extend_from_slice(b"ST*837*0001~REF*D9~SE*9*0001~");
    input.extend_from_slice(b"ST*837*0002~REF*D9~SE*3*0002~");
    input.extend_from_slice(b"GE*2*7~IEA*1*000000001~");
    let suite = run_suite(&input);
    let mismatches: Vec<_> = suite
        .errors()
        .into_iter()
        .filter(|e| e.kind == ErrorKind::CountMismatch)
        .collect();
    assert_eq!(mismatches.len(), 1);
}

#[test]
fn test_parse_control_number() {
    assert_eq!(parse_control_number(b"000000001"), Some(1));
    assert_eq!(parse_control_number(b"  42  "), Some(42));
    assert_eq!(parse_control_number(b""), Some(0));
    assert_eq!(parse_control_number(b"   "), Some(0));
    assert_eq!(parse_control_number(b"4294967295"), Some(u32::MAX));
    assert_eq!(parse_control_number(b"4294967296"), None);
    assert_eq!(parse_control_number(b"12a"), None);
    assert_eq!(parse_control_number(b"1 2"), None);
}

#[test]
fn test_validation_error_fields() {
    let e = ValidationError::new(
        Severity::Warning,
        ErrorKind::MissingSegment,
        b"GS",
        Some(4),
        String::from("missing"),
    );
    assert_eq!(e.severity, Severity::Warning);
    assert_eq!(e.kind, ErrorKind::MissingSegment);
    assert_eq!(e.segment_id, [b'G', b'S', 0]);
    assert_eq!(e.segment_id_str(), "GS");
    assert_eq!(e.element, Some(4));
    assert_eq!(e.message, "missing");
    assert_eq!(e.segment_position, None);
}

#[test]
fn test_validator_clear() {
    let mut input = ISA.to_vec();
    input.extend_from_slice(b"ST*837*0001~");
    let mut parser = SegmentParser::init();
    let mut v1 = Snip1Validator::new();
    struct One<'a>(&'a mut Snip1Validator);
    impl<'a> SegmentHandler for One<'a> {
        fn log(&self) -> vstd::prelude::Seq<x12::parser::SegView> {
            unreachable!()
        }

        fn never_halts(&self) -> bool {
            true
        }

        fn wf(&self) -> bool {
            true
        }

        fn may_halt(&self, _segment: x12::parser::SegView, _halt: Halt) -> bool {
            false
        }

        fn handle(&mut self, segment: &Segment<'_>) -> Result<(), Halt> {
            self.0.validate(segment);
            Ok(())
        }
    }
    parser.parse_segments(&input, &mut One(&mut v1)).unwrap();
    assert!(v1.errors().len() > 0);
    v1.clear();
    assert_eq!(v1.errors().len(), 0);
}

#[test]
fn test_suite_finish_collects_all() {
    let mut input = ISA.to_vec();
    input.extend_from_slice(b"ST*837*0001~");
    let mut parser = SegmentParser::init();
    let mut suite = ValidationSuite::all_snip_levels();
    parser.parse_segments(&input, &mut suite).unwrap();
    let count = suite.error_count();
    assert!(count > 0);
    let all = suite.finish();
    assert_eq!(all.len(), count);
}

#[test]
fn test_isa_element_count_checked() {
    // A parser configured by hand lets a short segment with the ISA
    // identifier through; the structural validator flags it.
    let mut parser = SegmentParser::init();
    let mut suite = ValidationSuite::all_snip_levels();
    parser.parse_segments(ISA, &mut suite).unwrap();
    let mut second = Vec::new();
    second.extend_from_slice(b"ISA*too*short~");
    parser.parse_segments(&second, &mut suite).unwrap();
    let errors = suite.errors();
    assert!(errors
        .iter()
        .any(|e| e.kind == ErrorKind::InvalidSyntax && e.segment_id_str() == "ISA"));
    assert!(errors
        .iter()
        .any(|e| e.kind == ErrorKind::SegmentSequence && e.segment_id_str() == "ISA"));
}

#[test]
fn test_count_ticks_without_readable_st_control() {
    // The transaction segment count runs on every segment after ST, even
    // when ST-02 is not a readable number.
    let mut input = ISA.to_vec();
    input.extend_from_slice(b"GS*HC*S*R*20210101*1200*7*X*005010~");
    input.extend_from_slice(b"ST*837*XX~REF*D9~SE*3*XX~");
    input.extend_from_slice(b"GE*1*7~IEA*1*000000001~");
    let suite = run_suite(&input);
    let mismatches: Vec<_> = suite
        .errors()
        .into_iter()
        .filter(|e| e.kind == ErrorKind::CountMismatch)
        .collect();
    assert!(mismatches.is_empty(), "{:?}", mismatches);
}

#[test]
fn test_control_mismatch_cites_stored_none() {
    // A trailer with a readable control but nothing stored reports the
    // missing side as none.
    let mut input = ISA.to_vec();
    input.extend_from_slice(b"GS*HC*S*R*20210101*1200*XX*X*005010~");
    input.extend_from_slice(b"GE*1*7~IEA*1*000000001~");
    let suite = run_suite(&input);
    let errors = suite.errors();
    let ge: Vec<_> = errors
        .iter()
        .filter(|e| e.kind == ErrorKind::ControlNumberMismatch)
        .collect();
    assert_eq!(ge.len(), 1);
    assert_eq!(ge[0].message, "GE02 value 7 does not match GS06 value none");
}

#[test]
fn test_isa_syntax_message_cites_count() {
    let mut parser = SegmentParser::init();
    let mut suite = ValidationSuite::all_snip_levels();
    parser.parse_segments(ISA, &mut suite).unwrap();
    parser.parse_segments(b"ISA*one*two~", &mut suite).unwrap();
    let errors = suite.errors();
    assert!(errors
        .iter()
        .any(|e| e.message == "ISA must have exactly 16 elements, found 2"));
}

#[test]
fn test_kind_labels() {
    assert_eq!(ErrorKind::InvalidSyntax.label(), "Invalid Syntax");
    assert_eq!(ErrorKind::SegmentSequence.label(), "Segment Sequence Error");
    assert_eq!(ErrorKind::ControlNumberMismatch.label(), "Control Number Mismatch");
    assert_eq!(ErrorKind::CountMismatch.label(), "Count Mismatch");
}
