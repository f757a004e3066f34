//! Tests for the streaming zero-copy segment parser.

use x12::parser::{Delimiters, Halt, Segment, SegmentHandler, SegmentParser, SegmentParserError};

const ISA: &[u8] = b"ISA*00*          *00*          *ZZ*SENDER         *ZZ*RECEIVER       *210101*1200*^*00501*000000001*0*P*:~";

struct Collect {
    segs: Vec<(Vec<u8>, Vec<Vec<u8>>, Delimiters)>,
    halt_at: Option<usize>,
    calls: usize,
}

impl Collect {
    fn new() -> Self {
        Collect { segs: Vec::new(), halt_at: None, calls: 0 }
    }

    fn reconstruct(&self) -> Vec<u8> {
        let mut out = Vec::new();
        for (id, elems, d) in &self.segs {
            out.extend_from_slice(id);
            for e in elems {
                out.push(d.element);
                out.extend_from_slice(e);
            }
            out.push(d.segment);
        }
        out
    }
}

impl SegmentHandler for Collect {
    fn log(&self) -> vstd::prelude::Seq<x12::parser::SegView> {
        unreachable!()
    }

    fn never_halts(&self) -> bool {
        self.halt_at.is_none()
    }

    fn wf(&self) -> bool {
        true
    }

    fn may_halt(&self, _segment: x12::parser::SegView, _halt: Halt) -> bool {
        self.halt_at.is_some()
    }

    fn handle(&mut self, segment: &Segment<'_>) -> Result<(), Halt> {
        self.calls += 1;
        if self.halt_at == Some(self.calls) {
            return Err(Halt::new("Handler requested halt"));
        }
        let mut elems = Vec::new();
        let mut it = segment.elements();
        while let Some(e) = it.next() {
            elems.push(e.as_bytes().to_vec());
        }
        self.segs.push((segment.id.to_vec(), elems, segment.delimiters));
        Ok(())
    }
}

fn parse(input: &[u8]) -> (Result<usize, SegmentParserError>, Collect) {
    let mut parser = SegmentParser::init();
    let mut handler = Collect::new();
    let r = parser.parse_segments(input, &mut handler);
    (r, handler)
}

#[test]
fn test_isa_exactly_106_bytes() {
    assert_eq!(ISA.len(), 106, "ISA test input must be exactly 106 bytes");
    let (r, h) = parse(ISA);
    assert_eq!(r.unwrap(), 106);
    assert_eq!(h.segs.len(), 1);
    assert_eq!(h.segs[0].0, b"ISA");
}

#[test]
fn test_delimiter_extraction_from_isa() {
    let input = b"ISA|00|          |00|          |ZZ|SENDER         |ZZ|RECEIVER       |210101|1200|*|00501|000000001|0|P|#!";
    let (r, h) = parse(input);
    assert_eq!(r.unwrap(), input.len());
    assert_eq!(h.reconstruct(), input);
    assert_eq!(h.segs.len(), 1);
    let d = h.segs[0].2;
    assert_eq!(d.element, b'|', "Element separator");
    assert_eq!(d.subelement, b'#', "Sub-element separator");
    assert_eq!(d.segment, b'!', "Segment terminator");
    assert_eq!(d.repetition, b'*', "Repetition separator");
}

#[test]
fn test_consecutive_segments() {
    let mut input = ISA.to_vec();
    input.extend_from_slice(b"GS*HC*S*R*20210101*1200*1*X*005010~ST*837*0001~");
    let (r, h) = parse(&input);
    assert_eq!(r.unwrap(), input.len());
    assert_eq!(h.segs.len(), 3);
    assert_eq!(h.segs[2].0, b"ST");
}

#[test]
fn test_large_segment_with_max_elements() {
    let mut input = ISA.to_vec();
    let mut seg = String::from("DMG");
    for i in 0..100 {
        seg.push_str(&format!("*ELEM{}", i));
    }
    seg.push('~');
    input.extend_from_slice(seg.as_bytes());
    let (r, h) = parse(&input);
    assert_eq!(r.unwrap(), input.len());
    assert_eq!(h.segs[1].0, b"DMG");
    assert_eq!(h.segs[1].1.len(), 100);
    assert_eq!(h.segs[1].1[99], b"ELEM99");
}

#[test]
fn test_binary_data_in_elements() {
    let mut input = ISA.to_vec();
    let non_utf8: &[u8] = &[0xFF, 0xFE, 0xFD];
    assert!(std::str::from_utf8(non_utf8).is_err());
    input.extend_from_slice(b"BIN*");
    input.extend_from_slice(non_utf8);
    input.push(b'~');
    let (r, h) = parse(&input);
    assert!(r.is_ok());
    assert_eq!(h.segs.len(), 2);
    assert_eq!(h.segs[1].1.len(), 1);
    assert_eq!(h.segs[1].1[0], non_utf8);
}

#[test]
fn test_incomplete_isa_segment() {
    let (r, h) = parse(b"ISA*00*          *00*          *ZZ*SENDER");
    assert!(matches!(r, Err(SegmentParserError::Incomplete)));
    assert_eq!(h.segs.len(), 0);
}

#[test]
fn test_invalid_isa_header() {
    let mut input = ISA.to_vec();
    input[0] = b'X';
    let (r, _) = parse(&input);
    match r {
        Err(SegmentParserError::Halt(h)) => assert!(h.message.contains("ISA")),
        other => panic!("Expected Halt error, got {:?}", other),
    }
}

#[test]
fn test_empty_segment_id() {
    let mut input = ISA.to_vec();
    input.extend_from_slice(b"*ELEMENT1*ELEMENT2~");
    let (r, h) = parse(&input);
    match r {
        Err(SegmentParserError::Halt(halt)) => {
            assert!(halt.message.contains("segment ID cannot be empty"));
        },
        other => panic!("Expected Halt error, got {:?}", other),
    }
    assert_eq!(h.segs.len(), 1);
}

#[test]
fn invalid_test_incomplete_regular_segment() {
    let mut input = ISA.to_vec();
    input.extend_from_slice(b"GS*HC*SENDER");
    let (r, h) = parse(&input);
    assert_eq!(
        r.unwrap(),
        106,
        "Parser should return Ok with partial parse in streaming mode"
    );
    assert_eq!(h.segs.len(), 1);
}

#[test]
fn test_error_mid_document() {
    let mut input = ISA.to_vec();
    input.extend_from_slice(b"GS*HC*SENDER*RECEIVER*20210101*1200*1*X*005010~");
    input.extend_from_slice(b"ST*837*0001~");
    input.extend_from_slice(b"*INVALID*SEGMENT~");
    input.extend_from_slice(b"SE*1*0001~");
    let (r, h) = parse(&input);
    assert!(r.is_err());
    assert_eq!(h.segs.len(), 3, "Should have parsed 3 segments before error");
    let mut expected = ISA.to_vec();
    expected.extend_from_slice(b"GS*HC*SENDER*RECEIVER*20210101*1200*1*X*005010~");
    expected.extend_from_slice(b"ST*837*0001~");
    assert_eq!(h.reconstruct(), expected);
}

#[test]
fn test_no_segment_terminator_in_buffer() {
    let mut input = ISA.to_vec();
    input.extend_from_slice(b"GS*HC");
    let (r, h) = parse(&input);
    assert_eq!(r.unwrap(), 106, "Parser returns Ok in streaming mode");
    assert_eq!(h.segs.len(), 1, "Only ISA parsed");
}

#[test]
fn test_handler_error_propagation() {
    let mut input = ISA.to_vec();
    input.extend_from_slice(b"GS*HC*S*R*20210101*1200*1*X*005010~ST*837*0001~");
    let mut parser = SegmentParser::init();
    let mut handler = Collect::new();
    handler.halt_at = Some(2);
    let r = parser.parse_segments(&input, &mut handler);
    match r {
        Err(SegmentParserError::Halt(h)) => {
            assert!(h.message.contains("Handler requested halt"));
        },
        other => panic!("Expected Halt error, got {:?}", other),
    }
    assert_eq!(handler.calls, 2, "Handler called exactly twice");
}

#[test]
fn test_buffer_contains_only_whitespace() {
    let (r, h) = parse(b"     ");
    assert!(matches!(r, Err(SegmentParserError::Incomplete)));
    assert_eq!(h.segs.len(), 0);
}

#[test]
fn invalid_test_empty_buffer() {
    let (r, h) = parse(b"");
    assert_eq!(r.unwrap(), 0);
    assert_eq!(h.segs.len(), 0);
}

#[test]
fn test_segment_terminator_with_single_newline() {
    let mut input = ISA.to_vec();
    input.extend_from_slice(b"\nGS*HC*SENDER*RECEIVER*20210101*1200*1*X*005010~");
    let (r, h) = parse(&input);
    assert!(r.is_ok(), "Parser should handle terminator-then-newline input");
    assert_eq!(h.segs.len(), 2, "Should parse 2 segments");
    assert_eq!(h.segs[0].0, b"ISA", "ISA segment ID should be correct");
    assert_eq!(h.segs[1].0, b"GS", "GS segment ID should not have leading newline");
    assert_eq!(h.segs[1].1[0], b"HC", "GS first element should be correct");
}

#[test]
fn test_segment_terminator_with_crlf() {
    let mut input = ISA.to_vec();
    input.extend_from_slice(b"\r\nGS*HC*SENDER*RECEIVER*20210101*1200*1*X*005010~");
    let (r, h) = parse(&input);
    assert!(r.is_ok(), "Parser should handle terminator-then-CRLF input");
    assert_eq!(h.segs.len(), 2, "Should parse 2 segments");
    assert_eq!(h.segs[0].0, b"ISA", "ISA segment ID should be correct");
    assert_eq!(h.segs[1].0, b"GS", "GS segment ID should not have leading CRLF");
    assert_eq!(h.segs[1].1[0], b"HC", "GS first element should be correct");
}

#[test]
fn test_multiple_newlines_between_segments() {
    let mut input = ISA.to_vec();
    input.extend_from_slice(b"\n\n\n\nGS*HC*S*R*20210101*1200*1*X*005010~");
    let (r, h) = parse(&input);
    assert!(r.is_ok(), "Parser should handle multiple newlines");
    assert_eq!(h.segs.len(), 2, "Should parse 2 segments");
    assert_eq!(h.segs[1].0, b"GS", "GS segment ID should be correct after multiple newlines");
}

#[test]
fn test_no_newlines_compact_format() {
    let mut input = ISA.to_vec();
    input.extend_from_slice(b"GS*HC*S*R*20210101*1200*1*X*005010~SE*2*0001~");
    let (r, h) = parse(&input);
    assert!(r.is_ok(), "Parser should handle compact format");
    assert_eq!(r.unwrap(), input.len());
    assert_eq!(h.segs.len(), 3);
}

#[test]
fn test_whitespace_after_segment_terminator() {
    let mut input = ISA.to_vec();
    input.extend_from_slice(b"  GS*HC*S*R*20210101*1200*1*X*005010~");
    let (r, h) = parse(&input);
    assert!(r.is_ok());
    assert_eq!(h.segs[1].0, b"  GS", "Spaces should not be skipped, only newlines");
}

#[test]
fn test_newline_as_actual_segment_terminator() {
    let mut input = ISA.to_vec();
    input[105] = b'\n';
    input.extend_from_slice(b"GS*HC*SENDER*RECEIVER*20210101*1200*1*X*005010\n");
    let (r, h) = parse(&input);
    assert!(r.is_ok(), "Parser should handle a line feed as terminator");
    assert_eq!(h.segs.len(), 2, "Should parse 2 segments");
    assert_eq!(h.segs[0].0, b"ISA");
    assert_eq!(h.segs[1].1[0], b"HC");
}

#[test]
fn test_mixed_terminators_and_newlines() {
    let mut input = ISA.to_vec();
    input.extend_from_slice(b"\nGS*HC*S*R*20210101*1200*1*X*005010~ST*837*0001~\nBHT*0019~SE*3*0001~\nGE*1*1~IEA*1*000000001~\n");
    let (r, h) = parse(&input);
    assert!(r.is_ok(), "Parser should handle real-world formatting");
    assert_eq!(h.segs.len(), 7, "Should parse all 7 segments");
    assert_eq!(h.segs[0].0, b"ISA");
    assert_eq!(h.segs[3].0, b"BHT");
    assert_eq!(h.segs[6].0, b"IEA");
}

#[test]
fn test_mixed_crlf_and_lf() {
    let mut input = ISA.to_vec();
    input.extend_from_slice(b"\r\nGS*HC*S*R*20210101*1200*1*X*005010~\nST*837*0001~");
    let (r, h) = parse(&input);
    assert!(r.is_ok(), "Parser should handle mixed line endings");
    assert_eq!(r.unwrap(), input.len());
    assert_eq!(h.segs.len(), 3);
    assert_eq!(h.segs[0].0, b"ISA");
    assert_eq!(h.segs[2].0, b"ST");
}

#[test]
fn test_multiple_crlf_between_segments() {
    let mut input = ISA.to_vec();
    input.extend_from_slice(b"\r\n\r\n\r\nGS*HC*S*R*20210101*1200*1*X*005010~");
    let (r, h) = parse(&input);
    assert!(r.is_ok(), "Parser should handle multiple CRLF");
    assert_eq!(h.segs.len(), 2);
    assert_eq!(h.segs[1].0, b"GS");
}

#[test]
fn test_mixed_newlines_and_crlf() {
    let mut input = ISA.to_vec();
    input.extend_from_slice(b"\n\r\n\nGS*HC*S*R*20210101*1200*1*X*005010~\r\n\r\nSE*2*0001~");
    let (r, h) = parse(&input);
    assert!(r.is_ok(), "Parser should handle mixed newline patterns");
    assert_eq!(r.unwrap(), input.len());
    assert_eq!(h.segs.len(), 3);
    assert_eq!(h.segs[0].0, b"ISA");
    assert_eq!(h.segs[2].0, b"SE");
}

#[test]
fn test_newlines_split_across_buffer_boundary() {
    let mut parser = SegmentParser::init();
    let mut handler = Collect::new();
    let mut chunk1 = ISA.to_vec();
    chunk1.extend_from_slice(b"\n\n\n\n\n");
    let r1 = parser.parse_segments(&chunk1, &mut handler);
    assert!(r1.is_ok(), "Should parse first chunk successfully");
    assert_eq!(r1.unwrap(), chunk1.len());
    assert_eq!(handler.segs.len(), 1, "Should have parsed ISA segment");
    let chunk2 = b"\n\n\n\n\nGS*HC*SENDER*RECEIVER*20210101*1200*1*X*005010~";
    let r2 = parser.parse_segments(chunk2, &mut handler);
    assert!(r2.is_ok(), "Should parse second chunk successfully");
    assert_eq!(handler.segs.len(), 2, "Should have parsed both segments");
    assert_eq!(
        handler.segs[1].0, b"GS",
        "GS segment ID should not have leading newlines from previous chunk"
    );
    assert_eq!(handler.segs[1].1[0], b"HC", "GS first element should be correct");
}

#[test]
fn test_minimal_isa_segment() {
    let (r, h) = parse(ISA);
    assert!(r.is_ok(), "Parser should succeed on valid ISA");
    assert_eq!(r.unwrap(), 106, "Should consume entire input");
    assert_eq!(h.segs.len(), 1, "Should parse exactly 1 segment");
    assert_eq!(h.reconstruct(), ISA, "Reconstructed output must match input");
}

fn minimal_interchange() -> Vec<u8> {
    let mut input = ISA.to_vec();
    input.extend_from_slice(b"GS*HC*SENDER*RECEIVER*20210101*1200*1*X*005010~");
    input.extend_from_slice(b"ST*837*0001~");
    input.extend_from_slice(b"SE*2*0001~");
    input.extend_from_slice(b"GE*1*1~");
    input.extend_from_slice(b"IEA*1*000000001~");
    input
}

#[test]
fn test_complete_minimal_interchange() {
    let input = minimal_interchange();
    let (r, h) = parse(&input);
    assert!(r.is_ok(), "Parser should succeed on valid interchange");
    assert_eq!(r.unwrap(), input.len());
    assert_eq!(h.segs.len(), 6, "Should parse 6 segments");
    assert_eq!(h.reconstruct(), input, "Reconstructed output must match input");
}

#[test]
fn test_multiple_transactions_in_group() {
    let mut input = ISA.to_vec();
    input.extend_from_slice(b"GS*HC*S*R*20210101*1200*1*X*005010~");
    for i in 0..3 {
        input.extend_from_slice(format!("ST*837*{:04}~", i).as_bytes());
        input.extend_from_slice(format!("SE*2*{:04}~", i).as_bytes());
    }
    input.extend_from_slice(b"GE*3*1~IEA*1*000000001~");
    let (r, h) = parse(&input);
    assert!(r.is_ok());
    assert_eq!(h.segs.len(), 10, "Should parse 10 segments");
    assert_eq!(h.reconstruct(), input);
}

#[test]
fn test_multiple_groups_in_interchange() {
    let mut input = ISA.to_vec();
    for g in 0..2 {
        input.extend_from_slice(format!("GS*HC*S*R*20210101*1200*{}*X*005010~", g).as_bytes());
        input.extend_from_slice(b"ST*837*0001~SE*2*0001~");
        input.extend_from_slice(format!("GE*1*{}~", g).as_bytes());
    }
    input.extend_from_slice(b"IEA*2*000000001~");
    let (r, h) = parse(&input);
    assert!(r.is_ok());
    assert_eq!(h.segs.len(), 10, "Should parse 10 segments");
    assert_eq!(h.reconstruct(), input);
}

#[test]
fn valid_test_empty_elements() {
    let mut input = ISA.to_vec();
    input.extend_from_slice(b"REF**A**B~");
    let (r, h) = parse(&input);
    assert!(r.is_ok());
    assert_eq!(r.unwrap(), input.len());
    assert_eq!(h.segs[1].1.len(), 4);
    assert_eq!(h.segs[1].1[0], b"");
    assert_eq!(h.segs[1].1[2], b"");
}

#[test]
fn test_trailing_element_separator() {
    let mut input = ISA.to_vec();
    input.extend_from_slice(b"REF*A*B*~");
    let (r, h) = parse(&input);
    assert!(r.is_ok());
    assert_eq!(r.unwrap(), input.len());
    assert_eq!(h.segs[1].1.len(), 3);
    assert_eq!(h.segs[1].1[2], b"");
    assert_eq!(h.segs[1].1[1], b"B");
}

#[test]
fn test_segment_with_many_elements() {
    let mut input = ISA.to_vec();
    input.extend_from_slice(b"SV1*a*b*c*d*e*f*g*h*i*j*k*l*m~");
    let (r, h) = parse(&input);
    assert!(r.is_ok());
    assert_eq!(r.unwrap(), input.len());
    assert_eq!(h.segs[1].1.len(), 13);
    assert_eq!(h.segs[1].1[12], b"m");
}

#[test]
fn test_segment_with_no_data_elements() {
    let mut input = ISA.to_vec();
    input.extend_from_slice(b"BHT~");
    let (r, h) = parse(&input);
    assert!(r.is_ok());
    assert_eq!(r.unwrap(), input.len());
    assert_eq!(h.segs.len(), 2);
    assert_eq!(h.segs[1].0, b"BHT");
    assert!(h.segs[1].1.is_empty(), "BHT has no data elements");
}

#[test]
fn test_sub_elements_composite_elements() {
    let mut input = ISA.to_vec();
    input.extend_from_slice(b"N3*123 MAIN ST:APT 4B~");
    let (r, h) = parse(&input);
    assert!(r.is_ok());
    assert_eq!(h.segs[1].1[0], b"123 MAIN ST:APT 4B");
    let e = x12::parser::Element::new(&h.segs[1].1[0]);
    let mut it = e.split_components(b':');
    assert_eq!(it.next().unwrap(), b"123 MAIN ST");
    assert_eq!(it.next().unwrap(), b"APT 4B");
}

#[test]
fn test_special_characters_in_data() {
    let mut input = ISA.to_vec();
    input.extend_from_slice(b"NTE*!@#$%&()_+=<>?~");
    let (r, h) = parse(&input);
    assert!(r.is_ok());
    assert_eq!(r.unwrap(), input.len());
    assert_eq!(h.segs[1].1[0], b"!@#$%&()_+=<>?");
}

#[test]
fn test_numeric_data_preservation() {
    let mut input = ISA.to_vec();
    input.extend_from_slice(b"AMT*B6*1234.56~QTY*90*00042~");
    let (r, h) = parse(&input);
    assert!(r.is_ok());
    assert_eq!(r.unwrap(), input.len());
    assert_eq!(h.segs[1].1[1], b"1234.56");
    assert_eq!(h.segs[2].1[1], b"00042", "Leading zeros preserved");
    assert_eq!(h.segs.len(), 3);
}

#[test]
fn test_alternative_delimiters() {
    let mut input =
        b"ISA|00|          |00|          |ZZ|SENDER         |ZZ|RECEIVER       |210101|1200|^|00501|000000001|0|P|:~"
            .to_vec();
    input.extend_from_slice(b"GS|HC|SENDER|RECEIVER|20210101|1200|1|X|005010~");
    let (r, h) = parse(&input);
    assert!(r.is_ok());
    assert_eq!(h.segs.len(), 2);
    assert_eq!(h.reconstruct(), input);
}

#[test]
fn test_whitespace_in_elements() {
    let mut input = ISA.to_vec();
    input.extend_from_slice(b"NM1*  A  * B ~");
    let (r, h) = parse(&input);
    assert!(r.is_ok());
    assert_eq!(h.segs[1].1[0], b"  A  ", "Whitespace must be preserved exactly");
    assert_eq!(h.segs[1].1[1], b" B ");
}

#[test]
fn test_long_segment_id() {
    let mut input = ISA.to_vec();
    input.extend_from_slice(b"LONGID*X~");
    let (r, h) = parse(&input);
    assert!(r.is_ok());
    assert_eq!(r.unwrap(), input.len());
    assert_eq!(h.segs[1].0, b"LONGID");
}

#[test]
fn test_two_character_segment_id() {
    let mut input = ISA.to_vec();
    input.extend_from_slice(b"GS*HC~");
    let (r, h) = parse(&input);
    assert!(r.is_ok());
    assert_eq!(r.unwrap(), input.len());
    assert_eq!(h.segs[1].0, b"GS");
}

#[test]
fn test_chunked_parsing_simulation() {
    let input = minimal_interchange();
    let mut parser = SegmentParser::init();
    let mut handler = Collect::new();
    let mut start = 0usize;
    let mut end = 0usize;
    while start < input.len() {
        end = (end + 120).min(input.len());
        let r = parser.parse_segments(&input[start..end], &mut handler);
        match r {
            Ok(n) => start += n,
            Err(e) => panic!("Unexpected error: {:?}", e),
        }
        if start == input.len() {
            break;
        }
    }
    assert_eq!(handler.segs.len(), 6);
    assert_eq!(handler.reconstruct(), input);
}

#[test]
fn test_element_count_convention() {
    let mut input = ISA.to_vec();
    input.extend_from_slice(b"NM1***VALUE3~");
    let mut parser = SegmentParser::init();
    struct Probe {
        counts: Vec<usize>,
        by_number: Vec<Option<Vec<u8>>>,
    }
    impl SegmentHandler for Probe {
        fn log(&self) -> vstd::prelude::Seq<x12::parser::SegView> {
            unreachable!()
        }

        fn never_halts(&self) -> bool {
            true
        }

        fn wf(&self) -> bool {
            true
        }

        fn may_halt(&self, _segment: x12::parser::SegView, _halt: Halt) -> bool {
            false
        }

        fn handle(&mut self, segment: &Segment<'_>) -> Result<(), Halt> {
            self.counts.push(segment.element_count());
            if segment.id == &b"NM1"[..] {
                self.by_number.push(segment.element(0).map(|e| e.as_bytes().to_vec()));
                self.by_number.push(segment.element(3).map(|e| e.as_bytes().to_vec()));
                self.by_number.push(segment.element(4).map(|e| e.as_bytes().to_vec()));
            }
            Ok(())
        }
    }
    let mut probe = Probe { counts: Vec::new(), by_number: Vec::new() };
    parser.parse_segments(&input, &mut probe).unwrap();
    assert_eq!(probe.counts, vec![17, 4]);
    assert_eq!(probe.by_number[0].as_deref(), Some(&b"NM1"[..]));
    assert_eq!(probe.by_number[1].as_deref(), Some(&b"VALUE3"[..]));
    assert_eq!(probe.by_number[2], None);
}

#[test]
fn test_utf8_views() {
    let (_, h) = parse(ISA);
    let e = x12::parser::Element::new(&h.segs[0].1[5]);
    assert_eq!(e.as_str().map(str::trim), Some("SENDER"));
    let bad = x12::parser::Element::new(&[0xff, 0xfe][..]);
    assert_eq!(bad.as_str(), None);
}

#[test]
fn test_colliding_delimiters_halt() {
    let mut input = ISA.to_vec();
    input[104] = b'*';
    let (r, h) = parse(&input);
    match r {
        Err(SegmentParserError::Halt(halt)) => {
            assert!(halt.message.contains("distinct"));
        },
        other => panic!("Expected Halt error, got {:?}", other),
    }
    assert!(h.segs.is_empty());
}

#[test]
fn test_missing_repetition_separator_halt() {
    // An element separator directly before the ISA-11 position leaves the
    // eleventh element empty, so no repetition separator can be taken.
    let mut input = ISA.to_vec();
    input[82] = b'*';
    input[83] = b'^';
    let (r, _) = parse(&input);
    match r {
        Err(SegmentParserError::Halt(halt)) => {
            assert!(halt.message.contains("repetition"));
        },
        other => panic!("Expected Halt error, got {:?}", other),
    }
}

#[test]
fn test_repetition_collision_halt() {
    // An ISA-11 byte equal to the segment terminator is an invalid
    // delimiter set.
    let mut input = ISA.to_vec();
    input[82] = b'~';
    let (r, h) = parse(&input);
    match r {
        Err(SegmentParserError::Halt(halt)) => {
            assert!(halt.message.contains("distinct"));
        },
        other => panic!("Expected Halt error, got {:?}", other),
    }
    assert!(h.segs.is_empty());
}
