//! Tests for the eager one-segment-at-a-time parser.

use x12::segment::{Delimiters, Element, Parser, ParserError, Segment, SegmentHandler};

struct Recorder {
    segments: usize,
    ids: Vec<Vec<u8>>,
    elements: Vec<Vec<Vec<u8>>>,
}

impl Recorder {
    fn new() -> Self {
        Recorder { segments: 0, ids: Vec::new(), elements: Vec::new() }
    }
}

impl SegmentHandler for Recorder {
    fn seen(&self) -> vstd::prelude::Seq<x12::segment::ElemsView> {
        unreachable!()
    }

    fn never_errs(&self) -> bool {
        true
    }

    fn may_err(
        &self,
        _segment: x12::segment::ElemsView,
        _err: ParserError,
    ) -> bool {
        false
    }

    fn handle(&mut self, segment: &Segment<'_>) -> Result<(), ParserError> {
        self.segments += 1;
        self.ids.push(segment.id.to_vec());
        self.elements
            .push(segment.elements.iter().map(|e| e.as_bytes().to_vec()).collect());
        Ok(())
    }
}

const ISA: &[u8] = b"ISA*00*          *00*          *ZZ*SENDER         *ZZ*RECEIVER       *210101*1200*^*00501*000000001*0*P*:~";

#[test]
fn test_parse_isa_segment() {
    let mut parser = Parser::new();
    let mut handler = Recorder::new();
    let data = b"ISA*00*          *00*          *ZZ*SENDER         *ZZ*RECEIVER       *231213*1430*^*00501*000000001*0*P*:~";
    let result = parser.parse_segment(data, &mut handler);
    assert!(result.is_ok());
    assert_eq!(result.unwrap(), 106);
    assert_eq!(handler.segments, 1);
    assert!(parser.is_initialized());
}

#[test]
fn test_parse_incomplete() {
    let mut parser = Parser::new();
    let mut handler = Recorder::new();
    let data = b"ISA*00*          *00*";
    let result = parser.parse_segment(data, &mut handler);
    assert_eq!(result, Err(ParserError::Incomplete));
}

#[test]
fn test_parse_regular_segment() {
    let mut parser = Parser::new();
    parser.set_delimiters(Delimiters::default());
    let mut handler = Recorder::new();
    let data = b"ST*837*0001*005010X222A1~";
    let result = parser.parse_segment(data, &mut handler);
    assert!(result.is_ok());
    assert_eq!(result.unwrap(), 25);
    assert_eq!(handler.segments, 1);
}

#[test]
fn test_element_access() {
    let element = Element::new(b"TEST");
    assert_eq!(element.as_bytes(), b"TEST");
    assert_eq!(element.as_str(), Some("TEST"));
    assert!(!element.is_empty());
}

#[test]
fn test_component_split() {
    let element = Element::new(b"AA:BB:CC");
    let mut it = element.split_components(b':');
    let mut components: Vec<Vec<u8>> = Vec::new();
    while let Some(c) = it.next() {
        components.push(c.to_vec());
    }
    assert_eq!(components.len(), 3);
    assert_eq!(components[0], b"AA");
    assert_eq!(components[1], b"BB");
    assert_eq!(components[2], b"CC");
}

fn parse_all(parser: &mut Parser, mut data: &[u8], handler: &mut Recorder) -> Result<(), ParserError> {
    while !data.is_empty() {
        let n = parser.parse_segment(data, handler)?;
        data = &data[n..];
    }
    Ok(())
}

#[test]
fn test_complete_837_document() {
    let mut doc = Vec::new();
    doc.extend_from_slice(ISA);
    doc.extend_from_slice(b"GS*HC*SENDER*RECEIVER*20210101*1200*1*X*005010~");
    doc.extend_from_slice(b"ST*837*0001~");
    doc.extend_from_slice(b"BHT*0019*00*123*20210101*1200*CH~");
    doc.extend_from_slice(b"SE*4*0001~");
    doc.extend_from_slice(b"GE*1*1~");
    doc.extend_from_slice(b"IEA*1*000000001~");
    let mut parser = Parser::new();
    let mut handler = Recorder::new();
    let result = parse_all(&mut parser, &doc, &mut handler);
    assert!(result.is_ok(), "Parse error: {:?}", result);
}

#[test]
fn test_incomplete_isa() {
    let mut parser = Parser::new();
    let mut handler = Recorder::new();
    let result = parser.parse_segment(b"ISA*00*          *00*", &mut handler);
    assert_eq!(result, Err(ParserError::Incomplete));
}

#[test]
fn integration_tests_test_incomplete_regular_segment() {
    let mut parser = Parser::new();
    parser.set_delimiters(Delimiters::default());
    let mut handler = Recorder::new();
    let result = parser.parse_segment(b"ST*837*0001", &mut handler);
    assert_eq!(result, Err(ParserError::Incomplete));
}

#[test]
fn test_invalid_segment_id() {
    let mut parser = Parser::new();
    parser.set_delimiters(Delimiters::default());
    let mut handler = Recorder::new();
    let result = parser.parse_segment(b"1*element~", &mut handler);
    assert_eq!(result, Err(ParserError::InvalidSegmentId));
}

#[test]
fn test_element_splitting() {
    let mut parser = Parser::new();
    parser.set_delimiters(Delimiters::default());
    let mut handler = Recorder::new();
    parser
        .parse_segment(b"REF*VALUE1:VALUE2:VALUE3~", &mut handler)
        .unwrap();
    assert_eq!(handler.elements[0][0], b"VALUE1:VALUE2:VALUE3");
    let element = Element::new(&handler.elements[0][0]);
    let mut it = element.split_components(b':');
    assert_eq!(it.next().unwrap(), b"VALUE1");
    assert_eq!(it.next().unwrap(), b"VALUE2");
    assert_eq!(it.next().unwrap(), b"VALUE3");
}

#[test]
fn integration_tests_test_empty_elements() {
    let element = Element::new(b"A:B:");
    let mut it = element.split_components(b':');
    let mut components: Vec<Vec<u8>> = Vec::new();
    while let Some(c) = it.next() {
        components.push(c.to_vec());
    }
    assert_eq!(components.len(), 3);
    assert_eq!(components[0], b"A");
    assert_eq!(components[1], b"B");
    assert_eq!(components[2], b"");
}

#[test]
fn test_segment_element_access() {
    let mut parser = Parser::new();
    parser.set_delimiters(Delimiters::default());
    let mut handler = Recorder::new();
    parser.parse_segment(b"NM1*1*2*3~", &mut handler).unwrap();
    assert_eq!(handler.elements[0][0], b"1");
    assert_eq!(handler.elements[0][2], b"3");
}

#[test]
fn test_multiple_segments_in_sequence() {
    let mut doc = Vec::new();
    doc.extend_from_slice(ISA);
    doc.extend_from_slice(b"GS*HC*SENDER*RECEIVER*20210101*1200*1*X*005010~");
    doc.extend_from_slice(b"ST*837*0001~");
    let mut parser = Parser::new();
    let mut handler = Recorder::new();
    let first = parser.parse_segment(&doc, &mut handler).unwrap();
    assert_eq!(first, 106);
    parse_all(&mut parser, &doc[first..], &mut handler).unwrap();
    assert_eq!(handler.segments, 3);
    assert_eq!(handler.ids[2], b"ST");
}

#[test]
fn test_custom_delimiters() {
    let alt: Vec<u8> = ISA
        .iter()
        .map(|&b| match b {
            b'*' => b'|',
            b':' => b'#',
            b'~' => b'!',
            b'^' => b'*',
            other => other,
        })
        .collect();
    let mut parser = Parser::new();
    let mut handler = Recorder::new();
    let n = parser.parse_segment(&alt, &mut handler).unwrap();
    assert_eq!(n, 106);
    let d = parser.delimiters();
    assert_eq!(d.element, b'|');
    assert_eq!(d.segment, b'!');
    let n2 = parser.parse_segment(b"GS|HC!", &mut handler).unwrap();
    assert_eq!(n2, 6);
}

#[test]
fn test_required_element_missing() {
    let mut parser = Parser::new();
    parser.set_delimiters(Delimiters::default());
    let mut handler = Recorder::new();
    parser.parse_segment(b"NM1*A*B~", &mut handler).unwrap();
    let segment = Segment {
        id: b"NM1",
        elements: vec![Element::new(b"A"), Element::new(b"B")],
        delimiters: Delimiters::default(),
    };
    assert_eq!(
        segment.required_element(100).err(),
        Some(ParserError::MissingRequiredElement)
    );
}

#[test]
fn test_parser_reset() {
    let mut parser = Parser::new();
    let mut handler = Recorder::new();
    parser.parse_segment(ISA, &mut handler).unwrap();
    assert!(parser.is_initialized());
    parser.reset();
    assert!(!parser.is_initialized());
}

#[test]
fn test_utf8_element_conversion() {
    let mut parser = Parser::new();
    let mut handler = Recorder::new();
    parser.parse_segment(ISA, &mut handler).unwrap();
    let sender = Element::new(&handler.elements[0][5]);
    assert!(sender.as_str().unwrap().contains("SENDER"));
}

#[test]
fn test_segment_id_validation() {
    for (data, ok) in [
        (&b"A*element~"[..], false),
        (&b"ABCD*element~"[..], false),
        (&b"ST*element~"[..], true),
        (&b"ISA*element~"[..], true),
    ] {
        let mut parser = Parser::new();
        parser.set_delimiters(Delimiters::default());
        let mut handler = Recorder::new();
        let result = parser.parse_segment(data, &mut handler);
        assert_eq!(result.is_ok(), ok, "unexpected verdict for {:?}", data);
    }
}

#[test]
fn integration_tests_test_empty_buffer() {
    let mut parser = Parser::new();
    let mut handler = Recorder::new();
    assert_eq!(parser.parse_segment(b"", &mut handler), Err(ParserError::Incomplete));
}

#[test]
fn test_segment_with_no_elements() {
    let mut parser = Parser::new();
    parser.set_delimiters(Delimiters::default());
    let mut handler = Recorder::new();
    parser.parse_segment(b"SE~", &mut handler).unwrap();
    assert!(handler.elements[0].is_empty());
}

#[test]
fn test_segment_with_empty_elements() {
    let mut parser = Parser::new();
    parser.set_delimiters(Delimiters::default());
    let mut handler = Recorder::new();
    parser.parse_segment(b"NM1***VALUE3~", &mut handler).unwrap();
    assert_eq!(handler.elements[0].len(), 3);
    assert_eq!(handler.elements[0][2], b"VALUE3");
}

#[test]
fn test_isa_keeps_default_repetition_on_segment() {
    // The parser adopts the byte at the fixed ISA-11 offset as the
    // repetition separator; the delivered segment keeps the default.
    let mut with_rep = ISA.to_vec();
    with_rep[72] = b'+';
    let mut parser = Parser::new();
    let mut handler = Recorder::new();
    parser.parse_segment(&with_rep, &mut handler).unwrap();
    assert_eq!(parser.delimiters().repetition, b'+');
}

#[test]
fn test_isa_fixed_field_widths() {
    let mut parser = Parser::new();
    let mut handler = Recorder::new();
    parser.parse_segment(ISA, &mut handler).unwrap();
    assert_eq!(handler.elements[0].len(), 16);
    let positions = [
        (4usize, 6usize),
        (6, 16),
        (16, 18),
        (18, 28),
        (28, 30),
        (30, 45),
        (45, 47),
        (47, 62),
        (62, 68),
        (68, 72),
        (72, 73),
        (73, 78),
        (78, 87),
        (87, 88),
        (88, 89),
        (89, 90),
    ];
    for (i, &(lo, hi)) in positions.iter().enumerate() {
        assert_eq!(handler.elements[0][i], &ISA[lo..hi], "field {}", i);
    }
}

#[test]
fn test_lone_trailing_separator_keeps_one_empty_element() {
    let mut parser = Parser::new();
    parser.set_delimiters(Delimiters::default());
    let mut handler = Recorder::new();
    parser.parse_segment(b"ST*~", &mut handler).unwrap();
    assert_eq!(handler.elements[0].len(), 1);
    assert_eq!(handler.elements[0][0], b"");
}

#[test]
fn test_invalid_delimiters() {
    let mut data = ISA.to_vec();
    data[104] = b'*';
    let mut parser = Parser::new();
    let mut handler = Recorder::new();
    assert_eq!(
        parser.parse_segment(&data, &mut handler),
        Err(ParserError::InvalidDelimiters)
    );
}

#[test]
fn test_element_count_limit() {
    let mut data = b"AB".to_vec();
    for _ in 0..513 {
        data.extend_from_slice(b"*x");
    }
    data.push(b'~');
    let mut parser = Parser::new();
    parser.set_delimiters(Delimiters::default());
    let mut handler = Recorder::new();
    assert_eq!(
        parser.parse_segment(&data, &mut handler),
        Err(ParserError::InvalidElementCount)
    );
}

#[test]
fn test_repetition_byte_collision() {
    // The fixed ISA-11 byte must differ from the three announced
    // delimiters.
    let mut data = ISA.to_vec();
    data[72] = b'*';
    let mut parser = Parser::new();
    let mut handler = Recorder::new();
    assert_eq!(
        parser.parse_segment(&data, &mut handler),
        Err(ParserError::InvalidDelimiters)
    );
}
