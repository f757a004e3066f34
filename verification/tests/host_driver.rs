//! Tests for the chunked host driver.

use x12::host::{ByteSource, SourceError, StreamingParser, StreamingParserError};
use x12::parser::{Halt, Segment, SegmentHandler};
use x12::validation::ValidationSuite;

const ISA: &[u8] = b"ISA*00*          *00*          *ZZ*SENDER         *ZZ*RECEIVER       *210101*1200*^*00501*000000001*0*P*:~";

/// A byte source that hands out a fixed byte string at most `chunk` bytes
/// per read.
struct ChunkSource {
    data: Vec<u8>,
    pos: usize,
    chunk: usize,
}

impl ByteSource for ChunkSource {
    fn stream(&self) -> vstd::prelude::Seq<u8> {
        unreachable!()
    }

    fn read_into(&mut self, buf: &mut Vec<u8>, from: usize) -> Result<usize, SourceError> {
        let space = buf.len() - from;
        let n = space.min(self.chunk).min(self.data.len() - self.pos);
        buf[from..from + n].copy_from_slice(&self.data[self.pos..self.pos + n]);
        self.pos += n;
        Ok(n)
    }
}

struct Ids {
    ids: Vec<Vec<u8>>,
}

impl SegmentHandler for Ids {
    fn log(&self) -> vstd::prelude::Seq<x12::parser::SegView> {
        unreachable!()
    }

    fn never_halts(&self) -> bool {
        true
    }

    fn wf(&self) -> bool {
        true
    }

    fn may_halt(&self, _segment: x12::parser::SegView, _halt: Halt) -> bool {
        false
    }

    fn handle(&mut self, segment: &Segment<'_>) -> Result<(), Halt> {
        self.ids.push(segment.id.to_vec());
        Ok(())
    }
}

fn envelope() -> Vec<u8> {
    let mut input = ISA.to_vec();
    input.extend_from_slice(b"GS*HC*SENDER*RECEIVER*20210101*1200*7*X*005010~");
    input.extend_from_slice(b"ST*837*0001~");
    input.extend_from_slice(b"SE*2*0001~");
    input.extend_from_slice(b"GE*1*7~");
    input.extend_from_slice(b"IEA*1*000000001~");
    input
}

#[test]
fn test_terminator_newline_streaming() {
    let mut data = ISA.to_vec();
    data.extend_from_slice(b"\n\n\n\n\n");
    data.extend_from_slice(b"GS*HC*SENDER*RECEIVER*20210101*1200*1*X*005010~");
    let len = data.len();
    // The first read ends in the middle of the newline run.
    let mut source = ChunkSource { data, pos: 0, chunk: 108 };
    let mut driver = StreamingParser::new(Ids { ids: Vec::new() });
    let total = driver.parse_reader(&mut source).expect("parse should succeed");
    assert_eq!(total, len);
    assert_eq!(driver.handler().ids.len(), 2);
    assert_eq!(driver.handler().ids[1], b"GS");
}

#[test]
fn test_split_mid_segment() {
    let data = envelope();
    let len = data.len();
    let mut source = ChunkSource { data, pos: 0, chunk: 7 };
    let mut driver = StreamingParser::new(Ids { ids: Vec::new() });
    let total = driver.parse_reader(&mut source).expect("parse should succeed");
    assert_eq!(total, len);
    assert_eq!(
        driver.handler().ids,
        vec![
            b"ISA".to_vec(),
            b"GS".to_vec(),
            b"ST".to_vec(),
            b"SE".to_vec(),
            b"GE".to_vec(),
            b"IEA".to_vec()
        ]
    );
    assert_eq!(driver.stats().bytes_read, len);
    assert_eq!(driver.stats().segments_parsed, 6);
}

#[test]
fn test_chunked_equals_single_shot() {
    let data = envelope();
    let mut single = StreamingParser::new(Ids { ids: Vec::new() });
    single
        .parse_reader(&mut ChunkSource { data: data.clone(), pos: 0, chunk: data.len() })
        .unwrap();
    for chunk in [1, 3, 11, 50] {
        let mut driver = StreamingParser::new(Ids { ids: Vec::new() });
        driver
            .parse_reader(&mut ChunkSource { data: data.clone(), pos: 0, chunk })
            .unwrap();
        assert_eq!(driver.handler().ids, single.handler().ids, "chunk size {}", chunk);
        assert_eq!(
            driver.stats().segments_parsed,
            single.stats().segments_parsed
        );
    }
}

#[test]
fn test_growth_within_cap_succeeds() {
    let mut data = ISA.to_vec();
    data.extend_from_slice(b"NTE*");
    data.extend(std::iter::repeat(b'x').take(5000));
    data.push(b'~');
    let len = data.len();
    let mut source = ChunkSource { data, pos: 0, chunk: 64 };
    let mut driver =
        StreamingParser::with_config(Ids { ids: Vec::new() }, 128, 16384, 2);
    let total = driver.parse_reader(&mut source).expect("parse should succeed");
    assert_eq!(total, len);
    assert_eq!(driver.handler().ids.len(), 2);
    assert!(driver.stats().buffer_resizes >= 1);
    assert!(driver.stats().max_buffer_size > 128);
}

#[test]
fn test_oversized_segment() {
    let mut data = ISA.to_vec();
    data.extend_from_slice(b"NTE*");
    data.extend(std::iter::repeat(b'x').take(3000));
    data.push(b'~');
    let mut source = ChunkSource { data, pos: 0, chunk: 64 };
    let mut driver = StreamingParser::with_config(Ids { ids: Vec::new() }, 128, 1024, 2);
    let result = driver.parse_reader(&mut source);
    match result {
        Err(StreamingParserError::Halt(h)) => {
            assert_eq!(h.message, "segment exceeds maximum buffer size");
        },
        other => panic!("expected a halt, got {:?}", other),
    }
    assert_eq!(driver.handler().ids, vec![b"ISA".to_vec()]);
    assert!(driver.stats().buffer_resizes >= 1);
    assert_eq!(driver.stats().max_buffer_size, 1024);
}

#[test]
fn test_incomplete_segment_at_end() {
    let mut data = ISA.to_vec();
    data.extend_from_slice(b"GS*HC*SENDER");
    let mut source = ChunkSource { data, pos: 0, chunk: 32 };
    let mut driver = StreamingParser::new(Ids { ids: Vec::new() });
    let result = driver.parse_reader(&mut source);
    match result {
        Err(StreamingParserError::Halt(h)) => {
            assert_eq!(h.message, "incomplete segment at end of input");
        },
        other => panic!("expected a halt, got {:?}", other),
    }
    assert_eq!(driver.handler().ids, vec![b"ISA".to_vec()]);
}

#[test]
fn test_driver_with_validation_suite() {
    let data = envelope();
    let mut source = ChunkSource { data, pos: 0, chunk: 16 };
    let mut driver = StreamingParser::new(ValidationSuite::all_snip_levels());
    driver.parse_reader(&mut source).expect("parse should succeed");
    assert_eq!(driver.handler().error_count(), 0);
}

#[test]
fn test_empty_source() {
    let mut source = ChunkSource { data: Vec::new(), pos: 0, chunk: 16 };
    let mut driver = StreamingParser::new(Ids { ids: Vec::new() });
    let total = driver.parse_reader(&mut source).unwrap();
    assert_eq!(total, 0);
    assert!(driver.handler().ids.is_empty());
}

#[test]
fn test_trailing_newlines_consumed() {
    let mut data = ISA.to_vec();
    data.extend_from_slice(b"\n\r\n\n");
    let len = data.len();
    let mut source = ChunkSource { data, pos: 0, chunk: 9 };
    let mut driver = StreamingParser::new(Ids { ids: Vec::new() });
    let total = driver.parse_reader(&mut source).unwrap();
    assert_eq!(total, len);
    assert_eq!(driver.handler().ids.len(), 1);
}

#[test]
fn test_buffer_source() {
    let data = envelope();
    let len = data.len();
    let mut source = x12::host::BufferSource::new(data);
    let mut driver = StreamingParser::new(Ids { ids: Vec::new() });
    let total = driver.parse_reader(&mut source).unwrap();
    assert_eq!(total, len);
    assert_eq!(driver.handler().ids.len(), 6);
}
