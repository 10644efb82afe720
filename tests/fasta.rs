use bio_streams::error::ParseError;
use bio_streams::fasta::{Fasta, FastaState};
use bio_streams::record::Record;
use std::io::{BufRead, Cursor};

/// Runs the line-fed reader over `data`, read line by line from a cursor.
fn stream_records(data: &[u8]) -> Vec<Result<Record, ParseError>> {
    let mut reader = Cursor::new(data);
    let mut state = FastaState::new();
    let mut out = Vec::new();
    let mut line = Vec::new();
    loop {
        line.clear();
        let n = reader.read_until(b'\n', &mut line).unwrap();
        let read = if n == 0 { None } else { Some(&line[..]) };
        match state.feed(read) {
            None => {}
            Some(None) => return out,
            Some(Some(r)) => out.push(r),
        }
    }
}

#[test]
fn test_fasta_iterator() {
    let data = b">SEQ_ID_1
ACTCGATCGCGACG
ACACGATCGCGCGC
CATCGACTACGGCG
>SEQ_ID_2
GGGGGGGGGGGGGG\n";
    let mut fasta = Fasta::new(data as &[u8]);

    let record1 = fasta.next().unwrap().unwrap();
    assert_eq!(record1.fields(), b"SEQ_ID_1");
    assert_eq!(
        record1.seq::<Vec<u8>>().unwrap(),
        b"ACTCGATCGCGACGACACGATCGCGCGCCATCGACTACGGCG".to_vec()
    );

    let record2 = fasta
        .next()
        .expect("Expected a record")
        .expect("Expected valid record");
    assert_eq!(record2.fields(), b"SEQ_ID_2");
    assert_eq!(record2.seq::<Vec<u8>>().unwrap(), b"GGGGGGGGGGGGGG".to_vec());

    assert!(fasta.next().is_none(), "Expected no more records");
}

#[test]
fn test_fasta_poll_next() {
    let data = b">SEQ_ID_1
AAAAAAAAAAAAAA
CCCCCCCCCCCCC
GGGGGGGGGGGG
>SEQ_ID_2
TTTTTTTTTTT\n";
    let mut fasta = Fasta::new(data as &[u8]);

    match fasta.next() {
        Some(Ok(record)) => {
            assert_eq!(record.fields(), b"SEQ_ID_1");
            assert_eq!(
                record.seq::<Vec<u8>>().unwrap(),
                b"AAAAAAAAAAAAAACCCCCCCCCCCCCGGGGGGGGGGGG".to_vec()
            );
        }
        _ => panic!("Unexpected result"),
    }

    match fasta.next() {
        Some(Ok(record)) => {
            assert_eq!(record.fields(), b"SEQ_ID_2");
            assert_eq!(record.seq::<Vec<u8>>().unwrap(), b"TTTTTTTTTTT".to_vec());
        }
        e => panic!("Unexpected result {:?}", e),
    }

    assert_eq!(fasta.next(), None);
}

#[test]
fn test_fasta_poll_next_with_crlf() {
    let data = b">SEQ_ID_1\r\nAAAAAAAAAAAAAA\r\nCCCCCCCCCCCCC\r\nGGGGGGGGGGGG\r\n>SEQ_ID_2\r\nTTTTTTTTTTT";
    let mut fasta = Fasta::new(data as &[u8]);

    match fasta.next() {
        Some(Ok(record)) => {
            assert_eq!(record.fields(), b"SEQ_ID_1");
            assert_eq!(
                record.seq::<Vec<u8>>().unwrap(),
                b"AAAAAAAAAAAAAACCCCCCCCCCCCCGGGGGGGGGGGG".to_vec()
            );
        }
        _ => panic!("Unexpected result"),
    }

    match fasta.next() {
        Some(Ok(record)) => {
            assert_eq!(record.fields(), b"SEQ_ID_2");
            assert_eq!(record.seq::<Vec<u8>>().unwrap(), b"TTTTTTTTTTT".to_vec());
        }
        e => panic!("Unexpected result {:?}", e),
    }

    assert_eq!(fasta.next(), None);
}

#[test]
fn test_fasta_poll_next_no_eol() {
    let data = b">SEQ_ID_X\nAAAAAAAAAAAAAACCCCCCCCCCCCCGGGGGGGGGGGGACGTAAA";
    let mut fasta = Fasta::new(data as &[u8]);

    match fasta.next() {
        Some(Ok(record)) => {
            assert_eq!(record.fields(), b"SEQ_ID_X");
            assert_eq!(
                record.seq::<Vec<u8>>().unwrap(),
                b"AAAAAAAAAAAAAACCCCCCCCCCCCCGGGGGGGGGGGGACGTAAA".to_vec()
            );
        }
        _ => panic!("Unexpected result"),
    }

    assert_eq!(fasta.next(), None);
}

#[test]
fn fasta_two_records() {
    let data = b">SEQ_ID_1\nACTG\nACGT\n>SEQ_ID_2\nGGGG\n";
    let mut fasta = Fasta::new(data as &[u8]);
    let r1 = fasta.next().unwrap().unwrap();
    assert_eq!(r1.fields(), b"SEQ_ID_1");
    assert_eq!(r1.raw_seq, b"ACTGACGT".to_vec());
    assert_eq!(r1.raw_quality, None);
    let r2 = fasta.next().unwrap().unwrap();
    assert_eq!(r2.fields(), b"SEQ_ID_2");
    assert_eq!(r2.raw_seq, b"GGGG".to_vec());
    assert!(fasta.next().is_none());
    assert!(fasta.next().is_none());
}

#[test]
fn fasta_crlf_leaves_no_carriage_return() {
    let data = b">SEQ_ID_1\r\nAAAA\r\nCCCC\r\n";
    let mut fasta = Fasta::new(data as &[u8]);
    let r = fasta.next().unwrap().unwrap();
    assert_eq!(r.fields(), b"SEQ_ID_1");
    assert_eq!(r.raw_seq, b"AAAACCCC".to_vec());
    assert!(!r.raw_fields.contains(&b'\r'));
    assert!(!r.raw_seq.contains(&b'\r'));
    assert!(fasta.next().is_none());
}

#[test]
fn fasta_empty_input() {
    let mut fasta = Fasta::new(b"");
    assert!(fasta.next().is_none());
    assert!(fasta.next().is_none());
}

#[test]
fn fasta_header_without_sequence() {
    let mut fasta = Fasta::new(b">only\n");
    let r = fasta.next().unwrap().unwrap();
    assert_eq!(r.fields(), b"only");
    assert!(r.raw_seq.is_empty());
    assert!(fasta.next().is_none());
}

#[test]
fn fasta_missing_header() {
    let mut fasta = Fasta::new(b"ACGT\n>id\nGG\n");
    assert_eq!(
        fasta.next(),
        Some(Err(ParseError::InvalidId("ACGT".to_string())))
    );
    let r = fasta.next().unwrap().unwrap();
    assert_eq!(r.fields(), b"id");
    assert_eq!(r.raw_seq, b"GG".to_vec());
}

#[test]
fn fasta_quality_is_absent() {
    let mut fasta = Fasta::new(b">a\nAC\n");
    let r = fasta.next().unwrap().unwrap();
    assert_eq!(r.quality(), Err(ParseError::InvalidQuality));
}

#[test]
fn fasta_stream_matches_in_memory() {
    let data: &[u8] = b">SEQ_ID_1\r\nACTG\r\nACGT\n\n>SEQ_ID_2\nGGGG";
    let streamed = stream_records(data);
    let mut fasta = Fasta::new(data);
    let mut in_memory = Vec::new();
    while let Some(r) = fasta.next() {
        in_memory.push(r);
    }
    assert_eq!(streamed, in_memory);
    assert_eq!(streamed.len(), 2);
    assert_eq!(streamed[0].as_ref().unwrap().raw_seq, b"ACTGACGT".to_vec());
    assert_eq!(streamed[1].as_ref().unwrap().raw_seq, b"GGGG".to_vec());
}

#[test]
fn fasta_stream_empty_and_invalid() {
    assert!(stream_records(b"").is_empty());
    let mut state = FastaState::new();
    assert_eq!(
        state.feed(Some(b"xyz\n")),
        Some(Some(Err(ParseError::InvalidId("xyz".to_string()))))
    );
    assert_eq!(state.feed(Some(b">a\r\n")), None);
    assert_eq!(state.feed(Some(b"AC\r\n")), None);
    let r = state.feed(Some(b">b\n")).unwrap().unwrap().unwrap();
    assert_eq!(r.fields(), b"a");
    assert_eq!(r.raw_seq, b"AC".to_vec());
    let r = state.feed(None).unwrap().unwrap().unwrap();
    assert_eq!(r.fields(), b"b");
    assert!(r.raw_seq.is_empty());
    assert_eq!(state.feed(None), Some(None));
}

#[test]
fn fasta_stops_at_first_error_when_asked() {
    let mut fasta = Fasta::stopping_at_first_error(b"ACGT\n>id\nGG\n");
    assert_eq!(
        fasta.next(),
        Some(Err(ParseError::InvalidId("ACGT".to_string())))
    );
    assert_eq!(fasta.next(), None);
}
