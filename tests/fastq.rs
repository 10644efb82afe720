use bio_streams::error::ParseError;
use bio_streams::fastq::{build_record, Fastq};
use bio_streams::record::{Phred, Record};

const FQ1: &'static [u8] = b"@SEQ_ID_1
ACTCGATCGCGACGAA
+
AFFFFFFFFFFFFEBA
@SEQ_ID_2
CATCGACTACGGCG
+
GGGGGGGGGGGGGG\n";

#[test]
fn test_fastq_iterator() {
    let mut fastq = Fastq::new(FQ1);

    let record1: Record = fastq.next().unwrap().unwrap();
    assert_eq!(record1.raw_fields, b"SEQ_ID_1");
    assert_eq!(record1.raw_seq, b"ACTCGATCGCGACGAA");
    assert_eq!(record1.raw_quality.unwrap(), b"AFFFFFFFFFFFFEBA");

    let record2 = fastq
        .next()
        .expect("Expected a record")
        .expect("Expected valid record");
    assert_eq!(record2.raw_fields, b"SEQ_ID_2".to_vec());
    assert_eq!(record2.raw_seq, b"CATCGACTACGGCG");

    assert!(fastq.next().is_none(), "Expected no more records");
}

#[test]
fn fastq_two_records() {
    let mut fastq = Fastq::new(b"@SEQ_ID_1\nACGT\n+\nFFFF\n@SEQ_ID_2\nTTTT\n+\nGGGG\n");
    let r1 = fastq.next().unwrap().unwrap();
    assert_eq!(r1.fields(), b"SEQ_ID_1");
    assert_eq!(r1.raw_quality.as_ref().unwrap().len(), 4);
    let r2 = fastq.next().unwrap().unwrap();
    assert_eq!(r2.fields(), b"SEQ_ID_2");
    assert_eq!(r2.raw_seq, b"TTTT".to_vec());
    assert_eq!(r2.raw_quality.as_ref().unwrap().len(), 4);
    assert!(fastq.next().is_none());
    assert!(fastq.next().is_none());
}

#[test]
fn fastq_length_mismatch() {
    let mut fastq = Fastq::new(b"@SEQ_ID_1\nACGT\n+\nFF\n");
    assert_eq!(fastq.next(), Some(Err(ParseError::InvalidQuality)));
}

#[test]
fn fastq_missing_separator() {
    let mut fastq = Fastq::new(b"@SEQ_ID_1\nACGT\nXYZ\nFFFF\n");
    assert_eq!(fastq.next(), Some(Err(ParseError::InvalidSeparationLine)));
}

#[test]
fn fastq_separator_with_text() {
    let mut fastq = Fastq::new(b"@a\nAC\n+a\nFF\n");
    assert_eq!(fastq.next(), Some(Err(ParseError::InvalidSeparationLine)));
}

#[test]
fn fastq_invalid_id() {
    let mut fastq = Fastq::new(b">a\nAC\n+\nFF\n");
    assert_eq!(fastq.next(), Some(Err(ParseError::InvalidId(">a".to_string()))));
}

#[test]
fn fastq_truncated() {
    assert_eq!(
        Fastq::new(b"@a\nAC\n").next(),
        Some(Err(ParseError::TruncatedRecord))
    );
    assert_eq!(
        Fastq::new(b"@a\nAC\n+\n").next(),
        Some(Err(ParseError::TruncatedRecord))
    );
    assert_eq!(
        Fastq::new(b"@a\n").next(),
        Some(Err(ParseError::TruncatedRecord))
    );
}

#[test]
fn fastq_id_checked_before_truncation() {
    assert_eq!(
        Fastq::new(b"a\n").next(),
        Some(Err(ParseError::InvalidId("a".to_string())))
    );
}

#[test]
fn fastq_empty_input() {
    let mut fastq = Fastq::new(b"");
    assert!(fastq.next().is_none());
    assert!(fastq.next().is_none());
}

#[test]
fn fastq_no_trailing_newline() {
    let mut fastq = Fastq::new(b"@r\nACGT\n+\nIIII");
    let r = fastq.next().unwrap().unwrap();
    assert_eq!(r.fields(), b"r");
    assert_eq!(r.raw_seq, b"ACGT".to_vec());
    assert_eq!(r.raw_quality, Some(b"IIII".to_vec()));
    assert!(fastq.next().is_none());
}

#[test]
fn fastq_crlf() {
    let mut fastq = Fastq::new(b"@r\r\nAC\r\n+\r\nII\r\n");
    let r = fastq.next().unwrap().unwrap();
    assert_eq!(r.fields(), b"r");
    assert_eq!(r.raw_seq, b"AC".to_vec());
    assert_eq!(r.raw_quality, Some(b"II".to_vec()));
}

#[test]
fn fastq_quality_scores() {
    let mut fastq = Fastq::new(b"@r\nAC\n+\n!I\n");
    let r = fastq.next().unwrap().unwrap();
    let q = r.quality().unwrap();
    assert_eq!(q, vec![Phred(b'!'), Phred(b'I')]);
    assert_eq!(q[1].score(), Some(40));
}

#[test]
fn build_record_from_lines() {
    let lines: [&[u8]; 4] = [b"@x\n", b"GATTACA\n", b"+\n", b"IIIIIII"];
    let r = build_record(&lines).unwrap().unwrap();
    assert_eq!(r.fields(), b"x");
    assert_eq!(r.raw_seq, b"GATTACA".to_vec());
    assert_eq!(build_record(&[]), None);
    let short: [&[u8]; 2] = [b"@x\n", b"GATTACA\n"];
    assert_eq!(build_record(&short), Some(Err(ParseError::TruncatedRecord)));
}

#[test]
fn fastq_continues_after_error_by_default() {
    let data: &[u8] = b"@a
AC
X
II
@b
AC
+
II
";
    let mut fastq = Fastq::new(data);
    assert_eq!(fastq.next(), Some(Err(ParseError::InvalidSeparationLine)));
    assert_eq!(fastq.next().unwrap().unwrap().fields(), b"b");
}

#[test]
fn fastq_stops_at_first_error_when_asked() {
    let data: &[u8] = b"@a
AC
X
II
@b
AC
+
II
";
    let mut fastq = Fastq::stopping_at_first_error(data);
    assert_eq!(fastq.next(), Some(Err(ParseError::InvalidSeparationLine)));
    assert_eq!(fastq.next(), None);
    assert_eq!(fastq.next(), None);
}
