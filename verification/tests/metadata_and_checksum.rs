use genome_mirror::checksum::{digest, verify_bytes, VerifyOutcome};
use genome_mirror::metadata::{FileState, MetaRecord, MetadataDocument, parse_document};
use genome_mirror::numfmt::{format_u64, parse_u64};

#[test]
fn digest_matches_published_values() {
    assert_eq!(digest(b""), b"d41d8cd98f00b204e9800998ecf8427e".to_vec());
    assert_eq!(digest(b"abc"), b"900150983cd24fb0d6963f7d28e17f72".to_vec());
}

#[test]
fn verification_flags_mutated_content() {
    let published = digest(b"ACGTACGT");
    assert_eq!(
        verify_bytes(b"ACGTACGT", published.as_slice()),
        VerifyOutcome::DigestMatch
    );
    // one byte flipped after the fetch: never again a match
    assert_eq!(
        verify_bytes(b"ACGTACGA", published.as_slice()),
        VerifyOutcome::DigestMismatch
    );
}

#[test]
fn decimal_round_trip() {
    assert_eq!(format_u64(0), b"0".to_vec());
    assert_eq!(format_u64(18446744073709551615), b"18446744073709551615".to_vec());
    assert_eq!(parse_u64(b"12345"), Some(12345));
    assert_eq!(parse_u64(b"18446744073709551616"), None);
    assert_eq!(parse_u64(b""), None);
    assert_eq!(parse_u64(b"12a"), None);
}

fn sample_record(path: &[u8], state: FileState) -> MetaRecord {
    MetaRecord {
        site: b"refseq".to_vec(),
        group: b"archaea".to_vec(),
        remote_path: path.to_vec(),
        state,
        last_digest: b"00ff".to_vec(),
        attempts: 3,
    }
}

#[test]
fn upsert_files_and_replaces_by_key() {
    let mut doc = MetadataDocument::new();
    doc.upsert(sample_record(b"a/x.fna", FileState::Pending));
    doc.upsert(sample_record(b"a/y.fna", FileState::Verified));
    doc.upsert(sample_record(b"a/x.fna", FileState::Failed));
    assert_eq!(doc.records.len(), 2);
    let got = doc.get(b"refseq", b"archaea", b"a/x.fna").unwrap();
    assert_eq!(got.state, FileState::Failed);
    let other = doc.get(b"refseq", b"archaea", b"a/y.fna").unwrap();
    assert_eq!(other.state, FileState::Verified);
    assert!(doc.get(b"genbank", b"archaea", b"a/x.fna").is_none());
}

#[test]
fn serialized_document_reads_back_identically() {
    let mut doc = MetadataDocument::new();
    doc.upsert(sample_record(b"a/x.fna", FileState::Verified));
    doc.upsert(sample_record(b"a/y.fna.gz", FileState::Mismatched));
    let bytes = doc.serialize();
    let back = parse_document(bytes.as_slice()).unwrap();
    assert_eq!(back.records.len(), doc.records.len());
    for (a, b) in doc.records.iter().zip(back.records.iter()) {
        assert_eq!(a.site, b.site);
        assert_eq!(a.group, b.group);
        assert_eq!(a.remote_path, b.remote_path);
        assert_eq!(a.state, b.state);
        assert_eq!(a.last_digest, b.last_digest);
        assert_eq!(a.attempts, b.attempts);
    }
}

#[test]
fn empty_document_serializes_to_nothing_and_back() {
    let doc = MetadataDocument::new();
    let bytes = doc.serialize();
    assert_eq!(bytes, Vec::<u8>::new());
    assert_eq!(parse_document(&[]).unwrap().records.len(), 0);
}

#[test]
fn corrupt_documents_are_refused() {
    // no closing newline
    assert!(parse_document(b"refseq\tarchaea\tp\tv\t00\t1").is_err());
    // wrong field count
    assert!(parse_document(b"refseq\tarchaea\tp\tv\t00\n").is_err());
    // unknown state letter
    assert!(parse_document(b"refseq\tarchaea\tp\tq\t00\t1\n").is_err());
    // attempts not a number
    assert!(parse_document(b"refseq\tarchaea\tp\tv\t00\tx\n").is_err());
    // one key filed twice
    assert!(
        parse_document(b"refseq\tarchaea\tp\tv\t00\t1\nrefseq\tarchaea\tp\tf\t00\t2\n").is_err()
    );
}
