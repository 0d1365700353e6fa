use genome_mirror::aggregator::{aggregate, GroupFile};
use genome_mirror::catalog::RemoteEntry;
use genome_mirror::checksum::digest;
use genome_mirror::metadata::{FileState, MetadataDocument};
use genome_mirror::scheduler::{backoff_ms, compute_work_set, Scheduler};
use std::io::Write;

fn entry(name: &[u8], digest_hex: Vec<u8>) -> RemoteEntry {
    let mut remote_path = b"archaea/".to_vec();
    remote_path.extend_from_slice(name);
    RemoteEntry {
        name: name.to_vec(),
        remote_path,
        expected_size: None,
        expected_digest: digest_hex,
    }
}

fn small_catalog() -> Vec<RemoteEntry> {
    vec![
        entry(b"a.fna", digest(b"AAA")),
        entry(b"b.fna", digest(b"BBB")),
    ]
}

#[test]
fn acquire_twice_fetches_nothing_the_second_time() {
    let mut doc = MetadataDocument::new();
    let work = compute_work_set(small_catalog(), &doc, b"refseq", b"archaea");
    assert_eq!(work.len(), 2);

    // first run: every fetch returns the published content
    let mut sched = Scheduler::new(b"refseq".to_vec(), b"archaea".to_vec(), work, 8);
    while let Some(idx) = sched.launch() {
        let content: &[u8] = if sched.flight_path(idx).ends_with(b"a.fna") {
            b"AAA"
        } else {
            b"BBB"
        };
        sched.complete_fetch(idx, content, &mut doc);
    }
    assert!(sched.done());
    assert_eq!(sched.verified, 2);
    assert_eq!(sched.failed, 0);
    let before = doc.serialize();

    // second run against the unchanged catalog: nothing to fetch, the
    // document comes out identical
    let again = compute_work_set(small_catalog(), &doc, b"refseq", b"archaea");
    assert_eq!(again.len(), 0);
    let sched2 = Scheduler::new(b"refseq".to_vec(), b"archaea".to_vec(), again, 8);
    assert!(sched2.done());
    assert_eq!(before, doc.serialize());
}

#[test]
fn interrupted_run_resumes_with_only_the_rest() {
    let mut doc = MetadataDocument::new();
    let work = compute_work_set(small_catalog(), &doc, b"refseq", b"archaea");
    let mut sched = Scheduler::new(b"refseq".to_vec(), b"archaea".to_vec(), work, 1);
    // verify one of two entries, then stop
    let idx = sched.launch().unwrap();
    let content: &[u8] = if sched.flight_path(idx).ends_with(b"a.fna") {
        b"AAA"
    } else {
        b"BBB"
    };
    sched.complete_fetch(idx, content, &mut doc);

    let rest = compute_work_set(small_catalog(), &doc, b"refseq", b"archaea");
    assert_eq!(rest.len(), 1);
}

#[test]
fn changed_remote_digest_forces_refetch() {
    let mut doc = MetadataDocument::new();
    let work = compute_work_set(small_catalog(), &doc, b"refseq", b"archaea");
    let mut sched = Scheduler::new(b"refseq".to_vec(), b"archaea".to_vec(), work, 4);
    while let Some(idx) = sched.launch() {
        let content: &[u8] = if sched.flight_path(idx).ends_with(b"a.fna") {
            b"AAA"
        } else {
            b"BBB"
        };
        sched.complete_fetch(idx, content, &mut doc);
    }
    // the archive now publishes a different digest for a.fna
    let changed = vec![
        entry(b"a.fna", digest(b"AAA-v2")),
        entry(b"b.fna", digest(b"BBB")),
    ];
    let work = compute_work_set(changed, &doc, b"refseq", b"archaea");
    assert_eq!(work.len(), 1);
    assert_eq!(work[0].entry.name, b"a.fna".to_vec());
}

#[test]
fn concurrency_stays_under_the_configured_bound() {
    let mut doc = MetadataDocument::new();
    let work = compute_work_set(small_catalog(), &doc, b"refseq", b"archaea");
    let mut sched = Scheduler::new(b"refseq".to_vec(), b"archaea".to_vec(), work, 1);
    let first = sched.launch();
    assert!(first.is_some());
    // the bound is 1 and one fetch is in flight: no second launch
    assert!(sched.launch().is_none());
    sched.complete_fetch(first.unwrap(), b"AAA", &mut doc);
    assert!(sched.launch().is_some());
}

#[test]
fn mismatch_is_retried_once_then_surfaced() {
    let mut doc = MetadataDocument::new();
    let cat = vec![entry(b"a.fna", digest(b"AAA"))];
    let work = compute_work_set(cat, &doc, b"refseq", b"archaea");
    let mut sched = Scheduler::new(b"refseq".to_vec(), b"archaea".to_vec(), work, 2);

    let idx = sched.launch().unwrap();
    sched.complete_fetch(idx, b"corrupted", &mut doc);
    // the mismatch went back in the queue for its one automatic retry
    assert!(!sched.done());
    let idx = sched.launch().unwrap();
    sched.complete_fetch(idx, b"corrupted again", &mut doc);
    assert!(sched.done());
    assert_eq!(sched.mismatched, 1);
    assert_eq!(sched.failed_paths.len(), 1);
    assert_eq!(sched.failed_paths[0], b"archaea/a.fna".to_vec());
    let rec = doc.get(b"refseq", b"archaea", b"archaea/a.fna").unwrap();
    assert_eq!(rec.state, FileState::Mismatched);
}

#[test]
fn transport_failures_are_retried_up_to_the_ceiling() {
    let mut doc = MetadataDocument::new();
    let cat = vec![entry(b"a.fna", digest(b"AAA"))];
    let work = compute_work_set(cat, &doc, b"refseq", b"archaea");
    let mut sched = Scheduler::new(b"refseq".to_vec(), b"archaea".to_vec(), work, 2);
    let mut rounds = 0;
    while let Some(idx) = sched.launch() {
        rounds += 1;
        sched.complete_error(idx, &mut doc);
    }
    assert_eq!(rounds, 4);
    assert!(sched.done());
    assert_eq!(sched.failed, 1);
    let rec = doc.get(b"refseq", b"archaea", b"archaea/a.fna").unwrap();
    assert_eq!(rec.state, FileState::Failed);
    assert_eq!(rec.attempts, 4);
}

#[test]
fn entry_without_published_digest_is_fetched_never_verified() {
    let mut doc = MetadataDocument::new();
    let cat = vec![entry(b"a.fna", Vec::new())];
    let work = compute_work_set(cat, &doc, b"refseq", b"archaea");
    let mut sched = Scheduler::new(b"refseq".to_vec(), b"archaea".to_vec(), work, 2);
    let idx = sched.launch().unwrap();
    sched.complete_fetch(idx, b"whatever", &mut doc);
    assert_eq!(sched.verified, 0);
    assert_eq!(sched.fetched, 1);
    let rec = doc.get(b"refseq", b"archaea", b"archaea/a.fna").unwrap();
    assert_eq!(rec.state, FileState::Fetched);
}

#[test]
fn backoff_grows_exponentially_to_a_cap() {
    assert_eq!(backoff_ms(0), 250);
    assert_eq!(backoff_ms(1), 500);
    assert_eq!(backoff_ms(5), 8000);
    assert_eq!(backoff_ms(6), 16000);
    assert_eq!(backoff_ms(60), 16000);
}

fn plain(name: &[u8], content: &[u8], verified: bool) -> GroupFile {
    GroupFile {
        name: name.to_vec(),
        content: content.to_vec(),
        verified,
    }
}

#[test]
fn aggregation_merges_in_name_order_whatever_the_input_order() {
    let scrambled = vec![
        plain(b"C.fna", b"ccc", true),
        plain(b"A.fna", b"aaa", true),
        plain(b"B.fna", b"bbb", true),
    ];
    let out = aggregate(scrambled).unwrap();
    assert_eq!(out.output, b"aaabbbccc".to_vec());
    assert_eq!(out.included.len(), 3);
    assert_eq!(out.included[0], b"A.fna".to_vec());
    assert_eq!(out.omitted.len(), 0);

    let other_order = vec![
        plain(b"B.fna", b"bbb", true),
        plain(b"C.fna", b"ccc", true),
        plain(b"A.fna", b"aaa", true),
    ];
    assert_eq!(aggregate(other_order).unwrap().output, b"aaabbbccc".to_vec());
}

#[test]
fn unverified_files_are_omitted_and_reported() {
    let files = vec![
        plain(b"a.fna", b"aaa", true),
        plain(b"m.fna", b"mmm", false),
        plain(b"z.fna", b"zzz", true),
    ];
    let out = aggregate(files).unwrap();
    assert_eq!(out.output, b"aaazzz".to_vec());
    assert_eq!(out.omitted, vec![b"m.fna".to_vec()]);
}

#[test]
fn compressed_sources_are_inflated_before_merging() {
    let mut enc = flate2::write::GzEncoder::new(Vec::new(), flate2::Compression::default());
    enc.write_all(b"ACGT-RECORDS").unwrap();
    let gz = enc.finish().unwrap();
    let files = vec![
        plain(b"b.fna", b"|plain", true),
        plain(b"a.fna.gz", gz.as_slice(), true),
    ];
    let out = aggregate(files).unwrap();
    assert_eq!(out.output, b"ACGT-RECORDS|plain".to_vec());
}

#[test]
fn a_broken_compressed_source_is_an_error() {
    let files = vec![plain(b"a.fna.gz", b"not gzip at all", true)];
    assert!(aggregate(files).is_err());
}
