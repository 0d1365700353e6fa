use genome_mirror::catalog::{list_group, list_taxonomy, parse_checksums};
use genome_mirror::groups::{parse_comma_separated_list, translate_group, validate_group};
use genome_mirror::plan::{plan_groups, Site};

#[test]
fn validate_group_accepts_library_groups() {
    let r = validate_group(b"archaea,bacteria,viral");
    assert_eq!(r.unwrap(), b"archaea,bacteria,viral".to_vec());
    assert!(validate_group(b"human").is_ok());
}

#[test]
fn validate_group_rejects_unknown_groups() {
    assert!(validate_group(b"archaea,mammoth").is_err());
    assert!(validate_group(b"").is_err());
    assert!(validate_group(b"bacteria,").is_err());
}

#[test]
fn comma_list_splits_verbatim() {
    let parts = parse_comma_separated_list(b"fungi,plant");
    assert_eq!(parts.len(), 2);
    assert_eq!(parts[0], b"fungi".to_vec());
    assert_eq!(parts[1], b"plant".to_vec());
}

#[test]
fn human_resolves_to_nested_subpath_but_keeps_local_name() {
    assert_eq!(
        translate_group(b"human"),
        b"vertebrate_mammalian/Homo_sapiens".to_vec()
    );
    assert_eq!(translate_group(b"bacteria"), b"bacteria".to_vec());

    let jobs = plan_groups(b"human,viral").unwrap();
    assert_eq!(jobs.len(), 2);
    assert_eq!(jobs[0].local_name, b"human".to_vec());
    assert_eq!(
        jobs[0].remote_subpath,
        b"vertebrate_mammalian/Homo_sapiens".to_vec()
    );
    assert_eq!(jobs[1].local_name, b"viral".to_vec());
    assert_eq!(jobs[1].remote_subpath, b"viral".to_vec());
}

#[test]
fn site_names_select_the_archive_roots() {
    assert_eq!(Site::Genbank.name(), b"genbank".to_vec());
    assert_eq!(Site::Refseq.name(), b"refseq".to_vec());
}

#[test]
fn checksum_manifest_parses_digest_and_path() {
    let cs = parse_checksums(b"0123abcd  ./a.fna.gz\nffff0000  b.fna.gz\n");
    assert_eq!(cs.len(), 2);
    assert_eq!(cs[0].digest, b"0123abcd".to_vec());
    assert_eq!(cs[0].path, b"a.fna.gz".to_vec());
    assert_eq!(cs[1].digest, b"ffff0000".to_vec());
    assert_eq!(cs[1].path, b"b.fna.gz".to_vec());
}

#[test]
fn catalog_is_sorted_deduplicated_and_joined_to_checksums() {
    let listing = b"b.fna\ta.fna\nb.fna\nc.fna\t12\n";
    let checksums = b"1111  ./b.fna\n2222  c.fna\n";
    let cat = list_group(listing, checksums, b"bacteria");
    assert_eq!(cat.len(), 2);
    assert_eq!(cat[0].name, b"b.fna".to_vec());
    assert_eq!(cat[0].remote_path, b"bacteria/b.fna".to_vec());
    assert_eq!(cat[0].expected_digest, b"1111".to_vec());
    assert_eq!(cat[0].expected_size, None);
    assert_eq!(cat[1].name, b"c.fna".to_vec());
    assert_eq!(cat[1].expected_size, Some(12));
    assert_eq!(cat[1].expected_digest, b"2222".to_vec());
}

#[test]
fn taxonomy_catalog_is_one_fixed_entry() {
    let cat = list_taxonomy(b"abcd  taxdump.tar.gz\n");
    assert_eq!(cat.len(), 1);
    assert_eq!(cat[0].name, b"taxdump.tar.gz".to_vec());
    assert_eq!(cat[0].remote_path, b"taxonomy/taxdump.tar.gz".to_vec());
    assert_eq!(cat[0].expected_digest, b"abcd".to_vec());

    let bare = list_taxonomy(b"");
    assert_eq!(bare[0].expected_digest, b"".to_vec());
}

#[test]
fn catalog_entry_without_checksum_line_is_unverifiable() {
    let cat = list_group(b"x.fna\n", b"", b"g");
    assert_eq!(cat.len(), 1);
    assert_eq!(cat[0].expected_digest, b"".to_vec());
}
