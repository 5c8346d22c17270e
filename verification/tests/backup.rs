use std::io::Write;

use burp::backup::{
    ancestors_to_prune, calc_md5, format_bytes, sort_for_deletion, verify_failures, Backup,
    BackupError, CloneError, TransferResult, VerifyFileResult, VerifyResult,
};

fn gz(data: &[u8]) -> Vec<u8> {
    let mut enc = flate2::write::GzEncoder::new(Vec::new(), flate2::Compression::default());
    enc.write_all(data).unwrap();
    enc.finish().unwrap()
}

#[test]
fn test_format_bytes() {
    assert_eq!(format_bytes(1), "1.00 B");
    assert_eq!(format_bytes(234), "234.00 B");
    assert_eq!(format_bytes(1024), "1.00 kiB");
    assert_eq!(format_bytes(456 * 1024), "456.00 kiB");
    assert_eq!(format_bytes((2.5 * 1024.0) as u64), "2.50 kiB");
    assert_eq!(
        format_bytes((99.0001 * 1024.0 * 1024.0) as u64),
        "99.00 MiB"
    );
}

#[test]
fn parse_name() {
    assert_eq!(
        Backup::parse_name("0000015 2019-04-13 18:02:26").unwrap(),
        (15, "2019-04-13 18:02:26".to_string())
    );
}

#[test]
fn parse_name_too_short() {
    let result = Backup::parse_name("123");
    assert!(result.is_err());
}

#[test]
fn backup_new() {
    let backup = Backup::from_path("/some/distant/path/0000001 2021-04-11 00:00:00").unwrap();
    assert_eq!(backup.id, 1);
    assert_eq!(backup.timestamp, "2021-04-11 00:00:00");
}

#[test]
fn calc_md5_lorem() {
    let lorem = "Lorem ipsum dolor sit amet, consectetur adipisici elit, sed eiusmod tempor incidunt ut labore et dolore magna aliqua";
    let (size, digest) = calc_md5(lorem.as_bytes());
    assert_eq!(size, lorem.len());
    assert_eq!(digest, b"112e6e5d321385d524234210bdebec02".to_vec());
}

#[test]
fn metadata_contains_manifest() {
    assert!(Backup::metadata_files().contains(&"manifest.gz"));
}

#[test]
fn file_path() {
    let backup = Backup::from_path("/0000001 2021-04-11 00:00:00").unwrap();
    assert_eq!(
        backup.file_path(None, "filename"),
        "/0000001 2021-04-11 00:00:00/filename"
    );
    assert_eq!(
        backup.file_path(Some("prefix"), "filename"),
        "/0000001 2021-04-11 00:00:00/prefix/filename"
    );
}

fn file_results(error: Option<String>) -> Vec<TransferResult> {
    let mut results = Vec::new();
    for dest in ["first dest path", "second dest path", "third dest path"] {
        results.push(TransferResult {
            source: "source path".to_string(),
            dest: dest.to_string(),
            size: 123,
            error: error.clone(),
        });
    }
    results
}

#[test]
fn wait_for_named_transfer() {
    let results = file_results(None);
    let (num, size) = burp::backup::wait_for_transfer(&results, Some("second dest path"));
    assert_eq!(num, 2);
    assert_eq!(size, 246);
}

#[test]
fn wait_for_all_transfer() {
    let results = file_results(None);
    let (num, size) = burp::backup::wait_for_transfer(&results, None);
    assert_eq!(num, 3);
    assert_eq!(size, 369);
}

#[test]
fn wait_for_transfer_errors() {
    let results = file_results(Some("test error".to_string()));
    let (num, _size_ignored) = burp::backup::wait_for_transfer(&results, None);
    assert_eq!(num, 0);
}

#[test]
fn dir_name() {
    assert_eq!(
        Backup::from_path("/0000001 2021-04-11 00:00:00")
            .unwrap()
            .dir_name(),
        "0000001 2021-04-11 00:00:00"
    );
    assert_eq!(
        Backup::from_path("/9876543 asd asd ! | äöüß")
            .unwrap()
            .dir_name(),
        "9876543 asd asd ! | äöüß"
    );
    assert_eq!(
        Backup::from_path("/ignore/any/path/before/backup/9999999 x")
            .unwrap()
            .dir_name(),
        "9999999 x"
    );
}

#[test]
fn get_checksums() {
    // getting an empty checksum map does not make sense but is not an error
    assert!(Backup::from_path("/0000001 2021-04-11 00:00:00")
        .unwrap()
        .get_checksums()
        .is_empty());
}

#[test]
fn backup_equal() {
    assert_eq!(
        Backup::from_path("/0000001 some timestamp").unwrap(),
        Backup::from_path("/0000001 some timestamp").unwrap()
    );

    // different timestamp
    assert_ne!(
        Backup::from_path("/0000001 some timestamp").unwrap(),
        Backup::from_path("/0000001 other timestamp").unwrap()
    );

    // different id
    assert_ne!(
        Backup::from_path("/0000001 some timestamp").unwrap(),
        Backup::from_path("/0000002 some timestamp").unwrap()
    );
}

#[test]
fn top_level_dirs() {
    let mut backup = Backup::from_path("/0000001 some timestamp").unwrap();
    backup.checksums.insert(b"t/asd".to_vec(), Vec::new());
    backup.checksums.insert(b"t/asdf".to_vec(), Vec::new());
    backup.checksums.insert(b"x/asd".to_vec(), Vec::new());
    let mut dirs = backup.top_level_data_dirs();
    dirs.sort();
    assert_eq!(dirs, vec![b"t".to_vec(), b"x".to_vec()]);
}

#[test]
fn delete_remote_is_rejected() {
    let mut backup = Backup::new("http://example/store", "0000001 ts", false).unwrap();
    assert_eq!(backup.delete().unwrap_err(), BackupError::NotLocal);
}

#[test]
fn delete_clears_checksums() {
    let mut backup = Backup::new("/store", "0000001 ts", true).unwrap();
    backup.checksums.insert(b"a".to_vec(), b"ff".to_vec());
    let path = backup.delete().unwrap();
    assert_eq!(path, "/store/0000001 ts");
    assert!(backup.get_checksums().is_empty());
}

#[test]
fn load_checksums_from_manifest() {
    let manifest = gz(b"t0003a/b\nx000d1234:deadbeef\n");
    let mut backup = Backup::new("/store", "0000002 ts", true).unwrap();
    backup.load_checksums(&manifest).unwrap();
    let sums = backup.get_checksums();
    assert_eq!(sums.get(b"a/b").unwrap(), &b"deadbeef".to_vec());
    assert!(sums.get(b"other").is_none());
}

#[test]
fn load_checksums_rejects_garbage() {
    let mut backup = Backup::new("/store", "0000002 ts", true).unwrap();
    assert!(backup.load_checksums(b"not gzip at all").is_err());
    assert!(backup.get_checksums().is_empty());
}

#[test]
fn clone_dedups_equal_checksum() {
    // Manifest entry `x:"1234:deadbeef"` for path a/b; the base records the
    // same checksum under the same path, so nothing is transferred and one
    // file comes from the base.
    let manifest = gz(b"t0003a/b\nx000d1234:deadbeef\n");
    let mut base = Backup::new("/store", "0000001 ts", true).unwrap();
    base.checksums.insert(b"a/b".to_vec(), b"deadbeef".to_vec());
    let mut dest = Backup::new("/dest", "0000002 ts", true).unwrap();
    let plan = dest.clone_from(Some(&base), &manifest, false).unwrap();
    assert!(plan.transfers.is_empty());
    assert_eq!(plan.files_from_base, 1);
    assert_eq!(plan.files_total, 6);
    assert_eq!(
        dest.get_checksums().get(b"a/b").unwrap(),
        &b"deadbeef".to_vec()
    );
}

#[test]
fn clone_transfers_changed_checksum() {
    // Same path in the base but a different checksum: the file must be
    // transferred.
    let manifest = gz(b"t0003a/b\nx000d1234:deadbeef\n");
    let mut base = Backup::new("/store", "0000001 ts", true).unwrap();
    base.checksums.insert(b"a/b".to_vec(), b"00000000".to_vec());
    let mut dest = Backup::new("/dest", "0000002 ts", true).unwrap();
    let plan = dest.clone_from(Some(&base), &manifest, false).unwrap();
    assert_eq!(plan.transfers, vec![b"a/b".to_vec()]);
    assert_eq!(plan.files_from_base, 0);
    assert_eq!(plan.files_total, 6);
}

#[test]
fn clone_without_base_transfers_everything() {
    let manifest = gz(b"t0003a/b\nx000d1234:deadbeef\n");
    let mut dest = Backup::new("/dest", "0000002 ts", true).unwrap();
    let plan = dest.clone_from(None, &manifest, false).unwrap();
    assert_eq!(plan.transfers, vec![b"a/b".to_vec()]);
    assert_eq!(plan.files_from_base, 0);
}

#[test]
fn clone_of_finished_destination_is_noop() {
    // A destination with a manifest and no partial marker is finished and
    // is skipped entirely: the second clone performs zero transfers.
    let dest0 = Backup::new("/dest", "0000002 ts", true).unwrap();
    assert!(dest0.is_finished(true, false));
    assert!(!dest0.is_finished(true, true));
    assert!(!dest0.is_finished(false, false));
    let manifest = gz(b"t0003a/b\nx000d1234:deadbeef\n");
    let mut dest = dest0;
    let plan = dest.clone_from(None, &manifest, true).unwrap();
    assert!(plan.transfers.is_empty());
    assert_eq!(plan.files_total, 0);
    assert_eq!(plan.files_from_base, 0);
}

#[test]
fn clone_to_remote_is_rejected() {
    let manifest = gz(b"t0003a/b\nx000d1234:deadbeef\n");
    let mut dest = Backup::new("http://example/store", "0000002 ts", false).unwrap();
    let err = dest.clone_from(None, &manifest, false).unwrap_err();
    assert!(matches!(err, CloneError::NotLocal));
}

#[test]
fn clone_rejects_corrupt_manifest() {
    let manifest = gz(b"x0004oops\n");
    let mut dest = Backup::new("/dest", "0000002 ts", true).unwrap();
    let err = dest.clone_from(None, &manifest, false).unwrap_err();
    match err {
        CloneError::Manifest(e) => assert_eq!(e.record(), 1),
        CloneError::NotLocal => panic!("wrong error kind"),
    }
}

#[test]
fn clone_errors_counts_missing_files() {
    assert_eq!(Backup::clone_errors(6, 5, 1), 0);
    assert_eq!(Backup::clone_errors(6, 3, 1), 2);
}

#[test]
fn unwanted_files_spares_manifest_paths() {
    let mut backup = Backup::new("/store", "0000001 ts", true).unwrap();
    backup.checksums.insert(b"t/asd".to_vec(), b"ff".to_vec());
    let present = vec![b"t".to_vec(), b"x".to_vec(), b"t/asd".to_vec()];
    let unwanted = backup.unwanted_files(&present);
    assert_eq!(unwanted, vec![b"x".to_vec()]);
}

#[test]
fn deletion_order_is_deepest_first() {
    let paths = vec![b"a".to_vec(), b"a/b/c".to_vec(), b"a/b".to_vec()];
    let sorted = sort_for_deletion(paths);
    assert_eq!(
        sorted,
        vec![b"a/b/c".to_vec(), b"a/b".to_vec(), b"a".to_vec()]
    );
}

#[test]
fn ancestor_pruning_stops_before_root() {
    let ancestors = ancestors_to_prune(b"a/b/c");
    assert_eq!(ancestors, vec![b"a/b".to_vec(), b"a".to_vec()]);
}

#[test]
fn verify_detects_checksum_mismatch() {
    // The stored content hashes to the digest of "hello" while the manifest
    // expects something else: exactly one checksum mismatch.
    let content = gz(b"hello");
    let result = Backup::verify_file_md5(&content, 5, b"00000000000000000000000000000000");
    match &result {
        VerifyResult::ChecksumMismatch(computed) => {
            assert_eq!(computed, &b"5d41402abc4b2a76b9719d911017c592".to_vec());
        }
        _ => panic!("expected a checksum mismatch"),
    }
    let results = vec![VerifyFileResult {
        path: "/store/0000001 ts/data/a".to_string(),
        size: 5,
        md5: b"00000000000000000000000000000000".to_vec(),
        result,
    }];
    assert_eq!(verify_failures(1, &results), 1);
}

#[test]
fn verify_accepts_intact_file() {
    let content = gz(b"hello");
    let result = Backup::verify_file_md5(&content, 5, b"5d41402abc4b2a76b9719d911017c592");
    assert!(matches!(result, VerifyResult::Valid));
    let results = vec![VerifyFileResult {
        path: "/store/0000001 ts/data/a".to_string(),
        size: 5,
        md5: b"5d41402abc4b2a76b9719d911017c592".to_vec(),
        result,
    }];
    assert_eq!(verify_failures(1, &results), 0);
}

#[test]
fn verify_detects_size_mismatch() {
    let content = gz(b"hello");
    let result = Backup::verify_file_md5(&content, 99, b"5d41402abc4b2a76b9719d911017c592");
    match result {
        VerifyResult::FilesizeMismatch(actual) => assert_eq!(actual, 5),
        _ => panic!("expected a size mismatch"),
    }
}

#[test]
fn verify_reports_unreadable_file() {
    let result = Backup::verify_file_md5(b"not gzip", 5, b"5d41402abc4b2a76b9719d911017c592");
    assert!(matches!(result, VerifyResult::Error(_)));
}

#[test]
fn verify_jobs_lists_data_entries() {
    let manifest = gz(b"t0003a/b\nx000d1234:deadbeef\n");
    let mut backup = Backup::new("/store", "0000001 ts", true).unwrap();
    let jobs = backup.verify_jobs(&manifest).unwrap();
    assert_eq!(jobs.len(), 1);
    assert_eq!(jobs[0].path, b"a/b".to_vec());
    assert_eq!(jobs[0].size, 1234);
    assert_eq!(jobs[0].md5, b"deadbeef".to_vec());
    assert_eq!(
        backup.get_checksums().get(b"a/b").unwrap(),
        &b"deadbeef".to_vec()
    );
}
