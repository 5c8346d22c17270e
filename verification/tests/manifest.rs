use burp::manifest::{
    add_manifest_line, burp_decode_base64, burp_encode_base64, read_manifest, FileType,
    ManifestEntry, ManifestLine, Stat,
};

#[test]
fn manifest_simple() {
    let buf = b"a0004ASDF\n";
    let (line, next) = ManifestLine::read(buf, 0).unwrap();
    assert_eq!(line.data, b"ASDF".to_vec());
    assert_eq!(line.kind, 'a');
    assert_eq!(next, buf.len());
}

#[test]
fn manifest_short_line() {
    let buf = b"t0004a\n"; // length 4 != "a".len()
    let result = ManifestLine::read(buf, 0);
    assert!(result.is_err());
}

#[test]
fn manifest_entry_invalid_base64() {
    let mut entry = ManifestEntry::new();
    let result = add_manifest_line(&mut entry, &'r', b".");
    assert!(result.is_err());
}

#[test]
fn manifest_entry_invalid_order() {
    let mut entry = ManifestEntry::new();
    let result = add_manifest_line(&mut entry, &'r', b".");
    assert!(result.is_err());
}

#[test]
fn decode_base64() {
    assert_eq!(burp_decode_base64(b"Po").unwrap(), 1000);
    assert_eq!(burp_decode_base64(b"-/").unwrap(), -63);
}

#[test]
fn base64_invalid_char() {
    let result = burp_decode_base64(b".");
    assert!(result.is_err());
}

#[test]
fn base64_encode_decode_identity() {
    assert_eq!(burp_encode_base64(1000), b"Po".to_vec());
    assert_eq!(burp_encode_base64(-63), b"-/".to_vec());
    assert_eq!(burp_encode_base64(0), b"A".to_vec());
    for value in [0i64, 1, 63, 64, -1, i64::MAX, i64::MIN] {
        let encoded = burp_encode_base64(value);
        assert_eq!(burp_decode_base64(&encoded).unwrap(), value);
    }
}

#[test]
fn stat_too_short() {
    let stat = Stat::from_burp_string(b"Po");
    assert!(stat.is_err());
}

#[test]
fn parse_stat_line() {
    let stat = Stat::from_burp_string(b"A B C D E F G H I J K L M N O P").unwrap();
    assert_eq!(stat.containing_device, 0);
    assert_eq!(stat.inode, 1);
    assert_eq!(stat.mode, 2);
    assert_eq!(stat.num_links, 3);
    assert_eq!(stat.owner_id, 4);
    assert_eq!(stat.group_id, 5);
    assert_eq!(stat.device_id, 6);
    assert_eq!(stat.size, 7);
    assert_eq!(stat.blocksize, 8);
    assert_eq!(stat.blocks, 9);
    assert_eq!(stat.access_time, 10);
    assert_eq!(stat.mod_time, 11);
    assert_eq!(stat.change_time, 12);
    assert_eq!(stat.ch_flags, 13);
    assert_eq!(stat.compression, 15);
}

#[test]
fn manifest_entry_metadata() {
    let mut entry = ManifestEntry::new();
    let finished = add_manifest_line(&mut entry, &'m', b"some path").unwrap();
    assert_eq!(entry.file_type, FileType::Metadata);
    assert_eq!(entry.path, b"some path".to_vec());
    assert!(!finished);
}

#[test]
fn manifest_entry_regular_file() {
    let mut entry = ManifestEntry::new();
    let finished = add_manifest_line(&mut entry, &'f', b"some path").unwrap();
    assert_eq!(entry.file_type, FileType::Plain);
    assert_eq!(entry.path, b"some path".to_vec());
    assert!(!finished);
}

#[test]
fn manifest_entry_data_path() {
    let mut entry = ManifestEntry::new();
    let finished = add_manifest_line(&mut entry, &'t', b"some path").unwrap();
    assert_eq!(entry.file_type, FileType::Unknown);
    assert!(entry.data.is_some());
    assert_eq!(entry.data.unwrap().path, b"some path".to_vec());
    assert!(!finished);
}

#[test]
fn manifest_entry_special() {
    let mut entry = ManifestEntry::new();
    let finished = add_manifest_line(&mut entry, &'s', b"some path").unwrap();
    assert_eq!(entry.file_type, FileType::Special);
    assert_eq!(entry.path, b"some path".to_vec());
    assert!(finished);
}

#[test]
fn manifest_entry_directory() {
    let mut entry = ManifestEntry::new();
    let finished = add_manifest_line(&mut entry, &'d', b"some path").unwrap();
    assert_eq!(entry.file_type, FileType::Directory);
    assert_eq!(entry.path, b"some path".to_vec());
    assert!(finished);
}

#[test]
fn manifest_entry_symlink() {
    let mut entry = ManifestEntry::new();
    let mut finished = add_manifest_line(&mut entry, &'l', b"source path").unwrap();
    assert!(!finished);

    finished = add_manifest_line(&mut entry, &'l', b"target path").unwrap();
    assert_eq!(entry.file_type, FileType::SoftLink);
    assert_eq!(entry.path, b"source path".to_vec());
    assert_eq!(entry.link_target, Some(b"target path".to_vec()));
    assert!(finished);
}

#[test]
fn manifest_malformed_checksum() {
    let mut entry = ManifestEntry::new();
    assert!(add_manifest_line(&mut entry, &'x', b"asdf").is_err());
    assert!(add_manifest_line(&mut entry, &'x', b"a:sd:f").is_err());
    assert!(add_manifest_line(&mut entry, &'x', b"asd:f").is_err());

    let finished = add_manifest_line(&mut entry, &'x', b"1234:asdfgh").unwrap();
    assert!(finished);
    assert!(entry.data.is_some());
    let data = entry.data.unwrap();
    assert_eq!(data.size, 1234);
    assert_eq!(data.md5, b"asdfgh".to_vec());
}

#[test]
fn read_manifest_error() {
    let result = read_manifest(b"r0016unreadable stat string\n");
    assert!(result.is_err());
}

#[test]
fn read_manifest_error_line_number() {
    // The first line is fine; the stat line after it is corrupt.
    let result = read_manifest(b"d0001a\nr0001.\n");
    let err = result.unwrap_err();
    assert_eq!(err.record(), 2);
}

#[test]
fn read_manifest_entries() {
    let stream = b"d0004adir\nt0001a\nx00061:abcd\n";
    let entries = read_manifest(stream).unwrap();
    assert_eq!(entries.len(), 2);
    assert_eq!(entries[0].file_type, FileType::Directory);
    assert_eq!(entries[0].path, b"adir".to_vec());
    let data = entries[1].data.as_ref().unwrap();
    assert_eq!(data.path, b"a".to_vec());
    assert_eq!(data.size, 1);
    assert_eq!(data.md5, b"abcd".to_vec());
}

#[test]
fn manifest_line_roundtrip() {
    let line = ManifestLine { kind: 'f', data: b"abc".to_vec() };
    let encoded = line.encode();
    assert_eq!(encoded, b"f0003abc\n".to_vec());
    let (again, next) = ManifestLine::read(&encoded, 0).unwrap();
    assert_eq!(again.kind, 'f');
    assert_eq!(again.data, b"abc".to_vec());
    assert_eq!(next, encoded.len());
}

#[test]
fn manifest_stream_roundtrip() {
    // Decoding a stream into lines and re-encoding them gives the bytes back.
    let stream = b"d0004adir\nt0001a\nx00061:abcd\n".to_vec();
    let mut rebuilt: Vec<u8> = Vec::new();
    let mut pos = 0;
    while pos < stream.len() {
        let (line, next) = ManifestLine::read(&stream, pos).unwrap();
        rebuilt.extend_from_slice(&line.encode());
        pos = next;
    }
    assert_eq!(rebuilt, stream);
}
