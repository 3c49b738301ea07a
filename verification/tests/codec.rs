use meurglys3_lib::{
    decode_package, encode_package, Compression, FileInfo, Package, PackageVersion, ParseError,
    PathError, UnpackError, UnsupportedError,
};

fn v001() -> PackageVersion {
    PackageVersion { ver: (0, 0, 0, 1) }
}

fn build(files: Vec<(&str, &[u8])>) -> Package {
    let infos = files
        .into_iter()
        .map(|(name, data)| FileInfo::new(name.to_string(), data.to_vec()))
        .collect();
    Package::from_file_info(infos, v001(), Compression::Uncompressed).unwrap()
}

/// A container built by hand: header, then the given table-and-payload bytes.
fn container(body: &[u8]) -> Vec<u8> {
    let mut buf = vec![0xffu8, 0x69, 0xff, 0x69, 0, 0, 0, 1, 0, 0];
    buf.extend_from_slice(body);
    buf
}

fn le8(x: u64) -> Vec<u8> {
    x.to_le_bytes().to_vec()
}

#[test]
fn minimal_container_is_an_empty_package() {
    let buf = container(&[0]);
    assert_eq!(buf.len(), 11);
    let p = decode_package(&buf).unwrap();
    assert_eq!(p.get_names().len(), 0);
    assert_eq!(p.version().ver, (0, 0, 0, 1));
    assert_eq!(p.compression(), Compression::Uncompressed);
}

#[test]
fn encode_exact_bytes() {
    let p = build(vec![("a", b"xy")]);
    let mut expected = container(&[]);
    expected.push(b'a');
    expected.push(0);
    expected.extend_from_slice(&le8(0));
    expected.extend_from_slice(&le8(2));
    expected.push(0);
    expected.extend_from_slice(b"xy");
    assert_eq!(encode_package(&p), expected);
}

#[test]
fn encoding_is_deterministic() {
    let p = build(vec![("b.txt", b"bb"), ("a.txt", b"a")]);
    let q = build(vec![("b.txt", b"bb"), ("a.txt", b"a")]);
    assert_eq!(encode_package(&p), encode_package(&q));
}

#[test]
fn round_trip_restores_names_and_contents() {
    let p = build(vec![
        ("text_file.txt", b"text".as_slice()),
        ("directory/text_file.txt", b"".as_slice()),
        ("bin/data", &[0u8, 1, 2, 255, 254][..]),
    ]);
    let buf = encode_package(&p);
    let q = decode_package(&buf).unwrap();
    assert!(q.has("text_file.txt"));
    assert_eq!(q.get_data("text_file.txt"), Some(b"text".to_vec()));
    assert!(q.has("directory/text_file.txt"));
    assert_eq!(q.get_data("directory/text_file.txt"), Some(Vec::new()));
    assert_eq!(q.get_data("bin/data"), Some(vec![0u8, 1, 2, 255, 254]));
    assert_eq!(q.get_names(), p.get_names());
    assert_eq!(q.version().ver, (0, 0, 0, 1));
    assert_eq!(q.compression(), Compression::Uncompressed);
}

#[test]
fn round_trip_keeps_multibyte_names() {
    let p = build(vec![("héllo/wörld.txt", b"content")]);
    let buf = encode_package(&p);
    let q = decode_package(&buf).unwrap();
    assert!(q.has("héllo/wörld.txt"));
    assert_eq!(q.get_data("héllo/wörld.txt"), Some(b"content".to_vec()));
}

#[test]
fn too_short_buffers_are_invalid() {
    assert_eq!(decode_package(&[]).unwrap_err(), UnpackError::InvalidFile);
    let ten = vec![0xffu8, 0x69, 0xff, 0x69, 0, 0, 0, 1, 0, 0];
    assert_eq!(decode_package(&ten).unwrap_err(), UnpackError::InvalidFile);
}

#[test]
fn header_rejection_beats_everything_else() {
    let p = build(vec![("a.txt", b"abc")]);
    let mut buf = encode_package(&p);
    buf[0] = 0xfe;
    assert_eq!(decode_package(&buf).unwrap_err(), UnpackError::InvalidFile);
    let mut junk = container(&[0]);
    junk[3] = 0x00;
    assert_eq!(decode_package(&junk).unwrap_err(), UnpackError::InvalidFile);
}

#[test]
fn unrecognized_version_is_unsupported() {
    let mut buf = container(&[0]);
    buf[7] = 9;
    assert_eq!(
        decode_package(&buf).unwrap_err(),
        (UnpackError::UnsupportedFormat(UnsupportedError::Version))
    );
}

#[test]
fn unrecognized_compression_is_unsupported() {
    let mut buf = container(&[0]);
    buf[9] = 7;
    assert_eq!(
        decode_package(&buf).unwrap_err(),
        (UnpackError::UnsupportedFormat(UnsupportedError::Compression))
    );
}

#[test]
fn name_without_terminator_fails_on_the_name() {
    let buf = container(b"ab");
    assert_eq!(
        decode_package(&buf).unwrap_err(),
        (UnpackError::ParseError(ParseError::Name))
    );
}

#[test]
fn table_cut_mid_offset_fails_on_the_offset() {
    let mut body = b"a\0".to_vec();
    body.extend_from_slice(&[1, 2, 3, 4]);
    let buf = container(&body);
    assert_eq!(
        decode_package(&buf).unwrap_err(),
        (UnpackError::ParseError(ParseError::Index))
    );
}

#[test]
fn table_cut_mid_size_fails_on_the_size() {
    let mut body = b"a\0".to_vec();
    body.extend_from_slice(&le8(0));
    body.extend_from_slice(&[1, 2, 3]);
    let buf = container(&body);
    assert_eq!(
        decode_package(&buf).unwrap_err(),
        (UnpackError::ParseError(ParseError::Size))
    );
}

#[test]
fn record_past_the_payload_fails_on_the_range() {
    let mut body = b"a\0".to_vec();
    body.extend_from_slice(&le8(0));
    body.extend_from_slice(&le8(5));
    body.push(0);
    body.extend_from_slice(b"xy");
    let buf = container(&body);
    assert_eq!(
        decode_package(&buf).unwrap_err(),
        (UnpackError::ParseError(ParseError::Range))
    );
}

#[test]
fn non_utf8_name_fails_distinctly() {
    let mut body = vec![0xffu8, 0xfe];
    body.push(0);
    body.extend_from_slice(&le8(0));
    body.extend_from_slice(&le8(0));
    body.push(0);
    let buf = container(&body);
    assert_eq!(decode_package(&buf).unwrap_err(), UnpackError::Utf8);
}

#[test]
fn decoded_keys_obey_the_path_policy() {
    let mut body = b"../x\0".to_vec();
    body.extend_from_slice(&le8(0));
    body.extend_from_slice(&le8(0));
    body.push(0);
    let buf = container(&body);
    assert_eq!(
        decode_package(&buf).unwrap_err(),
        (UnpackError::Path(PathError::Traversal))
    );

    let mut body = b"/a\0".to_vec();
    body.extend_from_slice(&le8(0));
    body.extend_from_slice(&le8(0));
    body.push(0);
    let buf = container(&body);
    assert_eq!(
        decode_package(&buf).unwrap_err(),
        (UnpackError::Path(PathError::Absolute))
    );
}

#[test]
fn duplicate_table_names_keep_the_last_record() {
    let mut body = b"k\0".to_vec();
    body.extend_from_slice(&le8(0));
    body.extend_from_slice(&le8(1));
    body.extend_from_slice(b"k\0");
    body.extend_from_slice(&le8(1));
    body.extend_from_slice(&le8(2));
    body.push(0);
    body.extend_from_slice(&[10, 20, 30]);
    let buf = container(&body);
    let p = decode_package(&buf).unwrap();
    assert_eq!(p.get_names().len(), 1);
    assert_eq!(p.get_data("k"), Some(vec![20, 30]));
}

#[test]
fn offsets_may_overlap_and_need_no_order() {
    let mut body = b"tail\0".to_vec();
    body.extend_from_slice(&le8(2));
    body.extend_from_slice(&le8(2));
    body.extend_from_slice(b"all\0");
    body.extend_from_slice(&le8(0));
    body.extend_from_slice(&le8(4));
    body.push(0);
    body.extend_from_slice(&[1, 2, 3, 4]);
    let buf = container(&body);
    let p = decode_package(&buf).unwrap();
    assert_eq!(p.get_data("tail"), Some(vec![3, 4]));
    assert_eq!(p.get_data("all"), Some(vec![1, 2, 3, 4]));
}
