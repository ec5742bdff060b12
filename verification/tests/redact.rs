use utracy_redact::RedactError;
use utracy_redact::pipeline::process;
use utracy_redact::policy::{field_matches, find_sub, lowercase};
use utracy_redact::record::redaction_token;
use utracy_redact::utf8::utf8_valid;
use utracy_redact::wire::{read_lenpfx_string, read_u32_le, read_u64_le, write_lenpfx_string, write_u32_le};

const HEADER_SIZE: usize = 1200;
const SIGNATURE: u64 = 0x6D64796361727475;
const VERSION: u32 = 2;

fn header(signature: u64, version: u32) -> Vec<u8> {
    let mut h = vec![0u8; HEADER_SIZE];
    h[0..8].copy_from_slice(&signature.to_le_bytes());
    h[8..12].copy_from_slice(&version.to_le_bytes());
    h
}

fn push_str(out: &mut Vec<u8>, s: &str) {
    out.extend_from_slice(&(s.len() as u32).to_le_bytes());
    out.extend_from_slice(s.as_bytes());
}

fn push_record(out: &mut Vec<u8>, name: &str, function: &str, file: &str, line: u32, color: u32) {
    push_str(out, name);
    push_str(out, function);
    push_str(out, file);
    out.extend_from_slice(&line.to_le_bytes());
    out.extend_from_slice(&color.to_le_bytes());
}

fn markers(items: &[&str]) -> Vec<Vec<u8>> {
    items.iter().map(|s| s.as_bytes().to_vec()).collect()
}

/// A valid file with two records and a short tail.
fn two_record_file() -> Vec<u8> {
    let mut input = header(SIGNATURE, VERSION);
    input.extend_from_slice(&2u32.to_le_bytes());
    push_record(&mut input, "main", "compute", "/src/app.cpp", 10, 1);
    push_record(&mut input, "keys", "load_secret_key", "/src/app.cpp", 20, 2);
    input.extend_from_slice(b"event stream tail bytes");
    input
}

#[test]
fn scenario_two_records_one_secret() {
    let input = two_record_file();
    let fm = markers(&["code_secret"]);
    let km = markers(&["secret"]);
    let r = process(&input, false, &fm, &km).unwrap();
    assert_eq!(r.redacted_functions, vec![b"load_secret_key".to_vec()]);

    let mut expected = header(SIGNATURE, VERSION);
    expected.extend_from_slice(&2u32.to_le_bytes());
    push_record(&mut expected, "main", "compute", "/src/app.cpp", 10, 1);
    push_record(&mut expected, "<redacted>", "<redacted>", "<redacted>", 20, 2);
    expected.extend_from_slice(b"event stream tail bytes");
    assert_eq!(r.output, expected);
}

#[test]
fn scenario_empty_table() {
    let mut input = header(SIGNATURE, VERSION);
    input.extend_from_slice(&0u32.to_le_bytes());
    input.extend_from_slice(b"only tail");
    let fm = markers(&["code_secret"]);
    let km = markers(&["secret"]);
    let r = process(&input, false, &fm, &km).unwrap();
    assert!(r.redacted_functions.is_empty());
    assert_eq!(r.output, input);
}

#[test]
fn round_trip_identity_when_nothing_matches() {
    let input = two_record_file();
    let fm = markers(&["no_such_path"]);
    let km = markers(&["no_such_function"]);
    let r = process(&input, false, &fm, &km).unwrap();
    assert!(r.redacted_functions.is_empty());
    assert_eq!(r.output, input);
}

#[test]
fn round_trip_identity_with_empty_markers() {
    let input = two_record_file();
    let fm = markers(&[]);
    let km = markers(&[]);
    let r = process(&input, false, &fm, &km).unwrap();
    assert!(r.redacted_functions.is_empty());
    assert_eq!(r.output, input);
}

#[test]
fn idempotent_on_already_redacted_output() {
    let input = two_record_file();
    let fm = markers(&["code_secret"]);
    let km = markers(&["secret"]);
    let first = process(&input, false, &fm, &km).unwrap();
    let second = process(&first.output, false, &fm, &km).unwrap();
    assert!(second.redacted_functions.is_empty());
    assert_eq!(second.output, first.output);
}

#[test]
fn output_is_fixed_point_even_when_token_matches_a_marker() {
    // the marker "red" occurs in "prepared_data" and also in "<redacted>":
    // a second run reports the token but changes no byte
    let mut input = header(SIGNATURE, VERSION);
    input.extend_from_slice(&1u32.to_le_bytes());
    push_record(&mut input, "d", "prepared_data", "/x", 3, 4);
    let fm = markers(&[]);
    let km = markers(&["red"]);
    let first = process(&input, false, &fm, &km).unwrap();
    assert_eq!(first.redacted_functions, vec![b"prepared_data".to_vec()]);
    let second = process(&first.output, false, &fm, &km).unwrap();
    assert_eq!(second.output, first.output);
    assert_eq!(second.redacted_functions, vec![b"<redacted>".to_vec()]);
}

#[test]
fn count_field_is_preserved() {
    let input = two_record_file();
    let fm = markers(&["code_secret"]);
    let km = markers(&["secret"]);
    let r = process(&input, false, &fm, &km).unwrap();
    assert_eq!(&r.output[0..1204], &input[0..1204]);
    assert_eq!(&r.output[1200..1204], &2u32.to_le_bytes());
}

#[test]
fn matching_is_case_insensitive() {
    let mut input = header(SIGNATURE, VERSION);
    input.extend_from_slice(&1u32.to_le_bytes());
    push_record(&mut input, "k", "Load_SECRET_Key", "/x", 1, 0);
    let fm = markers(&[]);
    let km = markers(&["sEcReT"]);
    let r = process(&input, false, &fm, &km).unwrap();
    assert_eq!(r.redacted_functions, vec![b"Load_SECRET_Key".to_vec()]);
}

#[test]
fn file_marker_alone_redacts() {
    let mut input = header(SIGNATURE, VERSION);
    input.extend_from_slice(&1u32.to_le_bytes());
    push_record(&mut input, "k", "plain_function", "/src/code_secret/a.cpp", 7, 9);
    let fm = markers(&["code_secret"]);
    let km = markers(&[]);
    let r = process(&input, false, &fm, &km).unwrap();
    assert_eq!(r.redacted_functions, vec![b"plain_function".to_vec()]);
    // line and color survive at the end of the single redacted record
    let out = &r.output;
    let tail = &out[out.len() - 8..];
    assert_eq!(tail, &[7, 0, 0, 0, 9, 0, 0, 0]);
}

#[test]
fn name_field_never_drives_redaction() {
    let mut input = header(SIGNATURE, VERSION);
    input.extend_from_slice(&1u32.to_le_bytes());
    push_record(&mut input, "secret", "plain_function", "/plain", 1, 1);
    let fm = markers(&["code_secret"]);
    let km = markers(&["secret"]);
    let r = process(&input, false, &fm, &km).unwrap();
    assert!(r.redacted_functions.is_empty());
    assert_eq!(r.output, input);
}

#[test]
fn rejects_bad_signature() {
    let mut input = header(0x1122334455667788, VERSION);
    input.extend_from_slice(&0u32.to_le_bytes());
    let fm = markers(&[]);
    let km = markers(&[]);
    assert_eq!(process(&input, false, &fm, &km), Err(RedactError::BadSignature));
}

#[test]
fn rejects_unsupported_version() {
    let mut input = header(SIGNATURE, 3);
    input.extend_from_slice(&0u32.to_le_bytes());
    let fm = markers(&[]);
    let km = markers(&[]);
    assert_eq!(process(&input, false, &fm, &km), Err(RedactError::UnsupportedVersion));
}

#[test]
fn rejects_short_header() {
    let input = vec![0u8; 100];
    let fm = markers(&[]);
    let km = markers(&[]);
    assert_eq!(process(&input, false, &fm, &km), Err(RedactError::TruncatedInput));
}

#[test]
fn rejects_missing_count() {
    let input = header(SIGNATURE, VERSION);
    let fm = markers(&[]);
    let km = markers(&[]);
    assert_eq!(process(&input, false, &fm, &km), Err(RedactError::TruncatedInput));
}

#[test]
fn rejects_file_truncated_mid_record() {
    let mut input = header(SIGNATURE, VERSION);
    input.extend_from_slice(&1u32.to_le_bytes());
    push_str(&mut input, "name");
    push_str(&mut input, "function");
    // file string announces 100 bytes but the input ends early
    input.extend_from_slice(&100u32.to_le_bytes());
    input.extend_from_slice(b"short");
    let fm = markers(&[]);
    let km = markers(&[]);
    assert_eq!(process(&input, false, &fm, &km), Err(RedactError::TruncatedInput));
}

#[test]
fn rejects_invalid_utf8_payload() {
    let mut input = header(SIGNATURE, VERSION);
    input.extend_from_slice(&1u32.to_le_bytes());
    input.extend_from_slice(&2u32.to_le_bytes());
    input.extend_from_slice(&[0xFF, 0xFE]);
    let fm = markers(&[]);
    let km = markers(&[]);
    assert_eq!(process(&input, false, &fm, &km), Err(RedactError::InvalidEncoding));
}

#[test]
fn dry_run_writes_nothing_and_reports_the_same_names() {
    let input = two_record_file();
    let fm = markers(&["code_secret"]);
    let km = markers(&["secret"]);
    let dry = process(&input, true, &fm, &km).unwrap();
    let real = process(&input, false, &fm, &km).unwrap();
    assert!(dry.output.is_empty());
    assert_eq!(dry.redacted_functions, real.redacted_functions);
}

#[test]
fn dry_run_rejects_like_a_real_run() {
    let mut input = header(SIGNATURE, 9);
    input.extend_from_slice(&0u32.to_le_bytes());
    let fm = markers(&[]);
    let km = markers(&[]);
    assert_eq!(process(&input, true, &fm, &km), Err(RedactError::UnsupportedVersion));
}

#[test]
fn read_u32_le_reads_little_endian() {
    let data = vec![0x78, 0x56, 0x34, 0x12, 0xAA];
    let (v, next) = read_u32_le(&data, 0).unwrap();
    assert_eq!(v, 0x12345678);
    assert_eq!(next, 4);
    assert_eq!(read_u32_le(&data, 2), Err(RedactError::TruncatedInput));
}

#[test]
fn read_u64_le_reads_little_endian() {
    let data = SIGNATURE.to_le_bytes().to_vec();
    let (v, next) = read_u64_le(&data, 0).unwrap();
    assert_eq!(v, SIGNATURE);
    assert_eq!(next, 8);
}

#[test]
fn write_u32_le_writes_little_endian() {
    let mut out = Vec::new();
    write_u32_le(&mut out, 0x0A0B0C0D);
    assert_eq!(out, vec![0x0D, 0x0C, 0x0B, 0x0A]);
}

#[test]
fn lenpfx_string_round_trip() {
    let mut wire = Vec::new();
    write_lenpfx_string(&mut wire, &b"hello world".to_vec());
    assert_eq!(&wire[0..4], &[11, 0, 0, 0]);
    let (payload, next) = read_lenpfx_string(&wire, 0).unwrap();
    assert_eq!(payload, b"hello world".to_vec());
    assert_eq!(next, wire.len());
}

#[test]
fn lenpfx_string_rejects_bad_utf8() {
    let mut wire = vec![1, 0, 0, 0, 0xC0];
    assert_eq!(read_lenpfx_string(&wire, 0), Err(RedactError::InvalidEncoding));
    wire = vec![5, 0, 0, 0, b'a'];
    assert_eq!(read_lenpfx_string(&wire, 0), Err(RedactError::TruncatedInput));
}

#[test]
fn utf8_checker_accepts_and_rejects() {
    assert!(utf8_valid(&"grüße 漢字 🚀".as_bytes().to_vec()));
    assert!(utf8_valid(&Vec::new()));
    assert!(!utf8_valid(&vec![0xC0, 0xAF])); // overlong form
    assert!(!utf8_valid(&vec![0xED, 0xA0, 0x80])); // surrogate
    assert!(!utf8_valid(&vec![0xF5, 0x80, 0x80, 0x80])); // past U+10FFFF
    assert!(!utf8_valid(&vec![0xE2, 0x82])); // truncated sequence
}

#[test]
fn lowercase_is_ascii_only() {
    assert_eq!(lowercase(&b"MiXeD_123".to_vec()), b"mixed_123".to_vec());
    let umlaut = "Ä".as_bytes().to_vec();
    assert_eq!(lowercase(&umlaut), umlaut);
}

#[test]
fn substring_search_finds_and_misses() {
    assert!(find_sub(&b"abcdef".to_vec(), &b"cde".to_vec()));
    assert!(find_sub(&b"abcdef".to_vec(), &b"".to_vec()));
    assert!(!find_sub(&b"abcdef".to_vec(), &b"ce".to_vec()));
    assert!(!find_sub(&b"ab".to_vec(), &b"abc".to_vec()));
}

#[test]
fn field_matching_lowers_both_sides() {
    let ms = markers(&["SeCrEt"]);
    assert!(field_matches(&b"LOAD_secret_KEY".to_vec(), &ms));
    assert!(!field_matches(&b"plain".to_vec(), &ms));
}

#[test]
fn token_is_the_redacted_literal() {
    assert_eq!(redaction_token(), b"<redacted>".to_vec());
}
