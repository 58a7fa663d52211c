use persistex_core::calendar::civil_from_days;
use persistex_core::export::{
    artifact_document, decimal, escape, format_utc, now_utc_iso, utc_from_reading, ArtifactChannel,
    ArtifactHeader,
};
use persistex_core::sha256::{digest, hex};

#[test]
fn sha256_of_empty_input() {
    assert_eq!(
        hex(b""),
        "e3b0c44298fc1c149afbf4c8996fb92427ae41e4649b934ca495991b7852b855"
    );
}

#[test]
fn sha256_of_abc() {
    assert_eq!(
        hex(b"abc"),
        "ba7816bf8f01cfea414140de5dae2223b00361a396177a9cb410ff61f20015ad"
    );
}

#[test]
fn sha256_of_two_block_message() {
    assert_eq!(
        hex(b"abcdbcdecdefdefgefghfghighijhijkijkljklmklmnlmnomnopnopq"),
        "248d6a61d20638b8e5c026930c3e6039a33ce45964ff2167f6ecedd419db06c1"
    );
}

#[test]
fn sha256_across_padding_boundaries() {
    // 55, 56 and 64 bytes: the length field fits, spills, and a full block.
    assert_eq!(
        hex(&[b'a'; 55]),
        "9f4390f8d30c2dd92ec9f095b65e2b9ae9b0a925a5258e241c9f1e910f734318"
    );
    assert_eq!(
        hex(&[b'a'; 56]),
        "b35439a4ac6f0948b6d6f9e3c6af0f5f590ce20f1bde7090ef7970686ec6738a"
    );
    assert_eq!(
        hex(&[b'a'; 64]),
        "ffe054fe7ae0cb6dc65c3af9b61d5209f439851db43d0ba5997337df154668eb"
    );
    assert_eq!(digest(b"abc").len(), 32);
}

#[test]
fn decimal_has_no_leading_zeros() {
    assert_eq!(decimal(0), "0");
    assert_eq!(decimal(7), "7");
    assert_eq!(decimal(1200), "1200");
    assert_eq!(decimal(u64::MAX), "18446744073709551615");
}

#[test]
fn escape_covers_quotes_backslashes_and_controls() {
    assert_eq!(escape("ail"), "ail");
    assert_eq!(escape("a\"b"), "a\\\"b");
    assert_eq!(escape("c:\\x"), "c:\\\\x");
    assert_eq!(escape("l1\nl2\r\t"), "l1\\nl2\\r\\t");
    assert_eq!(escape("\u{1}\u{1f}"), "\\u0001\\u001f");
    assert_eq!(escape("δ-rud"), "δ-rud");
}

#[test]
fn epoch_and_known_dates() {
    assert_eq!(civil_from_days(0), (1970, 1, 1));
    assert_eq!(civil_from_days(-1), (1969, 12, 31));
    assert_eq!(civil_from_days(59), (1970, 3, 1));
    assert_eq!(civil_from_days(11_016), (2000, 2, 29));
    assert_eq!(civil_from_days(11_017), (2000, 3, 1));
    assert_eq!(civil_from_days(-719_468), (0, 3, 1));
}

#[test]
fn timestamps_format_as_iso_8601() {
    assert_eq!(format_utc(0), "1970-01-01T00:00:00Z");
    assert_eq!(format_utc(1_767_225_600), "2026-01-01T00:00:00Z");
    assert_eq!(format_utc(951_827_696), "2000-02-29T12:34:56Z");
    assert_eq!(format_utc(-1), "1969-12-31T23:59:59Z");
    assert_eq!(format_utc(253_402_300_799), "9999-12-31T23:59:59Z");
    assert_eq!(format_utc(253_402_300_800), "10000-01-01T00:00:00Z");
    assert_eq!(format_utc(-62_198_755_200), "-001-01-01T00:00:00Z");
}

#[test]
fn now_is_a_well_formed_timestamp() {
    let s = now_utc_iso();
    assert_eq!(s.len(), 20);
    assert!(s.ends_with('Z'));
    assert_eq!(&s[4..5], "-");
    assert_eq!(&s[10..11], "T");
}

fn channel(name: &str, bins: Vec<usize>) -> ArtifactChannel {
    ArtifactChannel {
        name: name.to_string(),
        bins,
        frequencies_hz: vec!["0.1".into(), "0.2".into()],
        amplitudes: vec!["0.5".into(), "0.25".into()],
        phases_rad: vec!["0".into(), "3.1415926536".into()],
        peak_limit: "1".into(),
        rpf: "1.2345".into(),
        f_min_hz: "0.1".into(),
        f_max_hz: "0.2".into(),
        n_tones: 2,
    }
}

fn header() -> ArtifactHeader {
    ArtifactHeader {
        created_utc: "2026-01-01T00:00:00Z".into(),
        sample_rate_hz: "100".into(),
        fundamental_hz: "0.0333333333".into(),
        record_length_s: "30".into(),
        n_periods: 2,
        duration_s: "60".into(),
        n_samples: 6000,
    }
}

#[test]
fn artifact_hash_covers_the_document() {
    let json = artifact_document(&header(), &vec![channel("u0", vec![3, 6]), channel("u\"1", vec![4, 8])]);
    assert!(json.contains("\"format\":\"persistex.excitation\""));
    let marker = ", \"sha256\": \"";
    let at = json.find(marker).expect("hash present");
    let body = format!("{}}}", &json[..at]);
    let digest = &json[at + marker.len()..json.len() - 2];
    assert_eq!(hex(body.as_bytes()), digest);
}

#[test]
fn artifact_layout_is_exact() {
    let json = artifact_document(&header(), &vec![channel("ail", vec![3, 6])]);
    let body = "{\"format\":\"persistex.excitation\",\"version\":1,\"created_utc\":\"2026-01-01T00:00:00Z\",\
\"sample_rate_hz\":100,\"fundamental_hz\":0.0333333333,\"record_length_s\":30,\"n_periods\":2,\
\"duration_s\":60,\"n_samples\":6000,\"channels\":[{\"name\":\"ail\",\"bins\":[3,6],\
\"frequencies_hz\":[0.1,0.2],\"amplitudes\":[0.5,0.25],\"phases_rad\":[0,3.1415926536],\
\"peak_limit\":1,\"rpf\":1.2345,\"spec\":{\"f_min_hz\":0.1,\"f_max_hz\":0.2,\"n_tones\":2}}]}";
    let expected = format!(
        "{}, \"sha256\": \"{}\"}}",
        &body[..body.len() - 1],
        hex(body.as_bytes())
    );
    assert_eq!(json, expected);
}

/// Days from 1970-01-01 to a proleptic Gregorian date.
fn days_from_civil(y: i64, m: i64, d: i64) -> i64 {
    let leaps = |y: i64| (y - 1).div_euclid(4) - (y - 1).div_euclid(100) + (y - 1).div_euclid(400);
    let before = [0, 31, 59, 90, 120, 151, 181, 212, 243, 273, 304, 334][(m - 1) as usize];
    let leap = y % 4 == 0 && (y % 100 != 0 || y % 400 == 0);
    365 * (y - 1970) + leaps(y) - leaps(1970) + before + if m > 2 && leap { 1 } else { 0 } + d - 1
}

#[test]
fn timestamps_read_back_to_their_second() {
    for secs in [0i64, 59, 86_399, 86_400, 951_827_696, 1_767_225_600, 4_107_542_399, 253_402_300_799] {
        let t = format_utc(secs);
        assert_eq!(t.len(), 20, "{t}");
        let field = |a: usize, b: usize| t[a..b].parse::<i64>().unwrap();
        let back = days_from_civil(field(0, 4), field(5, 7), field(8, 10)) * 86_400
            + field(11, 13) * 3600
            + field(14, 16) * 60
            + field(17, 19);
        assert_eq!(back, secs, "{t}");
    }
}

#[test]
fn clock_readings_format_as_their_second() {
    assert_eq!(utc_from_reading(Some(951_782_400)), "2000-02-29T00:00:00Z");
    assert_eq!(utc_from_reading(Some(86_399)), "1970-01-01T23:59:59Z");
    // a clock set before the epoch reads as the epoch itself
    assert_eq!(utc_from_reading(None), "1970-01-01T00:00:00Z");
}
