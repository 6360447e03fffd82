use video_catalog::fingerprint::{fingerprint, sample_length, FingerprintError};
use video_catalog::module::{after_pass, config_text, AfterPass, Clean, Module, Reencode, Scan};
use video_catalog::path::{file_extension, with_extension};
use video_catalog::probe::{
    option_downcast, parse_bit_rate, probe_info, select_video_stream, unpack_probe_result, Kbps,
    ProbeStream,
};
use video_catalog::text::text_eq;
use video_catalog::timestamp::{is_newer, last_modified, later, Timestamp, TimestampError};

fn ts(secs: i64, nanos: u32) -> Timestamp {
    Timestamp { secs, nanos }
}

fn stream(kind: Option<&str>, codec: Option<&str>, w: Option<i64>, h: Option<i64>, rate: Option<&str>) -> ProbeStream {
    ProbeStream {
        codec_type: kind.map(|s| s.to_string()),
        codec_name: codec.map(|s| s.to_string()),
        width: w,
        height: h,
        bit_rate: rate.map(|s| s.to_string()),
    }
}

#[test]
fn bit_rate_with_surrounding_whitespace() {
    assert_eq!(parse_bit_rate("  1234.5Kbit/s \n"), Some(Kbps { mantissa: 12345, scale: 1 }));
}

#[test]
fn bit_rate_absent_forms() {
    assert_eq!(parse_bit_rate("n/a"), None);
    assert_eq!(parse_bit_rate(""), None);
    assert_eq!(parse_bit_rate("   "), None);
    assert_eq!(parse_bit_rate("1234"), None);
    assert_eq!(parse_bit_rate("1. Kbit/s"), None);
    assert_eq!(parse_bit_rate("1.2.3 Kbit/s"), None);
    assert_eq!(parse_bit_rate("12 Kbit/s extra"), None);
    assert_eq!(parse_bit_rate("-5 Kbit/s"), None);
}

#[test]
fn bit_rate_number_shapes() {
    assert_eq!(parse_bit_rate("1234 Kbit/s"), Some(Kbps { mantissa: 1234, scale: 0 }));
    assert_eq!(parse_bit_rate(".5Kbit/s"), Some(Kbps { mantissa: 5, scale: 1 }));
    assert_eq!(parse_bit_rate("0.075 Kbit/s"), Some(Kbps { mantissa: 75, scale: 3 }));
    assert_eq!(parse_bit_rate("\t7 \t Kbit/s\t"), Some(Kbps { mantissa: 7, scale: 0 }));
}

#[test]
fn bit_rate_too_many_digits_is_absent() {
    assert_eq!(
        parse_bit_rate("18446744073709551615 Kbit/s"),
        Some(Kbps { mantissa: u64::MAX, scale: 0 })
    );
    assert_eq!(parse_bit_rate("18446744073709551616 Kbit/s"), None);
    assert_eq!(parse_bit_rate("1844674407370955161.6 Kbit/s"), None);
    assert_eq!(
        parse_bit_rate("1844674407370955161.5 Kbit/s"),
        Some(Kbps { mantissa: u64::MAX, scale: 1 })
    );
}

#[test]
fn timestamp_fatal_without_both_times() {
    assert_eq!(last_modified(None, None), Err(TimestampError::NoTimestamp));
}

#[test]
fn timestamp_takes_later_or_only() {
    assert_eq!(last_modified(Some(ts(10, 5)), Some(ts(10, 7))), Ok(ts(10, 7)));
    assert_eq!(last_modified(Some(ts(11, 0)), Some(ts(10, 999_999_999))), Ok(ts(11, 0)));
    assert_eq!(last_modified(Some(ts(3, 0)), None), Ok(ts(3, 0)));
    assert_eq!(last_modified(None, Some(ts(4, 0))), Ok(ts(4, 0)));
    assert_eq!(later(ts(-1, 0), ts(-2, 0)), ts(-1, 0));
}

#[test]
fn newer_needs_a_whole_millisecond() {
    assert!(is_newer(&ts(10, 1_000_000), &ts(10, 0)));
    assert!(!is_newer(&ts(10, 999_999), &ts(10, 0)));
    assert!(!is_newer(&ts(10, 0), &ts(10, 0)));
    assert!(!is_newer(&ts(9, 0), &ts(10, 0)));
    assert!(is_newer(&ts(11, 0), &ts(10, 999_000_000)));
    assert!(is_newer(&ts(i64::MAX, 0), &ts(i64::MIN, 0)));
}

#[test]
fn fingerprint_of_small_file() {
    let head = b"hello".to_vec();
    assert_eq!(
        fingerprint(&head, 5).unwrap(),
        "2cf24dba5fb0a30e26e83b2ac5b9e29e1b161e5c1fa7425e73043362938b9824"
    );
}

#[test]
fn fingerprint_covers_only_the_prefix() {
    let mut a = vec![7u8; 2000];
    let b = vec![7u8; 1024];
    a[1500] = 1;
    assert_eq!(fingerprint(&a, 5000), fingerprint(&b, 5000));
    assert_ne!(fingerprint(&a, 5000).unwrap(), fingerprint(&b[..1000], 1000).unwrap());
    assert_eq!(sample_length(5000), 1024);
    assert_eq!(sample_length(10), 10);
}

#[test]
fn fingerprint_short_read() {
    assert_eq!(fingerprint(b"abc", 10), Err(FingerprintError::ShortRead));
    assert_eq!(fingerprint(&[0u8; 100], 5000), Err(FingerprintError::ShortRead));
}

#[test]
fn extensions() {
    assert_eq!(file_extension(&"/videos/a/movie.MKV".to_string()), Some("mkv".to_string()));
    assert_eq!(file_extension(&"/videos/movie.MKV".to_string()), Some("mkv".to_string()));
    assert_eq!(file_extension(&"/videos/archive.tar.gz".to_string()), Some("gz".to_string()));
    assert_eq!(file_extension(&"/videos/.hidden".to_string()), None);
    assert_eq!(file_extension(&"/videos/noext".to_string()), None);
    assert_eq!(file_extension(&"/vid.eos/noext".to_string()), None);
    assert_eq!(file_extension(&"/videos/trailing.".to_string()), Some("".to_string()));
    assert_eq!(file_extension(&"/videos/..".to_string()), None);
    assert_eq!(file_extension(&"".to_string()), None);
}

#[test]
fn replaced_extensions() {
    assert_eq!(with_extension("/v/movie.avi", "mkv"), "/v/movie.mkv");
    assert_eq!(with_extension("/v/movie", "mkv"), "/v/movie.mkv");
    assert_eq!(with_extension("/v/a.b.avi", "mkv"), "/v/a.b.mkv");
    assert_eq!(with_extension("/v/.hidden", "mkv"), "/v/.hidden.mkv");
    assert_eq!(with_extension("/v/movie.avi", ""), "/v/movie");
    assert_eq!(with_extension("/tmp/converting.x", "mp4"), "/tmp/converting.mp4");
    assert_eq!(with_extension("/v/..", "mkv"), "/v/..");
}

#[test]
fn downcast_keeps_low_bits() {
    assert_eq!(option_downcast(Some(1920)), Some(1920));
    assert_eq!(option_downcast(None), None);
    assert_eq!(option_downcast(Some(1 << 32 | 5)), Some(5));
}

#[test]
fn first_video_stream_is_selected() {
    let streams = vec![
        stream(Some("audio"), Some("aac"), None, None, Some("128 Kbit/s")),
        stream(Some("video"), Some("h264"), Some(1920), Some(1080), Some("4000 Kbit/s")),
        stream(Some("video"), Some("hevc"), Some(640), Some(480), None),
    ];
    assert_eq!(select_video_stream(&streams), Some(1));
    let info = probe_info(Some(&streams));
    assert_eq!(info.codec, Some("h264".to_string()));
    assert_eq!(info.width, Some(1920));
    assert_eq!(info.height, Some(1080));
    assert_eq!(info.bit_rate, Some(Kbps { mantissa: 4000, scale: 0 }));
}

#[test]
fn no_video_stream_gives_absent_fields() {
    let streams = vec![stream(Some("audio"), Some("aac"), None, None, None)];
    let info = probe_info(Some(&streams));
    assert!(info.codec.is_none() && info.width.is_none() && info.height.is_none() && info.bit_rate.is_none());
    let failed = probe_info(None);
    assert!(failed.codec.is_none() && failed.bit_rate.is_none());
    let unpacked = unpack_probe_result(None);
    assert!(unpacked.width.is_none());
}

#[test]
fn missing_keys_are_tolerated() {
    let s = stream(Some("video"), None, None, Some(720), Some("n/a"));
    let info = unpack_probe_result(Some(&s));
    assert_eq!(info.codec, None);
    assert_eq!(info.width, None);
    assert_eq!(info.height, Some(720));
    assert_eq!(info.bit_rate, None);
}

#[test]
fn text_equality() {
    assert!(text_eq("video", "video"));
    assert!(!text_eq("video", "Video"));
    assert!(!text_eq("video", "vide"));
}

#[test]
fn config_values_lose_their_quotes() {
    assert_eq!(config_text("\"mkv\""), "mkv");
    assert_eq!(config_text("hevc"), "hevc");
    assert_eq!(config_text("\"\""), "");
    assert_eq!(config_text("\"a\"b\""), "a\"b");
}

#[test]
fn scheduler_steps() {
    assert_eq!(after_pass(false, 60), AfterPass::Stop);
    assert_eq!(after_pass(true, 60), AfterPass::Sleep(60));
    assert_eq!(after_pass(true, -3), AfterPass::Sleep(0));
}

#[test]
fn module_names() {
    assert_eq!(Scan {}.module_name(), "scan");
    assert_eq!(Clean {}.module_name(), "clean");
    assert_eq!(Reencode {}.module_name(), "reencode");
}
