use reclaim::actions::DeleteMode;
use reclaim::cli::{parse_size, Args, Format};
use reclaim::path::FilePath;

#[test]
fn parse_size_units() {
    assert_eq!(parse_size("0"), Ok(0));
    assert_eq!(parse_size("500"), Ok(500));
    assert_eq!(parse_size("1K"), Ok(1024));
    assert_eq!(parse_size("500K"), Ok(500 * 1024));
    assert_eq!(parse_size("1M"), Ok(1024 * 1024));
    assert_eq!(parse_size("2G"), Ok(2 * 1024 * 1024 * 1024));
    assert_eq!(parse_size("1mb"), Ok(1024 * 1024));
}

#[test]
fn parse_size_rejects_invalid() {
    assert!(parse_size("abc").is_err());
    assert!(parse_size("1X").is_err());
    assert!(parse_size("").is_err());
}

#[test]
fn parse_size_terabytes_and_plain_bytes() {
    assert_eq!(parse_size("3T"), Ok(3 * 1024 * 1024 * 1024 * 1024));
    assert_eq!(parse_size("7b"), Ok(7));
    assert_eq!(parse_size("7 kB"), Ok(7 * 1024));
    assert_eq!(parse_size("00012"), Ok(12));
}

#[test]
fn parse_size_reads_back_every_number() {
    for n in [0, 9, 10, 4096, u64::MAX - 1, u64::MAX] {
        assert_eq!(parse_size(&n.to_string()), Ok(n));
    }
}

#[test]
fn parse_size_ignores_surrounding_space() {
    assert_eq!(parse_size("  12K\n"), parse_size("12K"));
    assert_eq!(parse_size("\u{3000}12K\u{2009}"), Ok(12 * 1024));
    assert_eq!(parse_size(" \t "), Err("大小不能为空".to_string()));
}

#[test]
fn parse_size_trims_what_unicode_calls_white_space() {
    for n in 0..=0x10FFFFu32 {
        if let Some(c) = char::from_u32(n) {
            if c.is_whitespace() {
                assert_eq!(parse_size(&format!("{c}5{c}")), Ok(5), "{n:x}");
            } else if !c.is_ascii_digit() {
                assert!(parse_size(&format!("{c}5")).is_err(), "{n:x}");
            }
        }
    }
}

#[test]
fn parse_size_ignores_case() {
    for unit in ["k", "m", "g", "t", "kb", "mb", "gb", "tb", "b"] {
        let lower = format!("3{unit}");
        assert_eq!(parse_size(&lower), parse_size(&lower.to_uppercase()));
    }
}

#[test]
fn parse_size_says_what_is_wrong() {
    assert_eq!(parse_size(""), Err("大小不能为空".to_string()));
    assert_eq!(parse_size(" abc "), Err("无效的大小: abc".to_string()));
    assert_eq!(
        parse_size("18446744073709551616"),
        Err("无效的大小: 18446744073709551616".to_string())
    );
    assert_eq!(parse_size("1X"), Err("未知的大小单位: 1X".to_string()));
    assert_eq!(parse_size("1KBB"), Err("未知的大小单位: 1KBB".to_string()));
    assert_eq!(parse_size("1 K B"), Err("未知的大小单位: 1 K B".to_string()));
    assert_eq!(
        parse_size("18446744073709551615K"),
        Err("大小溢出: 18446744073709551615K".to_string())
    );
    assert_eq!(parse_size("16777216T"), Err("大小溢出: 16777216T".to_string()));
    assert_eq!(parse_size("16777215T"), Ok(16777215 << 40));
}

fn args(threads: Option<usize>) -> Args {
    Args {
        path: FilePath { parts: Vec::new(), tail: Vec::new() },
        top: 20,
        min_size: 1024,
        dup: false,
        format: Format::Table,
        threads,
        hidden: true,
        tui: false,
        delete_mode: DeleteMode::Trash,
    }
}

#[test]
fn worker_threads_fall_back_to_the_machine() {
    assert_eq!(args(Some(3)).worker_threads(Some(8)), 3);
    assert_eq!(args(None).worker_threads(Some(8)), 8);
    assert_eq!(args(None).worker_threads(None), 1);
}

#[test]
fn scan_options_follow_the_arguments() {
    let options = args(None).scan_options(5);
    assert_eq!(options.threads, 5);
    assert_eq!(options.min_size, 1024);
    assert!(options.include_hidden);
}
