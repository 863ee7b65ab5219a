//! Front-end decisions and the command line.

use std::path::PathBuf;

use windirscope::cli::{parse_args, parse_usize, ArgError, ArgFlag};
use windirscope::commands::{
    byte_unit, check_root, drive_roots, is_access_denied, normalize_root, scan_config_for, skipped_summary,
    trim, ByteUnit, ProgressTracker, RootError, CLI_PROGRESS_EVERY, GUI_PROGRESS_EARLY, GUI_PROGRESS_EVERY,
};
use windirscope::event::ScanError;

fn args(list: &[&str]) -> Vec<String> {
    list.iter().map(|s| s.to_string()).collect()
}

#[test]
fn trim_removes_unicode_white_space() {
    assert_eq!(trim("  C:\\data \t\n"), "C:\\data");
    assert_eq!(trim("\u{3000}x\u{00A0}"), "x");
    assert_eq!(trim("   "), "");
    assert_eq!(trim("a b"), "a b");
}

#[test]
fn normalize_root_turns_drive_designator_into_root() {
    assert_eq!(normalize_root(" C: ").ok(), Some("C:\\".to_string()));
    assert_eq!(normalize_root("d:").ok(), Some("d:\\".to_string()));
    assert_eq!(normalize_root("C:\\Users").ok(), Some("C:\\Users".to_string()));
    assert_eq!(normalize_root("1:").ok(), Some("1:".to_string()));
    match normalize_root(" \t ") {
        Err(RootError::Empty) => {}
        _ => panic!("blank input must be refused"),
    }
}

#[test]
fn root_errors_have_their_messages() {
    assert_eq!(RootError::Empty.message(), "Path cannot be empty");
    let e = check_root("/nowhere".to_string(), false, false).err().unwrap();
    assert_eq!(e.message(), "Path does not exist: /nowhere");
    let e = check_root("/etc/hosts".to_string(), true, false).err().unwrap();
    assert_eq!(e.message(), "Path is not a directory: /etc/hosts");
    assert_eq!(check_root("/tmp".to_string(), true, true).ok(), Some("/tmp".to_string()));
}

#[test]
fn scan_config_clamps_workers_and_sets_depth() {
    let c = scan_config_for(PathBuf::from("/tmp"), Some(0), Some(3));
    assert_eq!(c.workers, 1);
    assert_eq!(c.max_depth, Some(3));
    assert!(!c.follow_symlinks);
    let c = scan_config_for(PathBuf::from("/tmp"), Some(8), None);
    assert_eq!(c.workers, 8);
    assert_eq!(c.max_depth, None);
    let c = scan_config_for(PathBuf::from("/tmp"), None, None);
    assert_eq!(c.workers, 4);
    assert_eq!(c.root, PathBuf::from("/tmp"));
}

#[test]
fn progress_reports_early_and_every_fiftieth() {
    let mut p = ProgressTracker::new(GUI_PROGRESS_EVERY, GUI_PROGRESS_EARLY);
    let mut reported = Vec::new();
    for d in 1..=120u64 {
        assert!(p.can_count(2));
        if p.record_dir(2, d * 10) {
            reported.push(d);
        }
    }
    assert_eq!(reported, vec![1, 2, 3, 4, 5, 50, 100]);
    assert_eq!(p.dirs_scanned, 120);
    assert_eq!(p.total_files, 240);
    assert_eq!(p.total_bytes, 1200);
    p.record_error();
    assert_eq!(p.errors, 1);
    let mut cli = ProgressTracker::new(CLI_PROGRESS_EVERY, 0);
    let mut n = 0;
    for _ in 0..250 {
        if cli.record_dir(0, 0) {
            n += 1;
        }
    }
    assert_eq!(n, 2);
    let full = ProgressTracker { dirs_scanned: 0, total_files: u64::MAX, total_bytes: 0, errors: 0, every: 1, early: 0 };
    assert!(!full.can_count(1));
}

#[test]
fn access_denied_messages_are_recognised_in_any_case() {
    assert!(is_access_denied("Access is denied. (os error 5)"));
    assert!(is_access_denied("PERMISSION DENIED"));
    assert!(is_access_denied("Operation not permitted: Permission"));
    assert!(!is_access_denied("No such file or directory (os error 2)"));
}

#[test]
fn skipped_summary_counts_all_and_samples_fifty() {
    let mut errors = Vec::new();
    for i in 0..60 {
        errors.push(ScanError { path: PathBuf::from(format!("/d{}", i)), message: "Access is denied.".into() });
        errors.push(ScanError { path: PathBuf::from("/x"), message: "disk on fire".into() });
    }
    let (count, sample) = skipped_summary(&errors);
    assert_eq!(count, 60);
    assert_eq!(sample.len(), 50);
    assert_eq!(sample[0], 0);
    assert_eq!(sample[1], 2);
    assert_eq!(sample[49], 98);
}

#[test]
fn drive_roots_follow_the_bit_mask() {
    assert_eq!(drive_roots(0b1101), vec!["A:\\", "C:\\", "D:\\"]);
    assert_eq!(drive_roots(1 << 25), vec!["Z:\\"]);
    assert!(drive_roots(0).is_empty());
    assert!(drive_roots(0xFC00_0000).is_empty());
}

#[test]
fn byte_units_switch_at_powers_of_1024() {
    assert!(byte_unit(0) == ByteUnit::Bytes);
    assert!(byte_unit(1023) == ByteUnit::Bytes);
    assert!(byte_unit(1024) == ByteUnit::Kilobytes);
    assert!(byte_unit(1048576) == ByteUnit::Megabytes);
    assert!(byte_unit(1073741823) == ByteUnit::Megabytes);
    assert!(byte_unit(1073741824) == ByteUnit::Gigabytes);
    assert!(byte_unit(u64::MAX) == ByteUnit::Terabytes);
    assert_eq!(ByteUnit::Gigabytes.divisor(), 1073741824);
    assert_eq!(ByteUnit::Terabytes.suffix(), "TB");
    assert_eq!(ByteUnit::Bytes.suffix(), "B");
}

#[test]
fn parse_usize_accepts_what_str_parse_accepts() {
    for s in ["0", "42", "+7", "007", "18446744073709551615", "", "+", "-1", " 1", "1x", "18446744073709551616"] {
        assert_eq!(parse_usize(s), s.parse::<usize>().ok(), "input {:?}", s);
    }
}

#[test]
fn parse_args_reads_flags_and_path() {
    let a = parse_args(&args(&["ws", "C:\\data", "--workers", "8", "--depth", "3", "--top", "5"])).ok().unwrap();
    assert_eq!(a.root, "C:\\data");
    assert_eq!(a.workers, 8);
    assert_eq!(a.depth, Some(3));
    assert_eq!(a.top, 5);
    let d = parse_args(&args(&["ws", "/a", "/b"])).ok().unwrap();
    assert_eq!(d.root, "/b");
    assert_eq!(d.workers, 4);
    assert_eq!(d.depth, None);
    assert_eq!(d.top, 10);
}

#[test]
fn parse_args_errors() {
    assert!(matches!(parse_args(&args(&["ws"])), Err(ArgError::Usage)));
    assert!(matches!(parse_args(&args(&["ws", "--top", "3"])), Err(ArgError::Usage)));
    assert!(matches!(
        parse_args(&args(&["ws", "/a", "--workers"])),
        Err(ArgError::MissingNumber(ArgFlag::Workers))
    ));
    assert!(matches!(
        parse_args(&args(&["ws", "/a", "--depth", "deep"])),
        Err(ArgError::MissingNumber(ArgFlag::Depth))
    ));
    match parse_args(&args(&["ws", "/a", "-v"])) {
        Err(e) => assert_eq!(e.message(), "Unknown flag: -v"),
        Ok(_) => panic!("unknown flag accepted"),
    }
    assert_eq!(ArgError::Usage.message(), "Usage: windirscope <PATH> [--workers N] [--depth N] [--top N]");
    assert_eq!(ArgError::MissingNumber(ArgFlag::Top).message(), "--top requires a number");
}

#[test]
fn mentions_denial_in_reads_lowercase_text_only() {
    assert!(windirscope::commands::mentions_denial_in("access is denied"));
    assert!(windirscope::commands::mentions_denial_in("no permission"));
    assert!(!windirscope::commands::mentions_denial_in("ACCESS IS DENIED"));
    assert!(!windirscope::commands::mentions_denial_in("not found"));
}
