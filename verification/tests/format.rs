use safeclean::cleaner::CleanResult;
use safeclean::projects::ProjectType;
use safeclean::scanner::format_size;
use safeclean::scanner::FoundDir;

fn entry(name: &str, size: u64) -> FoundDir {
    FoundDir { path: vec![name.to_string()], project_type: ProjectType::Rust, size_bytes: size }
}

#[test]
fn bytes_below_one_kilobyte_stay_whole() {
    assert_eq!(format_size(0), "0 B");
    assert_eq!(format_size(1), "1 B");
    assert_eq!(format_size(512), "512 B");
    assert_eq!(format_size(1023), "1023 B");
}

#[test]
fn kilobytes_with_one_decimal() {
    assert_eq!(format_size(1024), "1.0 KB");
    assert_eq!(format_size(1536), "1.5 KB");
    assert_eq!(format_size(2047), "2.0 KB");
    assert_eq!(format_size(10 * 1024), "10.0 KB");
}

#[test]
fn megabytes_with_one_decimal() {
    assert_eq!(format_size(1024 * 1024), "1.0 MB");
    assert_eq!(format_size(50 * 1024 * 1024), "50.0 MB");
    assert_eq!(format_size(1024 * 1024 + 512 * 1024), "1.5 MB");
}

#[test]
fn gigabytes_with_one_decimal() {
    assert_eq!(format_size(1024 * 1024 * 1024), "1.0 GB");
    assert_eq!(format_size(1_892_000_000), "1.8 GB");
    assert_eq!(format_size(3 * 1024 * 1024 * 1024), "3.0 GB");
}

#[test]
fn largest_size_is_still_exact() {
    assert_eq!(format_size(u64::MAX), "17179869184.0 GB");
}

#[test]
fn threshold_edges() {
    // just below each unit boundary the smaller unit is kept
    assert_eq!(format_size(1024 * 1024 - 1), "1024.0 KB");
    assert_eq!(format_size(1024 * 1024 * 1024 - 1), "1024.0 MB");
}

#[test]
fn size_human_matches_format_size() {
    let e = entry("t", 1536);
    assert_eq!(e.size_human(), "1.5 KB");
}

#[test]
fn clean_result_totals_deleted_bytes_only() {
    let res = CleanResult {
        deleted: vec![entry("a", 100), entry("b", 250)],
        failed: vec![(entry("c", 999), "permission denied".to_string())],
    };
    assert_eq!(res.total_cleaned(), 350);
    let empty = CleanResult { deleted: vec![], failed: vec![] };
    assert_eq!(empty.total_cleaned(), 0);
}
