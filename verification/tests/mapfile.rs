//! Parser-level behaviour: line classification, radix rule, timestamps,
//! error reporting, and geometry resolution.

use ddfloppy::ddrescue::{Block, BlockStatus, Error, MapFile, Status};
use ddfloppy::floppy_type::FloppyType;

fn lines(v: &[&str]) -> Vec<String> {
    v.iter().map(|s| s.to_string()).collect()
}

fn tiny_geometry() -> FloppyType {
    // 1 side, 2 tracks, 2 sectors per track, 512-byte sectors: 2048 bytes.
    FloppyType::new("test 2K", 1, 2, 2)
}

#[test]
fn status_line_parses() {
    let m = MapFile::load(&lines(&["0x1A * 010"]), Some(tiny_geometry())).unwrap();
    assert_eq!(m.current_pos(), 26);
    assert_eq!(m.status(), Status::TrimmingNonTrimmerBlocks);
    assert_eq!(m.pass(), 8);
    assert_eq!(m.total_size(), 0);
}

#[test]
fn radix_rule_hex_octal_decimal() {
    let m = MapFile::load(
        &lines(&["0x10 ? 10", "010 10 +"]),
        Some(tiny_geometry()),
    )
    .unwrap();
    assert_eq!(m.current_pos(), 16);
    assert_eq!(m.pass(), 10);
    assert_eq!(m.total_size(), 10);
}

#[test]
fn zero_alone_is_decimal() {
    let m = MapFile::load(&lines(&["0 ? 0"]), Some(tiny_geometry())).unwrap();
    assert_eq!(m.current_pos(), 0);
    assert_eq!(m.pass(), 0);
}

#[test]
fn bare_hex_prefix_is_invalid() {
    let r = MapFile::load(&lines(&["0x ? 0"]), Some(tiny_geometry()));
    assert_eq!(r.unwrap_err(), Error::InvalidLine(1));
}

#[test]
fn octal_digit_out_of_range_is_invalid() {
    let r = MapFile::load(&lines(&["09 ? 0"]), Some(tiny_geometry()));
    assert_eq!(r.unwrap_err(), Error::InvalidLine(1));
}

#[test]
fn all_status_codes() {
    let cases = [
        ("?", Status::CopyingNonTriedBlocks),
        ("*", Status::TrimmingNonTrimmerBlocks),
        ("/", Status::ScrapingNonScrapedBlocks),
        ("-", Status::RetryingBadSectors),
        ("F", Status::FillingSpecifiedBlocks),
        ("G", Status::GeneratingApproximateMapfile),
        ("+", Status::Finished),
    ];
    for (code, expected) in cases.iter() {
        let text = format!("0 {} 0", code);
        let m = MapFile::load(&lines(&[&text]), Some(tiny_geometry())).unwrap();
        assert_eq!(m.status(), *expected);
    }
}

#[test]
fn bad_status_code_is_invalid() {
    let r = MapFile::load(&lines(&["0 X 0"]), Some(tiny_geometry()));
    assert_eq!(r.unwrap_err(), Error::InvalidLine(1));
}

#[test]
fn record_codes_reject_fill_and_generate() {
    let r = MapFile::load(&lines(&["0 ? 0", "0 512 F"]), Some(tiny_geometry()));
    assert_eq!(r.unwrap_err(), Error::InvalidLine(2));
    let r = MapFile::load(&lines(&["0 ? 0", "0 512 G"]), Some(tiny_geometry()));
    assert_eq!(r.unwrap_err(), Error::InvalidLine(2));
}

#[test]
fn record_line_two_tokens_fails_with_line_number() {
    let r = MapFile::load(&lines(&["0 ? 0", "10 20"]), Some(tiny_geometry()));
    assert_eq!(r.unwrap_err(), Error::InvalidLine(2));
}

#[test]
fn record_line_four_tokens_counts_comment_lines() {
    let r = MapFile::load(
        &lines(&["# a comment", "0 ? 0", "1 2 + +"]),
        Some(tiny_geometry()),
    );
    assert_eq!(r.unwrap_err(), Error::InvalidLine(3));
}

#[test]
fn empty_input_has_no_status_line() {
    let r = MapFile::load(&lines(&[]), Some(tiny_geometry()));
    assert_eq!(r.unwrap_err(), Error::NoStatusLine);
}

#[test]
fn comments_alone_have_no_status_line() {
    let r = MapFile::load(&lines(&["# only", "# comments"]), Some(tiny_geometry()));
    assert_eq!(r.unwrap_err(), Error::NoStatusLine);
}

#[test]
fn unknown_total_size_fails_resolution() {
    let r = MapFile::load(&lines(&["0x00000000 * 0", "0 737280 -", "737280 10240 +"]), None);
    assert_eq!(r.unwrap_err(), Error::UnknownFloppyType);
}

#[test]
fn exact_total_resolves_geometry() {
    let m = MapFile::load(&lines(&["0 ? 1", "0 184320 +", "184320 184320 -"]), None).unwrap();
    assert_eq!(m.total_size(), 368640);
    assert_eq!(m.floppy_type().total_size, 368640);
    assert_eq!(m.floppy_type().sides, 2);
    assert_eq!(m.floppy_type().tracks, 40);
    assert_eq!(m.floppy_type().sectors, 9);
    assert_eq!(m.floppy_type().sector_size, 512);
}

#[test]
fn explicit_geometry_overrides_registry() {
    let g = tiny_geometry();
    let m = MapFile::load(&lines(&["0 ? 0", "0 737280 +"]), Some(g)).unwrap();
    assert_eq!(m.floppy_type().total_size, 2048);
    assert_eq!(m.total_size(), 737280);
}

#[test]
fn start_time_set_from_first_valid_occurrence() {
    let m = MapFile::load(
        &lines(&[
            "# Start time: 2024-01-15 10:30:00",
            "# Start time: garbage",
            "0 ? 0",
        ]),
        Some(tiny_geometry()),
    )
    .unwrap();
    let expected = chrono::NaiveDate::from_ymd_opt(2024, 1, 15)
        .unwrap()
        .and_hms_opt(10, 30, 0)
        .unwrap();
    assert_eq!(m.start_time(), Some(expected));
}

#[test]
fn invalid_timestamp_leaves_field_unset_and_later_line_can_fill_it() {
    let m = MapFile::load(
        &lines(&[
            "# Start time: garbage",
            "# Start time: 2024-01-15 10:30:00",
            "0 ? 0",
        ]),
        Some(tiny_geometry()),
    )
    .unwrap();
    let expected = chrono::NaiveDate::from_ymd_opt(2024, 1, 15)
        .unwrap()
        .and_hms_opt(10, 30, 0)
        .unwrap();
    assert_eq!(m.start_time(), Some(expected));
}

#[test]
fn current_time_parses_and_other_comments_are_ignored()
{
    let m = MapFile::load(
        &lines(&[
            "# some banner text",
            "# Current time: 2023-12-31 23:59:59",
            "0 + 0",
        ]),
        Some(tiny_geometry()),
    )
    .unwrap();
    assert!(m.start_time().is_none());
    let expected = chrono::NaiveDate::from_ymd_opt(2023, 12, 31)
        .unwrap()
        .and_hms_opt(23, 59, 59)
        .unwrap();
    assert_eq!(m.current_time(), Some(expected));
}

#[test]
fn surrounding_whitespace_is_trimmed() {
    let m = MapFile::load(
        &lines(&["   # Start time: 2024-01-15 10:30:00   ", "  0x1A   ?   2  "]),
        Some(tiny_geometry()),
    )
    .unwrap();
    assert_eq!(m.current_pos(), 26);
    assert_eq!(m.pass(), 2);
    assert!(m.start_time().is_some());
}

#[test]
fn number_too_large_for_u64_is_invalid() {
    let r = MapFile::load(
        &lines(&["0xFFFFFFFFFFFFFFFFF ? 0"]),
        Some(tiny_geometry()),
    );
    assert_eq!(r.unwrap_err(), Error::InvalidLine(1));
}

#[test]
fn block_getters_report_fields() {
    let b = Block { pos: 7, size: 42, status: BlockStatus::BadSector };
    assert_eq!(b.pos(), 7);
    assert_eq!(b.size(), 42);
    assert_eq!(b.status(), BlockStatus::BadSector);
}

#[test]
fn registry_lists_nine_entries_and_looks_up_by_exact_size() {
    let all = FloppyType::types();
    assert_eq!(all.len(), 9);
    assert!(FloppyType::find_by_total_size(368640).is_some());
    assert!(FloppyType::find_by_total_size(737280).is_some());
    assert_eq!(FloppyType::find_by_total_size(737280).unwrap().name, "3½\" 720K");
    assert!(FloppyType::find_by_total_size(1).is_none());
    for t in all.iter() {
        assert_eq!(
            t.total_size,
            t.sides * t.tracks * t.sectors * t.sector_size
        );
    }
}

#[test]
fn registry_total_sizes_are_unique() {
    let all = FloppyType::types();
    for a in 0..all.len() {
        for b in 0..all.len() {
            if a != b {
                assert_ne!(all[a].total_size, all[b].total_size);
            }
        }
    }
}
