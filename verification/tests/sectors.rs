//! Sector-iterator behaviour: emission counts, geometry rollover,
//! status inheritance, the size hint, and repeatability.

use ddfloppy::ddrescue::{BlockStatus, MapFile, Sector};
use ddfloppy::floppy_type::FloppyType;

fn lines(v: &[&str]) -> Vec<String> {
    v.iter().map(|s| s.to_string()).collect()
}

fn collect_sectors(m: &MapFile) -> Vec<Sector> {
    let mut out = Vec::new();
    let mut it = m.sectors();
    while let Some(s) = it.next() {
        out.push(s);
    }
    out
}

#[test]
fn full_360k_disk_emits_720_sectors() {
    let m = MapFile::load(&lines(&["0 ? 1", "0 184320 +", "184320 184320 -"]), None).unwrap();
    let v = collect_sectors(&m);
    assert_eq!(v.len(), 720);
    assert_eq!(v.iter().filter(|s| s.side == 0).count(), 360);
    assert_eq!(v.iter().filter(|s| s.side == 1).count(), 360);
    for (i, s) in v.iter().enumerate() {
        assert_eq!(s.index, i as u64);
        assert_eq!(s.pos, i as u64 * 512);
        assert_eq!(s.sector, (i as u64 % 9) + 1);
        assert_eq!(s.track, (i as u64 / 9) % 40);
        assert_eq!(s.side, i as u64 / 360);
    }
    assert!(v[..360].iter().all(|s| s.status == BlockStatus::Finished));
    assert!(v[360..].iter().all(|s| s.status == BlockStatus::BadSector));
}

#[test]
fn track_boundary_rolls_over() {
    let m = MapFile::load(&lines(&["0 ? 1", "0 368640 ?"]), None).unwrap();
    let v = collect_sectors(&m);
    // Last sector of track 0, side 0 is followed by sector 1 of track 1.
    assert_eq!(v[8].sector, 9);
    assert_eq!(v[8].track, 0);
    assert_eq!(v[8].side, 0);
    assert_eq!(v[9].sector, 1);
    assert_eq!(v[9].track, 1);
    assert_eq!(v[9].side, 0);
    // Last sector of the last track of side 0 is followed by sector 1 of
    // track 0 of side 1.
    assert_eq!(v[359].sector, 9);
    assert_eq!(v[359].track, 39);
    assert_eq!(v[359].side, 0);
    assert_eq!(v[360].sector, 1);
    assert_eq!(v[360].track, 0);
    assert_eq!(v[360].side, 1);
}

#[test]
fn emission_count_is_rounded_up() {
    // 3 bytes less than two sectors still spans two sectors.
    let g = FloppyType::new("test 2K", 1, 2, 2);
    let m = MapFile::load(&lines(&["0 ? 0", "0 1021 ?"]), Some(g)).unwrap();
    let v = collect_sectors(&m);
    assert_eq!(v.len(), 2);
}

#[test]
fn size_hint_is_exact_at_every_step() {
    let m = MapFile::load(&lines(&["0 ? 1", "0 737280 *"]), None).unwrap();
    let mut it = m.sectors();
    let mut remaining = 1440;
    loop {
        let (lo, hi) = it.size_hint();
        assert_eq!(lo, remaining);
        assert_eq!(hi, Some(remaining));
        match it.next() {
            Some(_) => remaining -= 1,
            None => break,
        }
    }
    assert_eq!(remaining, 0);
}

#[test]
fn statuses_follow_the_covering_record() {
    let g = FloppyType::new("test 2K", 1, 2, 2);
    let m = MapFile::load(
        &lines(&["0 / 2", "0 512 ?", "512 512 *", "1024 512 /", "1536 512 -"]),
        Some(g),
    )
    .unwrap();
    let v = collect_sectors(&m);
    assert_eq!(v.len(), 4);
    assert_eq!(v[0].status, BlockStatus::NonTried);
    assert_eq!(v[1].status, BlockStatus::NonTrimmed);
    assert_eq!(v[2].status, BlockStatus::NonScraped);
    assert_eq!(v[3].status, BlockStatus::BadSector);
}

#[test]
fn two_fresh_iterators_replay_the_same_sequence() {
    let m = MapFile::load(&lines(&["0 ? 1", "0 184320 +", "184320 184320 -"]), None).unwrap();
    let a = collect_sectors(&m);
    let b = collect_sectors(&m);
    assert_eq!(a, b);
}

#[test]
fn a_gap_between_records_ends_the_iteration() {
    // The cursor only moves forward: a record that starts beyond the
    // current position is skipped past, and iteration ends early.
    let g = FloppyType::new("test 2K", 1, 2, 2);
    let m = MapFile::load(&lines(&["0 ? 0", "0 512 +", "1024 512 -"]), Some(g)).unwrap();
    let v = collect_sectors(&m);
    assert_eq!(v.len(), 1);
    assert_eq!(v[0].status, BlockStatus::Finished);
}

#[test]
fn an_empty_model_emits_nothing() {
    let g = FloppyType::new("test 2K", 1, 2, 2);
    let m = MapFile::load(&lines(&["0 + 7"]), Some(g)).unwrap();
    let v = collect_sectors(&m);
    assert_eq!(v.len(), 0);
    assert_eq!(m.sectors().size_hint(), (0, Some(0)));
}
