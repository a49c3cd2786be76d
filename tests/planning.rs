use holofork_installer::catalog::{guid_eq, is_esp_type};
use holofork_installer::commit::commit;
use holofork_installer::esp::find_esp;
use holofork_installer::plan::{
    dual_boot_space, esp_sector_count, plan_dual_boot, plan_fresh_install, verdict, Mode, PlanError,
    SpaceVerdict, GIB_SECTORS,
};
use holofork_installer::scan::{free_ranges, largest_range};
use holofork_installer::table::{Entry, Table, TableError};

const ESP: &str = "C12A7328-F81F-11D2-BA4B-00A0C93EC93B";
const ROOT: &str = "4F68BCE3-E8CD-4DB1-96E7-FBCAF984B709";
const DATA: &str = "EBD0A0A2-B9E5-4433-87C0-68B6B72699C7";

fn entry(index: u32, guid: &str, first_lba: u64, length: u64, label: &str) -> Entry {
    Entry {
        index,
        type_guid: guid.as_bytes().to_vec(),
        first_lba,
        length,
        label: label.to_string(),
    }
}

/// A table over a device of `sectors` 512-byte sectors with the usual GPT
/// header reservation at both ends.
fn device(sectors: u64) -> Table {
    match Table::new(512, 34, sectors - 33) {
        Ok(t) => t,
        Err(_) => panic!("geometry refused"),
    }
}

fn add(t: &mut Table, e: Entry) {
    assert_eq!(t.add_existing(e), Ok(()));
}

/// One ESP of `esp_len` sectors at the start of the usable region, followed
/// by exactly `free` free sectors.
fn esp_then_free(esp_len: u64, free: u64) -> Table {
    let mut t = match Table::new(512, 34, 34 + esp_len + free) {
        Ok(t) => t,
        Err(_) => panic!("geometry refused"),
    };
    add(&mut t, entry(1, ESP, 34, esp_len, "EFI"));
    t
}

#[test]
fn scenario_a_fresh_install_on_empty_device() {
    let mut t = device(100_000_000);
    let plan = match plan_fresh_install(&t) {
        Ok(p) => p,
        Err(e) => panic!("{:?}", e),
    };
    assert_eq!(plan.mode, Mode::FreshInstall);
    assert_eq!(plan.entries.len(), 2);
    assert_eq!(plan.entries[0].first_lba, 34);
    assert_eq!(plan.entries[0].length, 1_953_125);
    assert_eq!(plan.entries[0].label, "ESP");
    assert_eq!(plan.entries[0].type_guid, ESP.as_bytes().to_vec());
    assert_eq!(plan.entries[1].first_lba, 34 + 1_953_125);
    // usable 99_999_933 sectors, minus the ESP, halved
    assert_eq!(plan.entries[1].length, 49_023_404);
    assert_eq!(plan.entries[1].label, "HoloFork");
    assert_eq!(plan.entries[1].type_guid, ROOT.as_bytes().to_vec());
    let idx = commit(&mut t, plan);
    assert_eq!(idx, vec![1, 2]);
    assert_eq!(t.entries.len(), 2);
    assert_eq!(t.entries[0].index, 1);
    assert_eq!(t.entries[1].index, 2);
    assert_eq!(find_esp(&t), Some(1));
}

#[test]
fn scenario_b_dual_boot_confirmed_with_forty_gib() {
    let mut t = esp_then_free(1_000_000, 40 * GIB_SECTORS);
    assert_eq!(dual_boot_space(&t), SpaceVerdict::Low);
    let plan = match plan_dual_boot(&t, true) {
        Ok(p) => p,
        Err(e) => panic!("{:?}", e),
    };
    assert_eq!(plan.mode, Mode::DualBoot);
    assert_eq!(plan.esp_index, Some(1));
    assert_eq!(plan.entries.len(), 1);
    assert_eq!(plan.entries[0].first_lba, 1_000_034);
    assert_eq!(plan.entries[0].length, 20 * GIB_SECTORS);
    assert_eq!(plan.entries[0].type_guid, ROOT.as_bytes().to_vec());
    let idx = commit(&mut t, plan);
    assert_eq!(idx, vec![2]);
    assert_eq!(t.entries.len(), 2);
    assert_eq!(t.entries[0].index, 1);
    assert_eq!(t.entries[0].first_lba, 34);
    assert_eq!(t.entries[0].length, 1_000_000);
    assert_eq!(t.entries[1].index, 2);
    assert_eq!(t.entries[1].length, 20 * GIB_SECTORS);
    assert_eq!(find_esp(&t), Some(1));
}

#[test]
fn scenario_c_dual_boot_with_ten_gib_is_refused() {
    let t = esp_then_free(1_000_000, 10 * GIB_SECTORS);
    assert_eq!(dual_boot_space(&t), SpaceVerdict::Insufficient);
    assert!(matches!(plan_dual_boot(&t, true), Err(PlanError::InsufficientSpace)));
    assert!(matches!(plan_dual_boot(&t, false), Err(PlanError::InsufficientSpace)));
    assert_eq!(t.entries.len(), 1);
}

#[test]
fn scenario_d_dual_boot_declined() {
    let t = esp_then_free(1_000_000, 40 * GIB_SECTORS);
    assert!(matches!(plan_dual_boot(&t, false), Err(PlanError::UserAborted)));
    assert_eq!(t.entries.len(), 1);
}

#[test]
fn dual_boot_ample_space_needs_no_confirmation() {
    let t = esp_then_free(1_000_000, 100 * GIB_SECTORS + 1);
    assert_eq!(dual_boot_space(&t), SpaceVerdict::Ample);
    let plan = match plan_dual_boot(&t, false) {
        Ok(p) => p,
        Err(e) => panic!("{:?}", e),
    };
    assert_eq!(plan.entries[0].length, 50 * GIB_SECTORS);
}

#[test]
fn dual_boot_without_esp_fails() {
    let mut t = device(200 * GIB_SECTORS);
    add(&mut t, entry(1, DATA, 34, 1000, "data"));
    assert!(matches!(plan_dual_boot(&t, true), Err(PlanError::EspNotFound)));
}

#[test]
fn dual_boot_on_full_device_is_insufficient() {
    let mut t = match Table::new(512, 34, 1034) {
        Ok(t) => t,
        Err(_) => panic!("geometry refused"),
    };
    add(&mut t, entry(1, ESP, 34, 1000, "EFI"));
    assert_eq!(free_ranges(&t).len(), 0);
    assert_eq!(dual_boot_space(&t), SpaceVerdict::Insufficient);
    assert!(matches!(plan_dual_boot(&t, true), Err(PlanError::InsufficientSpace)));
}

#[test]
fn dual_boot_picks_largest_run_and_keeps_entries() {
    let gib = GIB_SECTORS;
    let mut t = match Table::new(512, 34, 34 + 300 * gib) {
        Ok(t) => t,
        Err(_) => panic!("geometry refused"),
    };
    add(&mut t, entry(3, DATA, 34 + 100 * gib, 10 * gib, "data"));
    add(&mut t, entry(1, ESP, 34, gib, "EFI"));
    add(&mut t, entry(2, DATA, 34 + 200 * gib, 10 * gib, "more"));
    // free: 99 GiB, 90 GiB, 90 GiB
    let plan = match plan_dual_boot(&t, false) {
        Ok(p) => p,
        Err(e) => panic!("{:?}", e),
    };
    assert_eq!(plan.entries[0].first_lba, 34 + gib);
    assert_eq!(plan.entries[0].length, 99 * gib / 2);
    let idx = commit(&mut t, plan);
    assert_eq!(idx, vec![4]);
    assert_eq!(t.entries.len(), 4);
    let indices: Vec<u32> = t.entries.iter().map(|e| e.index).collect();
    assert_eq!(indices, vec![1, 4, 3, 2]);
}

#[test]
fn fresh_install_wipes_any_table() {
    let mut t = device(100 * GIB_SECTORS);
    add(&mut t, entry(1, DATA, 34, 5000, "a"));
    add(&mut t, entry(7, ESP, 10_000, 5000, "b"));
    add(&mut t, entry(3, ROOT, 50_000, 5000, "c"));
    let plan = match plan_fresh_install(&t) {
        Ok(p) => p,
        Err(e) => panic!("{:?}", e),
    };
    let idx = commit(&mut t, plan);
    assert_eq!(idx, vec![1, 2]);
    assert_eq!(t.entries.len(), 2);
    assert!(is_esp_type(&t.entries[0].type_guid));
    assert_eq!(t.entries[1].type_guid, ROOT.as_bytes().to_vec());
    assert_eq!(t.entries[0].first_lba, 34);
}

#[test]
fn fresh_install_too_small_is_insufficient() {
    let t = device(1_953_125 + 34 + 33);
    assert!(matches!(plan_fresh_install(&t), Err(PlanError::InsufficientSpace)));
    let t = device(1_000_000);
    assert!(matches!(plan_fresh_install(&t), Err(PlanError::InsufficientSpace)));
    let t = device(1_953_125 + 34 + 33 + 2);
    match plan_fresh_install(&t) {
        Ok(p) => assert_eq!(p.entries[1].length, 1),
        Err(e) => panic!("{:?}", e),
    }
}

#[test]
fn free_ranges_of_empty_table_span_usable_region() {
    let t = device(100_000_000);
    let rs = free_ranges(&t);
    assert_eq!(rs, vec![(34, 99_999_933)]);
}

#[test]
fn free_ranges_cover_gaps_exactly() {
    let mut t = match Table::new(512, 10, 100) {
        Ok(t) => t,
        Err(_) => panic!("geometry refused"),
    };
    add(&mut t, entry(2, DATA, 40, 10, "b"));
    add(&mut t, entry(1, DATA, 10, 5, "a"));
    add(&mut t, entry(3, DATA, 50, 20, "c"));
    let rs = free_ranges(&t);
    assert_eq!(rs, vec![(15, 25), (70, 30)]);
    let total: u64 = rs.iter().map(|r| r.1).sum();
    assert_eq!(total + 5 + 10 + 20, 90);
    assert_eq!(largest_range(&rs), Some(1));
}

#[test]
fn free_ranges_when_entries_end_at_region_end() {
    let mut t = match Table::new(512, 10, 100) {
        Ok(t) => t,
        Err(_) => panic!("geometry refused"),
    };
    add(&mut t, entry(1, DATA, 60, 40, "a"));
    assert_eq!(free_ranges(&t), vec![(10, 50)]);
}

#[test]
fn largest_range_ties_take_the_first() {
    assert_eq!(largest_range(&vec![(0, 5), (10, 9), (30, 9), (50, 2)]), Some(1));
    assert_eq!(largest_range(&vec![]), None);
}

#[test]
fn esp_locator_cases() {
    let mut t = device(1_000_000);
    add(&mut t, entry(4, DATA, 34, 100, "a"));
    assert_eq!(find_esp(&t), None);
    add(&mut t, entry(5, "c12a7328-f81f-11d2-ba4b-00a0c93ec93b", 1000, 100, "b"));
    assert_eq!(find_esp(&t), Some(5));
    add(&mut t, entry(9, ESP, 500, 100, "c"));
    assert_eq!(find_esp(&t), Some(5));
    add(&mut t, entry(2, ESP, 5000, 100, "d"));
    assert_eq!(find_esp(&t), Some(2));
    assert_eq!(find_esp(&t), find_esp(&t));
}

#[test]
fn guid_comparison_ignores_case_only() {
    assert!(guid_eq(b"ab-CD", b"AB-cd"));
    assert!(!guid_eq(b"ab-CD", b"AB-ce"));
    assert!(!guid_eq(b"ab", b"abc"));
    assert!(is_esp_type(ESP.as_bytes()));
    assert!(!is_esp_type(ROOT.as_bytes()));
}

#[test]
fn table_refuses_bad_entries() {
    assert!(matches!(Table::new(0, 0, 10), Err(TableError::InvalidGeometry)));
    assert!(matches!(Table::new(512, 11, 10), Err(TableError::InvalidGeometry)));
    let mut t = match Table::new(512, 10, 100) {
        Ok(t) => t,
        Err(_) => panic!("geometry refused"),
    };
    add(&mut t, entry(1, DATA, 20, 10, "a"));
    assert_eq!(t.add_existing(entry(2, DATA, 25, 10, "b")), Err(TableError::Overlap));
    assert_eq!(t.add_existing(entry(2, DATA, 5, 10, "b")), Err(TableError::OutOfBounds));
    assert_eq!(t.add_existing(entry(2, DATA, 95, 10, "b")), Err(TableError::OutOfBounds));
    assert_eq!(t.add_existing(entry(2, DATA, 40, 0, "b")), Err(TableError::OutOfBounds));
    assert_eq!(t.add_existing(entry(1, DATA, 40, 10, "b")), Err(TableError::BadIndex));
    assert_eq!(t.add_existing(entry(0, DATA, 40, 10, "b")), Err(TableError::BadIndex));
    assert_eq!(t.add_existing(entry(2, DATA, 30, 10, "b")), Ok(()));
    assert_eq!(t.len(), 2);
    assert_eq!(t.max_index(), 2);
    t.clear();
    assert_eq!(t.len(), 0);
    assert_eq!(t.max_index(), 0);
}

#[test]
fn space_verdict_boundaries() {
    assert_eq!(verdict(16 * GIB_SECTORS - 1), SpaceVerdict::Insufficient);
    assert_eq!(verdict(16 * GIB_SECTORS), SpaceVerdict::Low);
    assert_eq!(verdict(64 * GIB_SECTORS - 1), SpaceVerdict::Low);
    assert_eq!(verdict(64 * GIB_SECTORS), SpaceVerdict::Ample);
    assert_eq!(GIB_SECTORS, 2_097_152);
}

#[test]
fn esp_size_rounds_up_to_whole_sectors() {
    assert_eq!(esp_sector_count(512), 1_953_125);
    assert_eq!(esp_sector_count(4096), 244_141);
}
