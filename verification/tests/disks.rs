use squirreldisk::disks::{is_ignored_mount, select_disks, usage_level, RawDisk, UsageLevel};

fn disk(mount: &str, total: u64, free: u64, removable: bool) -> RawDisk {
    RawDisk { mount_point: mount.to_string(), total_space: total, available_space: free, is_removable: removable }
}

#[test]
fn ignored_mounts_are_recognised() {
    assert!(is_ignored_mount("/boot/efi"));
    assert!(is_ignored_mount("/System/Volumes/Data"));
    assert!(is_ignored_mount("/var/snap/firefox/common/host-hunspell"));
    assert!(!is_ignored_mount("/boot"));
    assert!(!is_ignored_mount("/"));
    assert!(!is_ignored_mount("/boot/efi/"));
}

#[test]
fn select_disks_filters_and_orders_by_mount_point() {
    let disks = vec![
        disk("/b", 10, 5, false),
        disk("/a", 20, 1, false),
        disk("/boot/efi", 100, 50, false),
        disk("/z", 0, 0, false),
        disk("/a", 30, 2, true),
        disk("/B", 40, 3, false),
        disk("/\u{e4}", 50, 4, false),
        disk("/", 60, 6, false),
    ];
    let out: Vec<(String, u64, u64, bool)> = select_disks(&disks)
        .into_iter()
        .map(|d| (d.mount_point, d.total_space, d.available_space, d.is_removable))
        .collect();
    assert_eq!(
        out,
        vec![
            ("/".to_string(), 60, 6, false),
            ("/B".to_string(), 40, 3, false),
            ("/a".to_string(), 20, 1, false),
            ("/a".to_string(), 30, 2, true),
            ("/b".to_string(), 10, 5, false),
            ("/\u{e4}".to_string(), 50, 4, false),
        ]
    );
    assert!(select_disks(&Vec::new()).is_empty());
}

#[test]
fn usage_levels_follow_the_thresholds() {
    assert!(matches!(usage_level(100, 29), UsageLevel::High));
    assert!(matches!(usage_level(100, 30), UsageLevel::Medium));
    assert!(matches!(usage_level(100, 39), UsageLevel::Medium));
    assert!(matches!(usage_level(100, 40), UsageLevel::Low));
    assert!(matches!(usage_level(0, 0), UsageLevel::Low));
    assert!(matches!(usage_level(100, 200), UsageLevel::Low));
    assert!(matches!(usage_level(u64::MAX, 0), UsageLevel::High));
}
