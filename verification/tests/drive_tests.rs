use diskovery::drive::{best_drive, query_drive_info};

fn disk(m: &str, total: u64, avail: u64) -> (String, u64, u64) {
    (m.to_string(), total, avail)
}

#[test]
fn longest_matching_mount_wins_ignoring_case() {
    let disks = vec![disk("/", 100, 40), disk("/HOME", 200, 50), disk("/home/other", 9, 9)];
    let d = query_drive_info(&"/home/User/docs".to_string(), &disks);
    assert_eq!(d.mount, "/HOME");
    assert_eq!(d.total_bytes, 200);
    assert_eq!(d.free_bytes, 50);
    assert_eq!(d.used_bytes, 150);
}

#[test]
fn no_matching_mount_gives_no_drive() {
    let disks = vec![disk("D:\\", 100, 40)];
    let d = query_drive_info(&"C:\\Users".to_string(), &disks);
    assert_eq!(d.mount, "");
    assert_eq!((d.total_bytes, d.used_bytes, d.free_bytes), (0, 0, 0));
}

#[test]
fn used_space_never_goes_below_zero() {
    let disks = vec![disk("/", 10, 40)];
    let d = query_drive_info(&"/x".to_string(), &disks);
    assert_eq!(d.used_bytes, 0);
    assert_eq!(d.free_bytes, 40);
}

#[test]
fn first_of_equally_long_mounts_wins() {
    let disks = vec![disk("/a", 1, 0), disk("/A", 2, 0)];
    let d = query_drive_info(&"/a/b".to_string(), &disks);
    assert_eq!(d.total_bytes, 1);
}

#[test]
fn best_drive_uses_the_lowercase_forms_given() {
    let disks = vec![disk("/X", 5, 1)];
    let lowered = vec!["/x".to_string()];
    let d = best_drive(&"/x/y".to_string(), &disks, &lowered);
    assert_eq!(d.mount, "/X");
    assert_eq!(d.used_bytes, 4);
    let d2 = best_drive(&"/X/y".to_string(), &disks, &lowered);
    assert_eq!(d2.total_bytes, 0);
}
