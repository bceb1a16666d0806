use rdirstat::mounts::list_mounts;
use rdirstat::mounts::list_mounts_windows;
use rdirstat::mounts::mount_candidates;
use rdirstat::path::FsPath;

fn path(text: &str) -> FsPath {
    FsPath::from_bytes(&text.as_bytes().to_vec())
}

const TABLE: &str = "/dev/sda1 / ext4 rw 0 0\nproc /proc proc rw 0 0\nsysfs /sys sysfs rw 0 0\n\
udev /dev devtmpfs rw 0 0\ntmpfs /run tmpfs rw 0 0\n/dev/loop0 /snap/core squashfs ro 0 0\n\
/dev/sdb1   /mnt/data\text4 rw 0 0\r\nbroken\n/dev/sdc1 /home ext4 rw 0 0";

#[test]
fn virtual_filesystems_are_skipped() {
    let found = mount_candidates(&vec![Some(TABLE.to_string()), None]);
    assert_eq!(found.len(), 2);
    assert_eq!(found[0].path, path("/mnt/data"));
    assert_eq!(found[0].label, "/mnt/data (/dev/sdb1)");
    assert_eq!(found[1].path, path("/home"));
    assert_eq!(found[1].label, "/home (/dev/sdc1)");
}

#[test]
fn the_first_readable_table_counts() {
    let found = mount_candidates(&vec![None, Some("a /x\n".to_string())]);
    assert_eq!(found.len(), 1);
    let none = mount_candidates(&vec![Some(String::new()), Some("a /x\n".to_string())]);
    assert!(none.is_empty());
    assert!(mount_candidates(&vec![None, None]).is_empty());
}

#[test]
fn the_root_is_always_there() {
    let mounts = list_mounts(&vec![], &vec![], &vec![]);
    assert_eq!(mounts.len(), 1);
    assert_eq!(mounts[0].path, path("/"));
    assert_eq!(mounts[0].label, "/");
}

#[test]
fn absent_mounts_and_known_volumes_are_left_out() {
    let candidates = mount_candidates(&vec![Some(TABLE.to_string())]);
    let volumes =
        vec![(path("/Volumes/Disk"), b"Disk".to_vec()), (path("/home"), b"home".to_vec())];
    let mounts = list_mounts(&candidates, &vec![false, true], &volumes);
    let labels: Vec<&str> = mounts.iter().map(|m| m.label.as_str()).collect();
    assert_eq!(labels, vec!["/", "/home (/dev/sdc1)", "/Volumes/Disk"]);
}

#[test]
fn present_drive_letters_are_listed() {
    let mut present = vec![false; 26];
    present[2] = true;
    present[25] = true;
    let drives = list_mounts_windows(&present);
    assert_eq!(drives.len(), 2);
    assert_eq!(drives[0].label, "C:\\");
    assert_eq!(drives[0].path, path("C:\\"));
    assert_eq!(drives[1].label, "Z:\\");
}
