use rdirstat::path::FsPath;
use rdirstat::util::allocated_size;
use rdirstat::util::format_size;
use rdirstat::util::strip_unc_prefix;

fn path(text: &str) -> FsPath {
    FsPath::from_bytes(&text.as_bytes().to_vec())
}

#[test]
fn strip_unc_prefix_removes_prefix() {
    let given = path(r"\\?\C:\Users\test");
    assert_eq!(strip_unc_prefix(given), path(r"C:\Users\test"));
}

#[test]
fn strip_unc_prefix_no_prefix() {
    let given = path(r"C:\Users\test");
    assert_eq!(strip_unc_prefix(given.clone()), given);
}

#[test]
fn strip_unc_prefix_empty() {
    let given = path("");
    assert_eq!(strip_unc_prefix(given.clone()), given);
}

#[test]
fn strip_unc_prefix_unix_path() {
    let given = path("/home/user");
    assert_eq!(strip_unc_prefix(given.clone()), given);
}

#[test]
fn format_size_zero() {
    assert_eq!(format_size(0), "0 B");
}

#[test]
fn format_size_bytes() {
    assert_eq!(format_size(1), "1 B");
    assert_eq!(format_size(512), "512 B");
    assert_eq!(format_size(1023), "1023 B");
}

#[test]
fn format_size_kb() {
    assert_eq!(format_size(1024), "1.0 KB");
    assert_eq!(format_size(1536), "1.5 KB");
    assert_eq!(format_size(1024 * 1023), "1023.0 KB");
}

#[test]
fn format_size_mb() {
    assert_eq!(format_size(1024 * 1024), "1.0 MB");
    assert_eq!(format_size(1024 * 1024 * 5 + 1024 * 512), "5.5 MB");
}

#[test]
fn format_size_gb() {
    assert_eq!(format_size(1024 * 1024 * 1024), "1.0 GB");
    assert_eq!(format_size(1024u64 * 1024 * 1024 * 100), "100.0 GB");
}

#[test]
fn format_size_tb() {
    assert_eq!(format_size(1024u64 * 1024 * 1024 * 1024), "1.0 TB");
    assert_eq!(format_size(1024u64 * 1024 * 1024 * 1024 * 2), "2.0 TB");
}

#[test]
fn format_size_is_that_of_doubles() {
    let units: [(u64, &str); 4] = [
        (1 << 40, "TB"),
        (1 << 30, "GB"),
        (1 << 20, "MB"),
        (1 << 10, "KB"),
    ];
    let mut sizes: Vec<u64> = vec![u64::MAX, u64::MAX - 1, (1 << 53) + 1, 1075, 1126, 1177, 1229];
    let mut n: u64 = 12345;
    for _ in 0..2000 {
        n = n.wrapping_mul(6364136223846793005).wrapping_add(1442695040888963407);
        sizes.push(n);
        sizes.push(n >> 11);
        sizes.push(n >> 20);
        sizes.push(n >> 33);
        sizes.push(n >> 44);
    }
    for bytes in sizes {
        let mut expected = format!("{} B", bytes);
        for (unit, name) in units {
            if bytes >= unit {
                expected = format!("{:.1} {}", bytes as f64 / unit as f64, name);
                break;
            }
        }
        assert_eq!(format_size(bytes), expected);
    }
}

#[test]
fn format_fixed_has_its_places() {
    assert_eq!(rdirstat::util::format_fixed(1536, 1024, 2), "1.50");
    assert_eq!(rdirstat::util::format_fixed(1 << 30, 1 << 30, 2), "1.00");
}

#[test]
fn blocks_are_512_bytes() {
    assert_eq!(allocated_size(0), 0);
    assert_eq!(allocated_size(8), 4096);
}

#[test]
fn what_is_left_of_a_prefixed_path_is_read_anew() {
    let root = strip_unc_prefix(path(r"\\?\/"));
    assert_eq!(root.to_bytes(), b"/".to_vec());
    assert_eq!(root, path("/"));
    assert!(root.is_absolute());
    let spelled = strip_unc_prefix(path(r"\\?\/a//b/"));
    assert_eq!(spelled.to_bytes(), b"/a//b/".to_vec());
    assert_eq!(spelled, path("/a/b"));
}
