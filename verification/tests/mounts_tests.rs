use cmdirstat::mounts::{
    detect_is_ssd, drive_letter_of, drive_paths_from_mask, get_available_drives, is_space_char, mount_device_for, split_chars, split_fields,
    utf8_len_of,
};
use cmdirstat::paths::{device_name_of, entry_name, parts_of, root_name};
use cmdirstat::sort::PathPart;

const MOUNTS: &str = "sysfs /sys sysfs rw,nosuid 0 0\n\
proc /proc proc rw 0 0\n\
/dev/sda2 / ext4 rw,relatime 0 0\n\
/dev/sda1 /boot/efi vfat rw 0 0\n\
tank/home /home zfs rw 0 0\n\
/dev/sdb1 /mnt/data-b ext4 rw 0 0\n\
/dev/sdc1 /mnt/data/b ext4 rw 0 0\n\
tmpfs /run tmpfs rw 0 0\n\
/dev/loop0 /dev/shm squashfs ro 0 0\n\
/dev/sdb1 /mnt/data-b ext4 rw 0 0\n\
short line\n";

#[test]
fn drives_without_mount_table_is_root() {
    assert_eq!(get_available_drives(None), vec!["/".to_string()]);
}

#[test]
fn drives_from_mount_table_sorted_by_components_without_repeats() {
    let d = get_available_drives(Some(MOUNTS));
    assert_eq!(d, vec!["/", "/boot/efi", "/home", "/mnt/data/b", "/mnt/data-b"]);
}

#[test]
fn drives_treat_trailing_slash_as_same_path() {
    let t = "/dev/sda1 /mnt/x ext4 rw 0 0\n/dev/sdb1 /mnt/x/ ext4 rw 0 0\n";
    assert_eq!(get_available_drives(Some(t)), vec!["/", "/mnt/x"]);
}

#[test]
fn device_for_path_takes_longest_mount() {
    assert_eq!(mount_device_for(MOUNTS, "/home/user"), Some("tank/home".to_string()));
    assert_eq!(mount_device_for(MOUNTS, "/boot/efi/EFI"), Some("/dev/sda1".to_string()));
    assert_eq!(mount_device_for(MOUNTS, "/bootx"), Some("/dev/sda2".to_string()));
    assert_eq!(mount_device_for(MOUNTS, "/mnt/data-b/file"), Some("/dev/sdb1".to_string()));
    assert_eq!(mount_device_for("", "/x"), None);
}

#[test]
fn device_for_path_later_line_wins_tie() {
    let t = "a /m ext4\nb /m ext4\n";
    assert_eq!(mount_device_for(t, "/m/x"), Some("b".to_string()));
}

#[test]
fn device_name_below_dev() {
    assert_eq!(device_name_of("/dev/sda1"), Some("sda1".to_string()));
    assert_eq!(device_name_of("/dev/mapper/root"), Some("mapper/root".to_string()));
    assert_eq!(device_name_of("/dev"), Some(String::new()));
    assert_eq!(device_name_of("/devices/x"), None);
    assert_eq!(device_name_of("tank/home"), None);
}

#[test]
fn rotational_zero_means_ssd() {
    assert_eq!(detect_is_ssd(Some("0\n")), Some(true));
    assert_eq!(detect_is_ssd(Some("  0 ")), Some(true));
    assert_eq!(detect_is_ssd(Some("1\n")), Some(false));
    assert_eq!(detect_is_ssd(Some("")), Some(false));
    assert_eq!(detect_is_ssd(Some("00")), Some(false));
    assert_eq!(detect_is_ssd(None), None);
}

#[test]
fn fields_split_on_any_white_space() {
    let s: Vec<char> = "  a\tbc \u{3000}d  ".chars().collect();
    let f: Vec<String> = split_fields(&s).iter().map(|x| x.iter().collect()).collect();
    assert_eq!(f, vec!["a", "bc", "d"]);
    assert!(split_fields(&Vec::new()).is_empty());
}

#[test]
fn split_keeps_empty_pieces() {
    let s: Vec<char> = "a//b/".chars().collect();
    let p: Vec<String> = split_chars(&s, '/').iter().map(|x| x.iter().collect()).collect();
    assert_eq!(p, vec!["a", "", "b", ""]);
}

#[test]
fn white_space_matches_std() {
    for c in ['\t', '\n', ' ', '\u{85}', '\u{a0}', '\u{2003}', '\u{3000}', 'a', '0', '\u{200b}'] {
        assert_eq!(is_space_char(c), c.is_whitespace(), "{:?}", c);
    }
}

fn parts(s: &str) -> Vec<PathPart> {
    parts_of(&s.chars().collect())
}

fn normal(s: &str) -> PathPart {
    PathPart::Normal(s.chars().collect())
}

fn same_parts(a: &[PathPart], b: &[PathPart]) -> bool {
    a.len() == b.len()
        && a.iter().zip(b).all(|(x, y)| match (x, y) {
            (PathPart::RootDir, PathPart::RootDir) => true,
            (PathPart::CurDir, PathPart::CurDir) => true,
            (PathPart::ParentDir, PathPart::ParentDir) => true,
            (PathPart::Normal(m), PathPart::Normal(n)) => m == n,
            _ => false,
        })
}

#[test]
fn components_follow_std_path() {
    assert!(same_parts(&parts("/mnt//data/./b/"), &[PathPart::RootDir, normal("mnt"), normal("data"), normal("b")]));
    assert!(same_parts(&parts("/"), &[PathPart::RootDir]));
    assert!(same_parts(&parts("./a/."), &[PathPart::CurDir, normal("a")]));
    assert!(same_parts(&parts("a/../b"), &[normal("a"), PathPart::ParentDir, normal("b")]));
    assert!(same_parts(&parts("/./x"), &[PathPart::RootDir, normal("x")]));
    assert!(parts("").is_empty());
}

#[test]
fn components_match_std_on_samples() {
    for s in ["/", "/a/b", "a//b/", "./a", ".", "..", "../x/./y", "/./.", "x/.", "//a"] {
        let ours: Vec<String> = parts(s)
            .iter()
            .map(|p| match p {
                PathPart::RootDir => "/".to_string(),
                PathPart::CurDir => ".".to_string(),
                PathPart::ParentDir => "..".to_string(),
                PathPart::Normal(n) => n.iter().collect(),
            })
            .collect();
        let theirs: Vec<String> = std::path::Path::new(s)
            .components()
            .map(|c| c.as_os_str().to_string_lossy().to_string())
            .collect();
        assert_eq!(ours, theirs, "{:?}", s);
    }
}

#[test]
fn root_comes_first_whatever_the_mount_points_are() {
    assert_eq!(get_available_drives(Some("/dev/x !x e
")), vec!["/", "!x"]);
    let t = "/dev/a ../up ext4
/dev/b zeta ext4
/dev/c ./a ext4
/dev/d a ext4
";
    assert_eq!(get_available_drives(Some(t)), vec!["/", "./a", "../up", "a", "zeta"]);
}

#[test]
fn relative_and_current_dir_paths_stay_apart() {
    let t = "/dev/a a ext4
/dev/b ./a ext4
/dev/c a/ ext4
";
    assert_eq!(get_available_drives(Some(t)), vec!["/", "./a", "a"]);
}

#[test]
fn drive_order_matches_std_path_order() {
    let t = "/dev/a /mnt/b ext4
/dev/b /mnt/a.b ext4
/dev/c /mnt/a/b ext4
/dev/d /mnt/a ext4
/dev/e /mnt/A ext4
";
    let mut expected: Vec<std::path::PathBuf> =
        ["/", "/mnt/b", "/mnt/a.b", "/mnt/a/b", "/mnt/a", "/mnt/A"].iter().map(std::path::PathBuf::from).collect();
    expected.sort();
    expected.dedup();
    let expected: Vec<String> = expected.iter().map(|p| p.to_string_lossy().to_string()).collect();
    assert_eq!(get_available_drives(Some(t)), expected);
}

#[test]
fn names_of_entries_and_roots() {
    assert_eq!(entry_name("/home/user/file.txt"), "file.txt");
    assert_eq!(entry_name("/home/user/"), "user");
    assert_eq!(entry_name("/"), "/");
    assert_eq!(entry_name("/a/.."), "/a/..");
    assert_eq!(root_name("/mnt/disk"), "disk");
    assert_eq!(root_name("/"), "/");
    assert_eq!(root_name("/a/.."), "/");
}

#[test]
fn device_name_follows_strip_prefix() {
    assert_eq!(device_name_of("/dev//sda1/"), Some("sda1".to_string()));
    assert_eq!(device_name_of("/./dev/./sda1"), Some("sda1".to_string()));
    assert_eq!(device_name_of("/dev/../x"), Some("../x".to_string()));
    assert_eq!(device_name_of("/../dev/x"), None);
    assert_eq!(device_name_of("dev/sda1"), None);
}

#[test]
fn utf8_length_counts_bytes() {
    let s: Vec<char> = "aé€😀".chars().collect();
    assert_eq!(utf8_len_of(&s), "aé€😀".len() as u128);
}

#[test]
fn drive_mask_names_the_set_letters() {
    assert_eq!(drive_paths_from_mask(0b101), vec!["A:\\", "C:\\"]);
    assert_eq!(drive_paths_from_mask(0), Vec::<String>::new());
    assert_eq!(drive_paths_from_mask(1 << 25 | 1 << 26 | 1 << 31), vec!["Z:\\"]);
    assert_eq!(drive_paths_from_mask(u32::MAX).len(), 26);
}

#[test]
fn drive_letter_needs_a_colon_as_second_byte() {
    assert_eq!(drive_letter_of("C:\\Users"), Some('C'));
    assert_eq!(drive_letter_of("d:"), Some('d'));
    assert_eq!(drive_letter_of("C"), None);
    assert_eq!(drive_letter_of("/mnt"), None);
    assert_eq!(drive_letter_of("é:"), None);
    assert_eq!(drive_letter_of(""), None);
}
