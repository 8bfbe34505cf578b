use blkspeed::device::{enumerate, inherit_mounts, parent_disk, sort_devices, Device, Kind, Mount};
use blkspeed::diskutil::{macos_devices, parse_diskutil_size, read_rows, size_number};
use blkspeed::double::Double;
use blkspeed::mounts::{
    dm_parents, free_space, from_path, is_eligible, lookup_mount, mount_table, raw_mounts, unescape_octal, Candidate,
    Facts, Node, PathFacts, System,
};
use blkspeed::path::{path_file_name, path_join, path_parent, path_with_file_name, same_path};
use blkspeed::sysfs::{is_virtual, linux_devices, read_trim, Block, Child, Files};

fn disk(name: &str, size: u64, kind: Kind) -> Device {
    Device {
        name: name.to_string(),
        path: format!("/dev/{}", name),
        kind,
        size,
        model: "t".to_string(),
        rotational: None,
        removable: false,
        mount: None,
        mount_inherited: false,
    }
}

fn mounted(name: &str, path: &str, writable: bool, free: u64) -> Device {
    let mut d = disk(name, 100, Kind::Partition);
    d.mount = Some(Mount { path: path.to_string(), fstype: "ext4".to_string(), writable, free });
    d
}

#[test]
fn partitions_follow_their_disk() {
    let mut v = vec![
        disk("sda1", 100, Kind::Partition),
        disk("nvme0n1", 900, Kind::Disk),
        disk("sda", 500, Kind::Disk),
        disk("nvme0n1p1", 400, Kind::Partition),
    ];
    sort_devices(&mut v);
    let names: Vec<&str> = v.iter().map(|d| d.name.as_str()).collect();
    assert_eq!(names, ["nvme0n1", "nvme0n1p1", "sda", "sda1"]);
}

#[test]
fn longest_disk_prefix_wins() {
    let disks = vec!["nvme0".to_string(), "nvme0n1".to_string()];
    assert_eq!(parent_disk("nvme0n1p3", &disks), "nvme0n1");
}

#[test]
fn a_device_without_a_disk_is_its_own_parent() {
    assert_eq!(parent_disk("sdb1", &vec!["sda".to_string()]), "sdb1");
    assert_eq!(parent_disk("sda", &vec!["sda".to_string()]), "sda");
}

#[test]
fn mount_paths_are_unescaped() {
    assert_eq!(unescape_octal(r"/mnt/my\040disk"), "/mnt/my disk");
    assert_eq!(unescape_octal("/mnt/plain"), "/mnt/plain");
}

#[test]
fn escapes_that_are_none_are_left() {
    assert_eq!(unescape_octal(r"\134"), r"\");
    assert_eq!(unescape_octal(r"\13"), r"\13");
    assert_eq!(unescape_octal(r"\134x"), r"\x");
    assert_eq!(unescape_octal(r"a\09x\777b"), r"a\09x\777b");
    assert_eq!(unescape_octal(r"\+12z"), "\u{a}z");
    assert_eq!(unescape_octal("é"), "Ã©");
}

#[test]
fn sorting_is_by_disk_size_and_then_by_name() {
    let mut v = vec![
        disk("sdb2", 1, Kind::Partition),
        disk("sdb", 10, Kind::Disk),
        disk("sda", 10, Kind::Disk),
        disk("sdb1", 9, Kind::Partition),
        disk("sdc", 99, Kind::Disk),
        disk("orphan1", 50, Kind::Partition),
    ];
    sort_devices(&mut v);
    let names: Vec<&str> = v.iter().map(|d| d.name.as_str()).collect();
    assert_eq!(names, ["sdc", "orphan1", "sda", "sdb", "sdb1", "sdb2"]);
}

#[test]
fn equal_devices_keep_their_order() {
    let mut a = disk("sda", 10, Kind::Disk);
    a.model = "first".to_string();
    let mut b = disk("sda", 10, Kind::Disk);
    b.model = "second".to_string();
    let mut v = vec![disk("zz", 1, Kind::Disk), a, b];
    sort_devices(&mut v);
    let models: Vec<&str> = v.iter().map(|d| d.model.as_str()).collect();
    assert_eq!(models, ["first", "second", "t"]);
}

#[test]
fn disks_borrow_the_roomiest_writable_mount_of_their_partitions() {
    let mut v = vec![
        disk("sda", 500, Kind::Disk),
        mounted("sda1", "/boot", true, 10),
        mounted("sda2", "/", true, 1000),
        mounted("sda3", "/ro", false, 99999),
    ];
    inherit_mounts(&mut v);
    assert!(v[0].mount_inherited);
    assert_eq!(v[0].write_dir(), Some("/"));
    assert!(!v[2].mount_inherited);
}

#[test]
fn disks_borrow_from_their_own_partitions_only() {
    let mut v = vec![
        disk("sda", 500, Kind::Disk),
        disk("sdaa", 400, Kind::Disk),
        mounted("sdaa1", "/data", true, 1000),
    ];
    inherit_mounts(&mut v);
    assert!(v[0].mount.is_none());
    assert_eq!(v[1].write_dir(), Some("/data"));
}

#[test]
fn mounted_disks_borrow_nothing() {
    let mut whole = mounted("sda", "/whole", false, 5);
    whole.kind = Kind::Disk;
    let mut v = vec![whole, mounted("sda1", "/", true, 1000)];
    inherit_mounts(&mut v);
    assert!(!v[0].mount_inherited);
    assert_eq!(v[0].write_dir(), None);
}

#[test]
fn devices_without_media_are_left_out() {
    let v = enumerate(vec![
        disk("sr0", 0, Kind::Disk),
        mounted("sda1", "/", true, 7),
        disk("sda", 5, Kind::Disk),
    ]);
    let names: Vec<&str> = v.iter().map(|d| d.name.as_str()).collect();
    assert_eq!(names, ["sda", "sda1"]);
    assert_eq!(v[0].write_dir(), Some("/"));
}

#[test]
fn blockers_say_why() {
    assert_eq!(disk("sda", 0, Kind::Disk).blocker(true), Some("no media / zero size".to_string()));
    assert_eq!(
        disk("sda", 1, Kind::Disk).blocker(false),
        Some("no read permission on /dev/sda — try running with sudo".to_string())
    );
    assert_eq!(disk("sda", 1, Kind::Disk).blocker(true), None);
}

#[test]
fn media_are_named() {
    let mut d = disk("sda", 1, Kind::Disk);
    assert_eq!(d.media(), "—");
    d.rotational = Some(true);
    assert_eq!(d.media(), "HDD");
    d.rotational = Some(false);
    assert_eq!(d.media(), "SSD");
}

const PROC: &str = "sysfs /sys sysfs rw 0 0\n/dev/sda2 / ext4 rw,relatime 0 0\n/dev/sda1 /boot\\040efi vfat rw 0 0\nshort line\n/dev/loop0 /snap squashfs ro 0 0\n";

#[test]
fn the_mount_table_of_linux_is_read() {
    let all = raw_mounts(System::Linux, PROC);
    let shown: Vec<String> = all.iter().map(|m| format!("{}|{}|{}", m.device, m.path, m.fstype)).collect();
    assert_eq!(
        shown,
        ["sysfs|/sys|sysfs", "/dev/sda2|/|ext4", "/dev/sda1|/boot efi|vfat", "/dev/loop0|/snap|squashfs"]
    );
    let kept: Vec<&str> = all.iter().filter(|m| is_eligible(m)).map(|m| m.device.as_str()).collect();
    assert_eq!(kept, ["/dev/sda2", "/dev/sda1"]);
}

#[test]
fn the_mount_table_of_macos_is_read() {
    let all = raw_mounts(
        System::MacOs,
        "/dev/disk1s5 on / (apfs, local, read-only, journaled)\ndevfs on /dev (devfs, local)\n/dev/disk2 on /Volumes/a on (b) (msdos)\nnothing here\n",
    );
    let shown: Vec<String> = all.iter().map(|m| format!("{}|{}|{}", m.device, m.path, m.fstype)).collect();
    assert_eq!(shown, ["/dev/disk1s5|/|apfs", "devfs|/dev|devfs", "/dev/disk2|/Volumes/a on (b)|msdos"]);
}

fn candidate(device: &str, path: &str) -> Candidate {
    Candidate {
        device: device.to_string(),
        path: path.to_string(),
        fstype: "ext4".to_string(),
        facts: Facts { writable: true, blocks: Some((10, 4096)) },
    }
}

#[test]
fn only_the_first_mount_of_a_device_is_kept() {
    let table = mount_table(&vec![candidate("/dev/sda1", "/"), candidate("/dev//sda1/", "/bind")], &vec![]);
    assert_eq!(table.len(), 1);
    assert_eq!(table[0].mount.path, "/");
    assert_eq!(table[0].mount.free, 40960);
}

fn node(name: &str, slaves: &[&str]) -> Node {
    Node { name: name.to_string(), slaves: slaves.iter().map(|s| s.to_string()).collect() }
}

#[test]
fn stacked_mounts_count_as_mounts_of_the_partition_beneath() {
    let nodes = vec![node("dm-1", &["dm-0"]), node("dm-0", &["nvme0n1p3", "sdb1"])];
    let table = mount_table(&vec![candidate("/dev/dm-1", "/"), candidate("/dev/sdb1", "/real")], &nodes);
    assert_eq!(lookup_mount("/dev/nvme0n1p3", &table).unwrap().path, "/");
    // A real mount takes precedence.
    assert_eq!(lookup_mount("/dev/sdb1", &table).unwrap().path, "/real");
    assert!(lookup_mount("/dev/sdc", &table).is_none());
}

#[test]
fn cycles_of_stacked_devices_end() {
    let nodes = vec![node("dm-0", &["dm-1", "sda"]), node("dm-1", &["dm-0", "sdb"])];
    let found = dm_parents("dm-0", 0, &nodes);
    assert_eq!(found, ["sda", "sdb", "sda", "sdb", "sda"]);
    assert!(dm_parents("dm-9", 0, &nodes).is_empty());
}

#[test]
fn raw_devices_are_looked_up_under_their_block_device() {
    let table = mount_table(&vec![candidate("/dev/disk1s5", "/")], &vec![]);
    assert_eq!(lookup_mount("/dev/rdisk1s5", &table).unwrap().path, "/");
    assert_eq!(lookup_mount("/dev/disk1s5", &table).unwrap().path, "/");
    assert!(lookup_mount("/", &table).is_none());
}

#[test]
fn free_space_does_not_overflow() {
    assert_eq!(free_space(None), 0);
    assert_eq!(free_space(Some((3, 4096))), 12288);
    assert_eq!(free_space(Some((u64::MAX, 4096))), u64::MAX);
}

fn facts(is_dir: bool) -> PathFacts {
    PathFacts {
        is_dir,
        len: 777,
        here: Facts { writable: true, blocks: Some((2, 512)) },
        above: Facts { writable: false, blocks: Some((3, 512)) },
    }
}

#[test]
fn a_directory_stands_for_its_filesystem() {
    let d = from_path("/mnt/usb", facts(true), &vec![]);
    assert_eq!((d.name.as_str(), d.model.as_str(), d.size), ("/mnt/usb", "directory", 1024));
    assert_eq!(d.write_dir(), Some("/mnt/usb"));
    assert_eq!(d.mount.unwrap().fstype, "—");
}

#[test]
fn a_file_is_written_beside() {
    let d = from_path("/mnt/usb/image.bin", facts(false), &vec![]);
    assert_eq!((d.model.as_str(), d.size), ("file", 777));
    let m = d.mount.unwrap();
    assert_eq!((m.path.as_str(), m.writable, m.free), ("/mnt/usb", false, 1536));
    assert_eq!(from_path("plain", facts(false), &vec![]).mount.unwrap().path, "");
}

#[test]
fn a_named_device_has_its_mount() {
    let table = mount_table(&vec![candidate("/dev/sda1", "/data")], &vec![]);
    assert_eq!(from_path("/dev/sda1", facts(false), &table).mount.unwrap().path, "/data");
}

#[test]
fn paths_are_those_of_the_standard_library() {
    let all = [
        "", "/", "//", ".", "..", "./", "/.", "a", "a/", "a//", "a/.", "a/./b", "/a", "/a/", "/a/b", "/a/b/../c", "./a",
        ".//a//b", "a/..", "/..", "//a", "/./a", "r", "rr", "/dev/rdisk1", "/dev/rr", "r.", "/r.", "/dev/r..", "a b/c.d",
        "...", ".a", "a/.b/.",
    ];
    for s in all {
        let p = std::path::Path::new(s);
        let name = p.file_name().map(|n| n.to_str().unwrap().to_string());
        assert_eq!(path_file_name(s), name, "name of {:?}", s);
        let up = p.parent().map(|n| n.to_str().unwrap().to_string());
        assert_eq!(path_parent(s), up, "parent of {:?}", s);
        for t in all {
            let q = std::path::Path::new(t);
            assert_eq!(same_path(s, t), p == q, "{:?} and {:?}", s, t);
            assert_eq!(path_join(s, t), p.join(q).to_str().unwrap(), "{:?} with {:?}", s, t);
        }
        for t in ["x", "", ".", ".."] {
            assert_eq!(path_with_file_name(s, t), p.with_file_name(t).to_str().unwrap(), "{:?} as {:?}", s, t);
        }
    }
}

fn files(size: &str) -> Files {
    Files {
        size: Some(size.to_string()),
        model: None,
        disk_model: None,
        name: None,
        rotational: None,
        disk_rotational: None,
        removable: None,
    }
}

#[test]
fn small_files_are_trimmed() {
    assert_eq!(read_trim(&Some("  x y \n".to_string())), Some("x y".to_string()));
    assert_eq!(read_trim(&Some(" \n".to_string())), None);
    assert_eq!(read_trim(&None), None);
}

#[test]
fn linux_devices_are_described_by_small_files() {
    let mut sda = files("1000\n");
    sda.model = Some("Disk Model  \n".to_string());
    sda.rotational = Some("1\n".to_string());
    sda.removable = Some("1\n".to_string());
    let mut part = files("10");
    part.disk_rotational = Some("1".to_string());
    part.model = Some("ignored".to_string());
    let blocks = vec![
        Block {
            name: "sda".to_string(),
            files: sda,
            children: vec![
                Child { name: "queue".to_string(), is_partition: false, files: files("1") },
                Child { name: "sda1".to_string(), is_partition: true, files: part },
                Child { name: "sda2".to_string(), is_partition: true, files: files("junk") },
            ],
        },
        Block { name: "loop0".to_string(), files: files("5"), children: vec![] },
        Block { name: "sdb".to_string(), files: files("-5"), children: vec![] },
        Block { name: "big".to_string(), files: files("18446744073709551615"), children: vec![] },
    ];
    let table = mount_table(&vec![candidate("/dev/sda1", "/")], &vec![]);
    let v = linux_devices(&blocks, &table);
    let names: Vec<&str> = v.iter().map(|d| d.name.as_str()).collect();
    assert_eq!(names, ["sda", "sda1", "big"]);
    assert_eq!((v[0].size, v[0].model.as_str(), v[0].rotational, v[0].removable), (512_000, "Disk Model", Some(true), true));
    assert_eq!((v[1].size, v[1].model.as_str(), v[1].rotational, v[1].removable), (5_120, "Disk Model", Some(true), true));
    assert_eq!(v[1].kind, Kind::Partition);
    assert_eq!(v[1].write_dir(), Some("/"));
    assert_eq!((v[2].size, v[2].model.as_str(), v[2].rotational), (u64::MAX, "unknown", None));
}

#[test]
fn virtual_devices_are_known_by_name() {
    for name in ["loop3", "ram0", "zram0", "fd0", "dm-4"] {
        assert!(is_virtual(name));
    }
    for name in ["sda", "nvme0n1", "mmcblk0", "dm"] {
        assert!(!is_virtual(name));
    }
}

const LIST: &str = "/dev/disk0 (internal, physical):\n   #:                       TYPE NAME                    SIZE       IDENTIFIER\n   0:      GUID_partition_scheme                        *500.3 GB   disk0\n   1:                 Apple_APFS Container disk1         500.1 GB   disk0s2\n   x:  broken  1 GB disk9\n   2: EFI EFI 209.7 MB disk0s1\n   3: disk7\n";

#[test]
fn the_list_of_macos_is_read() {
    let rows = read_rows(LIST);
    let shown: Vec<String> =
        rows.iter().map(|r| format!("{}|{:?}|{}|{:?}", r.ident, r.kind, r.model, r.size)).collect();
    assert_eq!(
        shown,
        [
            "disk0|Disk|GUID_partition_scheme|Some((\"*500.3\", \"GB\"))",
            "disk0s2|Partition|Container disk1|Some((\"500.1\", \"GB\"))",
            "disk0s1|Partition|EFI|Some((\"209.7\", \"MB\"))",
            "disk7|Partition|disk7|None",
        ]
    );
    let table = mount_table(&vec![candidate("/dev/disk0s2", "/")], &vec![]);
    let v = macos_devices(&rows, &vec![Some(7), Some(8), None, None], &table);
    assert_eq!((v[0].size, v[1].size, v[2].size), (7, 8, 0));
    assert_eq!(v[1].write_dir(), Some("/"));
    assert_eq!(v[0].path, "/dev/disk0");
}

fn double(v: f64) -> Double {
    if v == 0.0 {
        return Double::zero();
    }
    let bits = v.to_bits();
    let mant = (bits & ((1 << 52) - 1)) | (1 << 52);
    let exp = ((bits >> 52) & 0x7ff) as i32 - 1075;
    Double::from_parts(mant, exp).unwrap()
}

#[test]
fn printed_sizes_are_those_of_floating_point() {
    assert_eq!(size_number("*500.3"), "500.3");
    for (text, unit, factor) in [
        ("500.3", "GB", 1e9),
        ("209.7", "MB", 1e6),
        ("0", "B", 1.0),
        ("1.1", "KB", 1e3),
        ("7.9", "TB", 1e12),
        ("3.3", "PB", 1e15),
        ("99999999", "PB", 1e15),
        ("0.0000001", "KB", 1e3),
    ] {
        let n: f64 = text.parse().unwrap();
        assert_eq!(parse_diskutil_size(Some(double(n)), unit), Some((n * factor) as u64), "{} {}", text, unit);
    }
    assert_eq!(parse_diskutil_size(Some(double(1.0)), "KiB"), None);
    assert_eq!(parse_diskutil_size(None, "KB"), None);
}

#[test]
fn what_the_kernel_escapes_is_read_as_it_was() {
    let path = "/mnt/a b\tc\nd\\e\\040";
    let written: String = path
        .chars()
        .map(|c| match c {
            ' ' | '\t' | '\n' | '\\' => format!("\\{:03o}", c as u32),
            c => c.to_string(),
        })
        .collect();
    assert_ne!(written, path);
    assert_eq!(unescape_octal(&written), path);
}
