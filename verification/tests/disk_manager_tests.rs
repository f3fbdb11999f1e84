use arch_installer::disk_manager::{
    active_swaps, check_size_input, device_of_choice, disk_entries, efi_size_choice, format_size, is_valid_size,
    is_zero_lowercase, is_zero_size, mounted_partitions, next_stage, part_num, part_path,
    partition_layout, partition_script, stage_is_final, unmount_order, DiskInfo, DiskStage,
    SizeCheck,
};

fn s(x: &str) -> String {
    x.to_string()
}

#[test]
fn valid_sizes_from_doc() {
    for ok in ["512MiB", "8GiB", "1TiB", "2048", "0", "  16GB ", "4KiB", "1TB", "7MB"] {
        assert!(is_valid_size(ok), "{ok}");
    }
}

#[test]
fn invalid_sizes() {
    for bad in ["", "   ", "MiB", "12 GiB", "1.5GiB", "abc", "8gib", "-1", "10TiBB", "GB5"] {
        assert!(!is_valid_size(bad), "{bad}");
    }
}

#[test]
fn format_size_adds_mib_to_numbers() {
    assert_eq!(format_size("2048"), "2048MiB");
    assert_eq!(format_size("  512 "), "512MiB");
    assert_eq!(format_size(" 8GiB\t"), "8GiB");
    assert_eq!(format_size(""), "MiB");
}

#[test]
fn format_size_twice_is_once() {
    for x in ["2048", " 8GiB ", "", "abc", "0"] {
        let once = format_size(x);
        assert_eq!(format_size(&once), once);
    }
}

#[test]
fn format_size_keeps_valid() {
    for x in ["2048", " 8GiB ", "0", "1TB"] {
        assert!(is_valid_size(&format_size(x)));
    }
}

#[test]
fn zero_sizes() {
    for z in ["0", "0MiB", "0gib", "0KiB", "0TIB", "0mb", "0GB"] {
        assert!(is_zero_size(z), "{z}");
    }
    for nz in ["1", "01", "0 MiB", "10GiB", "100MB", ""] {
        assert!(!is_zero_size(nz), "{nz}");
    }
    assert!(is_zero_size(&format_size("0")));
}

#[test]
fn zero_number_in_any_unit_is_zero() {
    for z in ["00", "0TB", " 0", "00MiB", "000GiB", "0KiB "] {
        assert!(is_zero_size(z), "{z}");
    }
    assert!(is_zero_size(&format_size("00")));
}

#[test]
fn zero_number_swap_gives_no_swap_entry() {
    for z in ["00", "0TB", "00MiB"] {
        let script = partition_script("512MiB", &format_size(z));
        assert!(!script.contains("SWAP"), "{z}");
        assert_eq!(script, "label: gpt\nsize=512MiB, type=U, name=EFI\ntype=L, name=ROOT\n");
    }
    assert!(partition_script("512MiB", "01GiB").contains("name=SWAP"));
}

#[test]
fn zero_lowercase_needs_lowercase() {
    assert!(is_zero_lowercase("0gib"));
    assert!(!is_zero_lowercase("0GiB"));
}

#[test]
fn size_prompt_check() {
    assert_eq!(check_size_input("  "), SizeCheck::Empty);
    assert_eq!(check_size_input("big"), SizeCheck::BadFormat);
    assert_eq!(check_size_input("512MiB"), SizeCheck::Valid);
}

#[test]
fn efi_size_refuses_zero() {
    assert_eq!(efi_size_choice("0"), None);
    assert_eq!(efi_size_choice("0GiB"), None);
    assert_eq!(efi_size_choice("512"), Some(s("512MiB")));
    assert_eq!(efi_size_choice(" 1GiB "), Some(s("1GiB")));
}

#[test]
fn partition_numbers() {
    assert_eq!(part_num(1, true), 1);
    assert_eq!(part_num(2, true), 2);
    assert_eq!(part_num(3, true), 3);
    assert_eq!(part_num(1, false), 1);
    assert_eq!(part_num(3, false), 2);
}

#[test]
fn partition_paths() {
    assert_eq!(part_path("/dev/sda", 1), "/dev/sda1");
    assert_eq!(part_path("/dev/nvme0n1", 2), "/dev/nvme0n1p2");
    assert_eq!(part_path("/dev/mmcblk0", 3), "/dev/mmcblk0p3");
    assert_eq!(part_path("/dev/vdb", 12), "/dev/vdb12");
    assert_eq!(part_path("/dev/sdz", 255), "/dev/sdz255");
    assert_eq!(part_path("/dev/sdc", 0), "/dev/sdc0");
    assert_ne!(part_path("/dev/sda", 1), part_path("/dev/sda", 11));
}

#[test]
fn layout_with_and_without_swap() {
    let with = partition_layout("/dev/nvme0n1", true);
    assert_eq!(with.efi, "/dev/nvme0n1p1");
    assert_eq!(with.swap, Some(s("/dev/nvme0n1p2")));
    assert_eq!(with.root, "/dev/nvme0n1p3");
    let without = partition_layout("/dev/sda", false);
    assert_eq!(without.efi, "/dev/sda1");
    assert_eq!(without.swap, None);
    assert_eq!(without.root, "/dev/sda2");
}

#[test]
fn sfdisk_script_with_swap() {
    assert_eq!(
        partition_script("512MiB", "8GiB"),
        "label: gpt\nsize=512MiB, type=U, name=EFI\nsize=8GiB, type=S, name=SWAP\ntype=L, name=ROOT\n"
    );
}

#[test]
fn sfdisk_script_without_swap() {
    let script = partition_script("1GiB", "0");
    assert_eq!(script, "label: gpt\nsize=1GiB, type=U, name=EFI\ntype=L, name=ROOT\n");
    // the root partition is the last entry, number part_num(3, false)
    assert_eq!(script.lines().count() - 1, part_num(3, false) as usize);
}

#[test]
fn disk_entries_keep_only_disks() {
    let devices = vec![
        DiskInfo { name: s("sda"), size: s("238.5G"), model: Some(s("Samsung SSD")), device_type: s("disk") },
        DiskInfo { name: s("sr0"), size: s("1024M"), model: None, device_type: s("rom") },
        DiskInfo { name: s("vdb"), size: s("20G"), model: None, device_type: s("disk") },
    ];
    assert_eq!(
        disk_entries(&devices),
        vec![s("/dev/sda - 238.5G (Samsung SSD)"), s("/dev/vdb - 20G (Bilinmeyen Model)")]
    );
}

#[test]
fn mounted_partitions_of_device() {
    let mounts = "proc /proc proc rw 0 0\n/dev/sda1 /mnt ext4 rw 0 0\n/dev/sdb1 /data ext4 rw 0 0\n\
                  /dev/sda2 /mnt/boot vfat rw 0 0\n/dev/sda3\n";
    assert_eq!(
        mounted_partitions(mounts, "/dev/sda"),
        vec![(s("/dev/sda1"), s("/mnt")), (s("/dev/sda2"), s("/mnt/boot"))]
    );
    assert_eq!(mounted_partitions("", "/dev/sda"), vec![]);
}

#[test]
fn mounted_partitions_only_of_that_disk() {
    let mounts = "/dev/sda1 /mnt ext4 rw 0 0\n/dev/sdaa1 /x ext4 rw 0 0\n/dev/sda /whole ext4 rw 0 0\n\
                  /dev/sdab /y ext4 rw 0 0\n/dev/sda1x /z ext4 rw 0 0\n";
    assert_eq!(
        mounted_partitions(mounts, "/dev/sda"),
        vec![(s("/dev/sda1"), s("/mnt")), (s("/dev/sda"), s("/whole"))]
    );
    let nvme = "/dev/nvme0n1p2 /mnt ext4 rw 0 0\n/dev/nvme0n10p1 /x ext4 rw 0 0\n\
                /dev/nvme0n11 /y ext4 rw 0 0\n/dev/nvme0n1p /z ext4 rw 0 0\n";
    assert_eq!(mounted_partitions(nvme, "/dev/nvme0n1"), vec![(s("/dev/nvme0n1p2"), s("/mnt"))]);
    let mmc = "/dev/mmcblk0p1 /boot vfat rw 0 0\n/dev/mmcblk01 /x ext4 rw 0 0\n";
    assert_eq!(mounted_partitions(mmc, "/dev/mmcblk0"), vec![(s("/dev/mmcblk0p1"), s("/boot"))]);
}

#[test]
fn active_swaps_only_of_that_disk() {
    let swaps = "Filename Type Size Used Priority\n/dev/sdaa2 partition 1 0 -2\n/dev/sda2 partition 1 0 -3\n\
                 /dev/nvme0n1p3 partition 1 0 -4\n";
    assert_eq!(active_swaps(swaps, "/dev/sda"), vec![s("/dev/sda2")]);
    assert_eq!(active_swaps(swaps, "/dev/nvme0n1"), vec![s("/dev/nvme0n1p3")]);
    assert_eq!(active_swaps(swaps, "/dev/nvme0n"), Vec::<String>::new());
}

#[test]
fn partition_paths_are_found_again() {
    for (d, n) in [("/dev/sda", 1u8), ("/dev/nvme0n1", 3), ("/dev/mmcblk0", 2), ("/dev/vdb", 12)] {
        let p = part_path(d, n);
        let line = format!("{p} /mnt ext4 rw 0 0\n");
        assert_eq!(mounted_partitions(&line, d), vec![(p.clone(), s("/mnt"))]);
    }
}

#[test]
fn active_swaps_skip_header() {
    let swaps = "Filename\tType\tSize\tUsed\tPriority\n/dev/sda2  partition\t8388604\t0\t-2\n/dev/sdb1 partition 1 0 -3\n";
    assert_eq!(active_swaps(swaps, "/dev/sda"), vec![s("/dev/sda2")]);
    assert_eq!(active_swaps("/dev/sda2 partition\n", "/dev/sda"), Vec::<String>::new());
    assert_eq!(active_swaps("", "/dev/sda"), Vec::<String>::new());
}

#[test]
fn unmount_deepest_first_stable() {
    let mounts = vec![
        (s("/dev/sda1"), s("/mnt")),
        (s("/dev/sda2"), s("/mnt/boot")),
        (s("/dev/sda3"), s("/mnt/home")),
        (s("/dev/sda4"), s("/mnt/boot/efi")),
    ];
    assert_eq!(
        unmount_order(mounts),
        vec![
            (s("/dev/sda4"), s("/mnt/boot/efi")),
            (s("/dev/sda2"), s("/mnt/boot")),
            (s("/dev/sda3"), s("/mnt/home")),
            (s("/dev/sda1"), s("/mnt")),
        ]
    );
}

#[test]
fn disk_stages_full_run() {
    let mut stage = DiskStage::ConfirmWipe;
    let mut seen = vec![stage];
    while !stage_is_final(stage) {
        stage = next_stage(stage, true);
        seen.push(stage);
    }
    assert_eq!(
        seen,
        vec![
            DiskStage::ConfirmWipe,
            DiskStage::ConfirmAgain,
            DiskStage::Unmount,
            DiskStage::Wipe,
            DiskStage::ChooseSizes,
            DiskStage::Partition,
            DiskStage::FormatPartitions,
            DiskStage::Mount,
            DiskStage::Done,
        ]
    );
}

#[test]
fn disk_stages_cancel_and_fail() {
    assert_eq!(next_stage(DiskStage::ConfirmWipe, false), DiskStage::Cancelled);
    assert_eq!(next_stage(DiskStage::ConfirmAgain, false), DiskStage::Cancelled);
    assert_eq!(next_stage(DiskStage::Wipe, false), DiskStage::Failed);
    assert_eq!(next_stage(DiskStage::Cancelled, true), DiskStage::Cancelled);
    assert_eq!(next_stage(DiskStage::Failed, true), DiskStage::Failed);
    assert!(stage_is_final(DiskStage::Done));
    assert!(!stage_is_final(DiskStage::Mount));
}

#[test]
fn no_wipe_after_one_yes() {
    // yes, then no: the run never reaches a stage that touches the disk
    let mut stage = DiskStage::ConfirmWipe;
    for ok in [true, false, true, true, true] {
        stage = next_stage(stage, ok);
        assert!(matches!(stage, DiskStage::ConfirmAgain | DiskStage::Cancelled));
    }
}

#[test]
fn chosen_line_gives_device() {
    let devices = vec![DiskInfo { name: s("nvme0n1"), size: s("1T"), model: None, device_type: s("disk") }];
    let entries = disk_entries(&devices);
    assert_eq!(device_of_choice(&entries[0]), "/dev/nvme0n1");
    assert_eq!(device_of_choice("nospace"), "nospace");
    assert_eq!(device_of_choice(""), "");
}
