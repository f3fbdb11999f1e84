use arch_installer::args::Args;
use arch_installer::system_configs::{
    add_mkinitcpio_modules, apply_system_config, available_groups, chpasswd_line,
    default_group_indices, default_locale_indices, default_timezone_index, enable_locales,
    enable_wheel_sudo, hostname_file, hosts_file, joins_wheel, listed_timezones, locale_conf,
    locales_from_supported, microcode_modules, mkinitcpio_conf_readable, password_long_enough,
    passwords_match, root_disk_from_source, sort_timezones, useradd_args, validate_hostname,
    validate_username, zone_dir, zone_entry, zoneinfo_path, check_locale_selection,
    mkinitcpio_plan, next_config_progress, ConfigProgress, ConfigStep, EntryKind, MkinitcpioPlan,
    HostnameError, SystemConfig, UserConfig, UsernameError, ZoneEntry,
};

fn s(x: &str) -> String {
    x.to_string()
}

fn v(xs: &[&str]) -> Vec<String> {
    xs.iter().map(|x| x.to_string()).collect()
}

#[test]
fn supported_locales_sorted_unique() {
    let content = "# comment\nen_US.UTF-8 UTF-8\ntr_TR.UTF-8 UTF-8\n\n   \naa_DJ ISO-8859-1\nen_US.UTF-8 UTF-8\n";
    assert_eq!(
        locales_from_supported(content),
        v(&["aa_DJ", "en_US.UTF-8", "tr_TR.UTF-8"])
    );
    assert_eq!(locales_from_supported(""), Vec::<String>::new());
}

#[test]
fn indented_comment_is_a_locale_line() {
    // only a '#' in the first column marks a comment
    assert_eq!(locales_from_supported("  #x y\n"), v(&["#x"]));
}

#[test]
fn timezone_listing() {
    assert_eq!(
        listed_timezones(true, "Europe/Istanbul\n  Africa/Abidjan \n\nUTC\n"),
        Some(v(&["Europe/Istanbul", "Africa/Abidjan", "UTC"]))
    );
    assert_eq!(listed_timezones(false, "Europe/Istanbul\n"), None);
    assert_eq!(listed_timezones(true, "\n  \n"), None);
}

#[test]
fn timezones_sorted_keep_all() {
    assert_eq!(
        sort_timezones(&v(&["Europe/Istanbul", "America/New_York", "Asia/Tokyo", "Asia/Tokyo"])),
        v(&["America/New_York", "Asia/Tokyo", "Asia/Tokyo", "Europe/Istanbul"])
    );
}

#[test]
fn zoneinfo_entries() {
    assert!(matches!(zone_entry("", "posix", EntryKind::Directory), ZoneEntry::Skip));
    assert!(matches!(zone_entry("", "zone.tab", EntryKind::File), ZoneEntry::Skip));
    assert!(matches!(zone_entry("", "leapseconds", EntryKind::File), ZoneEntry::Skip));
    assert!(matches!(zone_entry("", "UTC", EntryKind::File), ZoneEntry::Skip));
    assert!(matches!(zone_entry("", "Europe", EntryKind::Directory), ZoneEntry::Descend(p) if p == "Europe"));
    assert!(matches!(zone_entry("Europe", "Istanbul", EntryKind::File), ZoneEntry::Zone(p) if p == "Europe/Istanbul"));
    assert!(matches!(zone_entry("America", "Argentina", EntryKind::Directory), ZoneEntry::Descend(p) if p == "America/Argentina"));
    assert!(matches!(zone_entry("Europe", "Paris", EntryKind::Unknown), ZoneEntry::Skip));
    assert_eq!(zone_dir("/usr/share/zoneinfo", ""), "/usr/share/zoneinfo");
    assert_eq!(zone_dir("/usr/share/zoneinfo", "Europe"), "/usr/share/zoneinfo/Europe");
}

#[test]
fn default_selections() {
    let locales = v(&["aa_DJ", "en_US.UTF-8", "tr_TR.UTF-8"]);
    assert_eq!(default_locale_indices(&locales), vec![2, 1]);
    assert_eq!(default_locale_indices(&v(&["en_US.UTF-8"])), vec![0]);
    assert_eq!(default_locale_indices(&vec![]), Vec::<usize>::new());
    assert_eq!(default_timezone_index(&v(&["Asia/Tokyo", "Europe/Istanbul"])), 1);
    assert_eq!(default_timezone_index(&v(&["Asia/Tokyo"])), 0);
    let groups = available_groups();
    assert_eq!(
        groups,
        v(&["wheel", "audio", "video", "storage", "optical", "network", "power", "lp", "scanner"])
    );
    assert_eq!(default_group_indices(&groups), vec![0, 1, 2, 3]);
}

#[test]
fn hostname_rules() {
    assert_eq!(validate_hostname("  my-arch "), Ok(s("my-arch")));
    assert_eq!(validate_hostname(" "), Err(HostnameError::Empty));
    assert_eq!(validate_hostname("my_arch"), Err(HostnameError::BadChar));
    assert_eq!(validate_hostname("-arch"), Err(HostnameError::EdgeDash));
    assert_eq!(validate_hostname("arch-"), Err(HostnameError::EdgeDash));
    assert_eq!(validate_hostname(&"a".repeat(63)), Ok("a".repeat(63)));
    assert_eq!(validate_hostname(&"a".repeat(64)), Err(HostnameError::TooLong));
    let h = validate_hostname(" Arch1 ").unwrap();
    assert_eq!(validate_hostname(&h), Ok(h.clone()));
}

#[test]
fn username_rules() {
    assert_eq!(validate_username(" ahmet "), Ok(s("ahmet")));
    assert_eq!(validate_username("_svc.x-1"), Ok(s("_svc.x-1")));
    assert_eq!(validate_username(""), Err(UsernameError::Empty));
    assert_eq!(validate_username("Ahmet"), Err(UsernameError::BadStart));
    assert_eq!(validate_username("1ahmet"), Err(UsernameError::BadStart));
    assert_eq!(validate_username("ahMet"), Err(UsernameError::BadChar));
    assert_eq!(validate_username(&"a".repeat(33)), Err(UsernameError::TooLong));
    assert_eq!(validate_username(&"a".repeat(32)), Ok("a".repeat(32)));
    let u = validate_username("\t_x.y ").unwrap();
    assert_eq!(validate_username(&u), Ok(u.clone()));
}

#[test]
fn password_rules() {
    assert!(!password_long_enough("abc"));
    assert!(password_long_enough("abcd"));
    assert!(password_long_enough("çğ"));
    assert!(passwords_match("abcd", "abcd"));
    assert!(!passwords_match("abcd", "abce"));
}

#[test]
fn locale_gen_uncomments_chosen() {
    let content = "# header\n#en_US.UTF-8 UTF-8\n#  tr_TR.UTF-8 UTF-8\n#de_DE.UTF-8 UTF-8";
    assert_eq!(
        enable_locales(content, &v(&["tr_TR.UTF-8", "en_US.UTF-8"])),
        "# header\nen_US.UTF-8 UTF-8\ntr_TR.UTF-8 UTF-8\n#de_DE.UTF-8 UTF-8\n"
    );
    assert_eq!(enable_locales("", &v(&["en_US.UTF-8"])), "\n");
}

#[test]
fn small_files() {
    assert_eq!(locale_conf(&v(&["tr_TR.UTF-8", "en_US.UTF-8"])), "LANG=tr_TR.UTF-8\n");
    assert_eq!(hostname_file("arch"), "arch\n");
    assert_eq!(
        hosts_file("arch"),
        "127.0.0.1\tlocalhost\n::1\t\tlocalhost\n127.0.1.1\tarch.localdomain arch\n"
    );
    assert_eq!(chpasswd_line("root", "s3cret"), "root:s3cret\n");
    assert_eq!(zoneinfo_path("Europe/Istanbul"), "/usr/share/zoneinfo/Europe/Istanbul");
}

#[test]
fn user_setup() {
    let cfg = UserConfig { username: s("ahmet"), password: s("pw12"), groups: v(&["wheel", "audio"]) };
    assert_eq!(useradd_args(&cfg), v(&["useradd", "-m", "-s", "/bin/bash", "-G", "wheel,audio", "ahmet"]));
    assert!(joins_wheel(&cfg));
    let plain = UserConfig { username: s("x"), password: s("pw12"), groups: vec![] };
    assert_eq!(useradd_args(&plain), v(&["useradd", "-m", "-s", "/bin/bash", "-G", "", "x"]));
    assert!(!joins_wheel(&plain));
}

#[test]
fn sudoers_wheel_enabled() {
    let content = "root ALL=(ALL:ALL) ALL\n# %wheel ALL=(ALL:ALL) ALL\n# %wheel ALL=(ALL:ALL) NOPASSWD: ALL\n  #%wheel ALL=(ALL:ALL) ALL  \n";
    assert_eq!(
        enable_wheel_sudo(content),
        "root ALL=(ALL:ALL) ALL\n%wheel ALL=(ALL:ALL) ALL\n# %wheel ALL=(ALL:ALL) NOPASSWD: ALL\n%wheel ALL=(ALL:ALL) ALL\n"
    );
    let once = enable_wheel_sudo(content);
    assert_eq!(enable_wheel_sudo(&once), once);
}

#[test]
fn microcode_choice() {
    assert_eq!(microcode_modules(&v(&["intel-ucode", "vim", "amd-ucode"])), v(&["amd-ucode", "intel-ucode"]));
    assert_eq!(microcode_modules(&v(&["intel-ucode"])), v(&["intel-ucode"]));
    assert_eq!(microcode_modules(&v(&["vim"])), Vec::<String>::new());
}

#[test]
fn mkinitcpio_modules_forms() {
    let mods = v(&["amd-ucode", "intel-ucode"]);
    assert_eq!(
        add_mkinitcpio_modules("# x\nMODULES=(btrfs amd-ucode)\nHOOKS=(base)", &mods),
        "# x\nMODULES=(btrfs amd-ucode intel-ucode)\nHOOKS=(base)\n"
    );
    assert_eq!(add_mkinitcpio_modules("MODULES=\"\"", &mods), "MODULES=\"amd-ucode intel-ucode\"\n");
    assert_eq!(add_mkinitcpio_modules("MODULES=", &mods), "MODULES=amd-ucode intel-ucode\n");
    assert_eq!(
        add_mkinitcpio_modules("  MODULES=(a)", &mods),
        "MODULES=MODULES=(a) amd-ucode intel-ucode\n"
    );
    let once = add_mkinitcpio_modules("MODULES=()\n", &mods);
    assert_eq!(add_mkinitcpio_modules(&once, &mods), once);
}

#[test]
fn mkinitcpio_lone_quote_detected() {
    assert!(!mkinitcpio_conf_readable("MODULES=\"\n"));
    assert!(mkinitcpio_conf_readable("MODULES=()\nMODULES=\"\"\n"));
}

#[test]
fn root_disk_names() {
    assert_eq!(root_disk_from_source("/dev/sda2\n"), Some(s("/dev/sda")));
    assert_eq!(root_disk_from_source("/dev/nvme0n1p2\n"), Some(s("/dev/nvme0n1")));
    assert_eq!(root_disk_from_source("/dev/mmcblk0p1"), Some(s("/dev/mmcblk0")));
    assert_eq!(root_disk_from_source("  \n"), None);
}

#[test]
fn system_config_plan() {
    let cfg = SystemConfig {
        hostname: s("arch"),
        locales: v(&["tr_TR.UTF-8", "en_US.UTF-8"]),
        timezone: s("Europe/Istanbul"),
        root_password: s("pw12"),
    };
    let plan = apply_system_config(&cfg, &v(&["amd-ucode"]));
    assert_eq!(plan.len(), 6);
    assert!(matches!(&plan[0], ConfigStep::SetTimezone { timezone, zoneinfo }
        if timezone == "Europe/Istanbul" && zoneinfo == "/usr/share/zoneinfo/Europe/Istanbul"));
    assert!(matches!(&plan[1], ConfigStep::SetLocales { locales, locale_conf }
        if *locales == v(&["tr_TR.UTF-8", "en_US.UTF-8"])
            && *locale_conf == Some(s("LANG=tr_TR.UTF-8\n"))));
    assert!(matches!(&plan[2], ConfigStep::SetHostname { hostname, hostname_file, hosts_file }
        if hostname == "arch" && hostname_file == "arch\n"
            && hosts_file == "127.0.0.1\tlocalhost\n::1\t\tlocalhost\n127.0.1.1\tarch.localdomain arch\n"));
    assert!(matches!(&plan[3], ConfigStep::SetRootPassword { chpasswd_input }
        if chpasswd_input == "root:pw12\n"));
    assert!(matches!(&plan[4], ConfigStep::ConfigureMkinitcpio { modules } if *modules == v(&["amd-ucode"])));
    assert!(matches!(&plan[5], ConfigStep::InstallGrub));
}

#[test]
fn system_config_plan_without_locale() {
    let cfg = SystemConfig {
        hostname: s("h"),
        locales: vec![],
        timezone: s("UTC"),
        root_password: s("pass"),
    };
    let plan = apply_system_config(&cfg, &[]);
    assert!(matches!(&plan[1], ConfigStep::SetLocales { locales, locale_conf: None } if locales.is_empty()));
    assert!(matches!(&plan[4], ConfigStep::ConfigureMkinitcpio { modules } if modules.is_empty()));
}

#[test]
fn config_run_stops_at_first_failure() {
    let mut state = ConfigProgress::Next(0);
    let results = [true, true, false, true, true, true];
    let mut ran = Vec::new();
    while let ConfigProgress::Next(k) = state {
        ran.push(k);
        state = next_config_progress(state, results[k], 6);
    }
    assert_eq!(ran, vec![0, 1, 2]);
    assert_eq!(state, ConfigProgress::Stopped(2));
}

#[test]
fn config_run_completes_when_all_succeed() {
    let mut state = ConfigProgress::Next(0);
    let mut ran = 0;
    while let ConfigProgress::Next(k) = state {
        assert_eq!(k, ran);
        ran += 1;
        state = next_config_progress(state, true, 6);
    }
    assert_eq!(ran, 6);
    assert_eq!(state, ConfigProgress::Done);
    assert_eq!(next_config_progress(ConfigProgress::Done, false, 6), ConfigProgress::Done);
    assert_eq!(next_config_progress(ConfigProgress::Stopped(1), true, 6), ConfigProgress::Stopped(1));
    assert_eq!(next_config_progress(ConfigProgress::Next(0), false, 6), ConfigProgress::Stopped(0));
}

#[test]
fn locale_selection_needs_one() {
    assert_eq!(check_locale_selection(vec![]), None);
    assert_eq!(check_locale_selection(v(&["en_US.UTF-8"])), Some(v(&["en_US.UTF-8"])));
}

#[test]
fn mkinitcpio_plans() {
    assert!(matches!(mkinitcpio_plan("MODULES=\"\n", &vec![]), MkinitcpioPlan::NothingToAdd));
    assert!(matches!(mkinitcpio_plan("MODULES=\"\n", &v(&["amd-ucode"])), MkinitcpioPlan::Unreadable));
    assert!(matches!(mkinitcpio_plan("MODULES=()\nHOOKS=(base)\n", &v(&["intel-ucode"])),
        MkinitcpioPlan::Rewrite(t) if t == "MODULES=(intel-ucode)\nHOOKS=(base)\n"));
}

#[test]
fn default_args() {
    let a = Args::default();
    assert_eq!(a.device, "/dev/sda");
    assert_eq!(a.efi, "1GiB");
    assert_eq!(a.swap, "8GiB");
}

#[test]
fn root_disk_undoes_partition_path() {
    for (d, n) in [("/dev/sda", 3u8), ("/dev/nvme0n1", 2), ("/dev/mmcblk0", 1), ("/dev/vdb", 12)] {
        let out = format!("{}\n", arch_installer::disk_manager::part_path(d, n));
        assert_eq!(root_disk_from_source(&out), Some(s(d)), "{d}");
    }
}

#[test]
fn mkinitcpio_rewrite_twice_is_once() {
    let mods = v(&["amd-ucode", "intel-ucode"]);
    let conf = "# vim:set ft=sh\nMODULES=(btrfs)\nBINARIES=()\nMODULES=\"ext4 amd-ucode\"\n\
                MODULES=a b\nMODULES=\nHOOKS=(base udev)\n";
    let once = add_mkinitcpio_modules(conf, &mods);
    assert_eq!(
        once,
        "# vim:set ft=sh\nMODULES=(btrfs amd-ucode intel-ucode)\nBINARIES=()\n\
         MODULES=\"ext4 amd-ucode intel-ucode\"\nMODULES=a b amd-ucode intel-ucode\n\
         MODULES=amd-ucode intel-ucode\nHOOKS=(base udev)\n"
    );
    assert!(mkinitcpio_conf_readable(&once));
    assert_eq!(add_mkinitcpio_modules(&once, &mods), once);
    assert_eq!(add_mkinitcpio_modules("", &mods), "\n");
    assert_eq!(add_mkinitcpio_modules("\n", &mods), "\n");
}
