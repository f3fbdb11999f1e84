use arch_installer::packages::{package_listing, resolve_packages, InstallLevel, PackageList};

fn list() -> PackageList {
    let v = |xs: &[&str]| xs.iter().map(|x| x.to_string()).collect::<Vec<_>>();
    PackageList {
        core: v(&["linux", "base", "linux-firmware", "base"]),
        minimal: v(&["git", "base-devel", "networkmanager", "linux"]),
        desktop: v(&["gnome", "xorg-server", "git"]),
    }
}

#[test]
fn resolve_core() {
    assert_eq!(resolve_packages(&list(), &InstallLevel::Core), vec!["base", "linux", "linux-firmware"]);
}

#[test]
fn resolve_minimal() {
    assert_eq!(
        resolve_packages(&list(), &InstallLevel::Minimal),
        vec!["base", "base-devel", "git", "linux", "linux-firmware", "networkmanager"]
    );
}

#[test]
fn resolve_desktop_holds_everything() {
    let d = resolve_packages(&list(), &InstallLevel::Desktop);
    assert_eq!(
        d,
        vec!["base", "base-devel", "git", "gnome", "linux", "linux-firmware", "networkmanager", "xorg-server"]
    );
    for level in [InstallLevel::Core, InstallLevel::Minimal] {
        for p in resolve_packages(&list(), &level) {
            assert!(d.contains(&p));
        }
    }
}

#[test]
fn resolve_orders_by_code_point() {
    let l = PackageList {
        core: vec!["b".into(), "B".into(), "a".into(), "ä".into(), "ab".into()],
        minimal: vec![],
        desktop: vec![],
    };
    let mut expected = vec!["b", "B", "a", "ä", "ab"];
    expected.sort();
    assert_eq!(resolve_packages(&l, &InstallLevel::Core), expected);
}

#[test]
fn level_labels() {
    assert_eq!(InstallLevel::Core.label(), "Core    — Yalnızca temel sistem (base, kernel)");
    assert_eq!(InstallLevel::Minimal.label(), "Minimal — Core + geliştirici araçları, ağ, git");
    assert_eq!(InstallLevel::Desktop.label(), "Desktop — Minimal + masaüstü ortamı (Xorg, GNOME)");
}

#[test]
fn listing_breaks_every_six() {
    let ps: Vec<String> = (1..=7).map(|i| format!("p{i}")).collect();
    assert_eq!(package_listing(&ps), "  p1  p2  p3  p4  p5  p6\n  p7");
    assert_eq!(package_listing(&vec![]), "");
}
