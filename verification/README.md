# arch_installer

An interactive Arch Linux installer: it picks a disk, wipes and partitions it
(EFI, optional swap, root), formats and mounts the partitions, installs a chosen
level of packages with `pacstrap`, and configures the new system (time zone,
locales, hostname, passwords, a user, sudo, microcode, GRUB).

- `src/` is the verified library (Verus): everything the installer decides or
  computes. `text` models the standard string operations it relies on (`lines`,
  `split_whitespace`, `trim`, ...), `order` sorts strings; `disk_manager`,
  `packages` and `system_configs` hold the sizes, partition layout and `sfdisk`
  script, the parsing of `/proc/mounts`, `/proc/swaps`, `lsblk` devices and
  `packages.json` lists, the checks on what the user types, and the rewriting of
  `locale.gen`, `sudoers` and `mkinitcpio.conf`. The stages of wiping a disk and
  the steps of configuring the system are planned there too.
- `app/` is the program around it: the prompts (`inquire`), the command line
  (`clap`), JSON parsing (`serde_json`), files and the commands it runs.
- `tests/` runs the library on concrete values.
