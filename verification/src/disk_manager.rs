use vstd::prelude::*;
use crate::text::{
    all_digits, byte_len, chars_eq, chars_of, contains, contains_seq, digits_between, ends_with,
    is_digit, is_ws, lemma_strs_push, lemma_trim_ends, lemma_trim_of_trimmed, lines, lines_of, starts_with,
    string_of, strs, trim, trimmed, views, words, words_of,
};

verus! {

/// The units a size may carry after its digits.
pub open spec fn size_units() -> Seq<Seq<char>> {
    seq!["MiB"@, "GiB"@, "TiB"@, "KiB"@, "MB"@, "GB"@, "TB"@]
}

/// `t` is a non-empty run of digits followed by the unit `u`.
pub open spec fn number_with_unit(t: Seq<char>, u: Seq<char>) -> bool {
    &&& u.is_suffix_of(t)
    &&& t.len() > u.len()
    &&& all_digits(t.take(t.len() - u.len()))
}

/// A size that the partitioner accepts: once trimmed, digits alone (read as MiB)
/// or digits followed by one of `size_units()`.
pub open spec fn valid_size(s: Seq<char>) -> bool {
    let t = trim(s);
    &&& t.len() > 0
    &&& (all_digits(t) || exists|k: int| 0 <= k < 7 && number_with_unit(t, #[trigger] size_units()[k]))
}

/// The size handed to the partitioner: trimmed, with `MiB` added to a bare number.
pub open spec fn formatted_size(s: Seq<char>) -> Seq<char> {
    let t = trim(s);
    if all_digits(t) {
        t + "MiB"@
    } else {
        t
    }
}

fn unit_list() -> (r: Vec<Vec<char>>)
    ensures
        views(r@) == size_units(),
        r.len() == 7,
{
    let r = vec![
        chars_of("MiB"),
        chars_of("GiB"),
        chars_of("TiB"),
        chars_of("KiB"),
        chars_of("MB"),
        chars_of("GB"),
        chars_of("TB"),
    ];
    assert(views(r@) =~= size_units());
    r
}

/// Whether `input` is a size such as "512MiB", "8GiB", "1TiB", "2048" or "0".
pub fn is_valid_size(input: &str) -> (b: bool)
    ensures
        b == valid_size(input@),
{
    let t = trimmed(input);
    if t.len() == 0 {
        return false;
    }
    if digits_between(&t, 0, t.len()) {
        assert(t@.subrange(0, t.len() as int) =~= t@);
        return true;
    }
    assert(t@.subrange(0, t.len() as int) =~= t@);
    let units = unit_list();
    let mut k: usize = 0;
    while k < units.len()
        invariant
            units.len() == 7,
            k <= 7,
            views(units@) == size_units(),
            t@ == trim(input@),
            forall|j: int| 0 <= j < k ==> !number_with_unit(t@, #[trigger] size_units()[j]),
        decreases 7 - k,
    {
        let u = &units[k];
        if ends_with(&t, u) && t.len() > u.len() {
            let ok = digits_between(&t, 0, t.len() - u.len());
            assert(t@.subrange(0, t.len() - u.len()) =~= t@.take(t.len() - u.len()));
            if ok {
                assert(number_with_unit(t@, size_units()[k as int]));
                return true;
            }
        }
        k = k + 1;
    }
    false
}

/// The size as the partitioner takes it: a bare number becomes a number of MiB,
/// anything else is only trimmed.
pub fn format_size(input: &str) -> (r: String)
    ensures
        r@ == formatted_size(input@),
{
    let t = trimmed(input);
    let mut r = string_of(&t);
    if digits_between(&t, 0, t.len()) {
        assert(t@.subrange(0, t.len() as int) =~= t@);
        r.append("MiB");
    } else {
        assert(t@.subrange(0, t.len() as int) =~= t@);
    }
    r
}

/// The lowercase spellings of a size of zero.
pub open spec fn zero_sizes() -> Seq<Seq<char>> {
    seq!["0"@, "0mib"@, "0gib"@, "0kib"@, "0tib"@, "0mb"@, "0gb"@]
}

/// The lowercase equivalent of a string, as `str::to_lowercase` computes it
/// (Unicode lowercase mapping).
pub uninterp spec fn lowercase(s: Seq<char>) -> Seq<char>;

/// `str::to_lowercase`. Claimed of it: its result is `lowercase` of the characters given,
/// that is, a function of them alone. What that function is (the Unicode lowercase
/// mapping, which may change the length of the string) is left unsaid: its tables take far
/// more than a few lines.
#[verifier::external_body]
fn to_lowercase(s: &str) -> (r: String)
    ensures
        r@ == lowercase(s@),
{
    s.to_lowercase()
}

/// Every digit of `t` is `0` (the units hold no digits, so in a valid size these are the
/// digits of its number).
pub open spec fn zero_digits(t: Seq<char>) -> bool {
    forall|i: int| 0 <= i < t.len() && is_digit(#[trigger] t[i]) ==> t[i] == '0'
}

/// Whether a size means zero: a valid size whose number is all zeros, whatever its unit
/// (`0`, `00`, `0TB`, ` 0MiB`), or one of the spellings of zero in any case (`0gib`).
pub open spec fn is_zero(size: Seq<char>) -> bool {
    ||| (valid_size(size) && zero_digits(trim(size)))
    ||| zero_sizes().contains(lowercase(size))
}

/// Whether every digit of `t` is `0`.
fn only_zero_digits(t: &Vec<char>) -> (b: bool)
    ensures
        b == zero_digits(t@),
{
    let mut i: usize = 0;
    while i < t.len()
        invariant
            i <= t.len(),
            forall|j: int| 0 <= j < i && is_digit(#[trigger] t@[j]) ==> t@[j] == '0',
        decreases t.len() - i,
    {
        let c = t[i];
        if '0' <= c && c <= '9' && c != '0' {
            assert(is_digit(t@[i as int]));
            return false;
        }
        i = i + 1;
    }
    true
}

/// Whether an already lowercased size is one of the spellings of zero.
pub fn is_zero_lowercase(lower: &str) -> (b: bool)
    ensures
        b == zero_sizes().contains(lower@),
{
    let l = chars_of(lower);
    let zeros = vec![
        chars_of("0"),
        chars_of("0mib"),
        chars_of("0gib"),
        chars_of("0kib"),
        chars_of("0tib"),
        chars_of("0mb"),
        chars_of("0gb"),
    ];
    assert(views(zeros@) =~= zero_sizes());
    let mut k: usize = 0;
    while k < zeros.len()
        invariant
            zeros.len() == 7,
            k <= 7,
            views(zeros@) == zero_sizes(),
            l@ == lower@,
            forall|j: int| 0 <= j < k ==> #[trigger] zero_sizes()[j] != l@,
        decreases 7 - k,
    {
        if chars_eq(&zeros[k], &l) {
            assert(zero_sizes()[k as int] == l@);
            return true;
        }
        k = k + 1;
    }
    false
}

/// Whether a size means zero (a swap of this size is left out): `0`, `00`, `0TB`, `0gib`
/// do, `1`, `10GiB`, `0 MiB` do not.
pub fn is_zero_size(size: &str) -> (b: bool)
    ensures
        b == is_zero(size@),
{
    if is_valid_size(size) && only_zero_digits(&trimmed(size)) {
        return true;
    }
    let lower = to_lowercase(size);
    is_zero_lowercase(lower.as_str())
}

/// How a typed size fares against the size prompt's check.
#[derive(Debug, Clone, Copy, PartialEq, Eq, Structural)]
pub enum SizeCheck {
    /// Nothing but whitespace was typed.
    Empty,
    /// Something was typed that is not a size.
    BadFormat,
    /// A size.
    Valid,
}

/// The check that the size prompts apply to what is typed.
pub fn check_size_input(input: &str) -> (r: SizeCheck)
    ensures
        r == (if trim(input@).len() == 0 {
            SizeCheck::Empty
        } else if !valid_size(input@) {
            SizeCheck::BadFormat
        } else {
            SizeCheck::Valid
        }),
{
    let t = trimmed(input);
    if t.len() == 0 {
        SizeCheck::Empty
    } else if !is_valid_size(input) {
        SizeCheck::BadFormat
    } else {
        SizeCheck::Valid
    }
}

/// The EFI size taken from an accepted answer: the formatted size, or `None` when it
/// means zero and the question must be asked again.
pub fn efi_size_choice(input: &str) -> (r: Option<String>)
    ensures
        r matches Some(s) ==> s@ == formatted_size(input@),
        r is None <==> is_zero(formatted_size(input@)),
{
    let f = format_size(input);
    if is_zero_size(f.as_str()) {
        None
    } else {
        Some(f)
    }
}

} // verus!

verus! {

proof fn lemma_mib_ends(t: Seq<char>)
    requires
        all_digits(t),
    ensures
        trim(t + "MiB"@) == t + "MiB"@,
        !all_digits(t + "MiB"@),
        "MiB"@.is_suffix_of(t + "MiB"@),
        (t + "MiB"@).take(t.len() as int) == t,
{
    reveal_strlit("MiB");
    let f = t + "MiB"@;
    assert(f[t.len() as int] == 'M');
    assert(f.last() == 'B');
    if t.len() > 0 {
        assert(f[0] == t[0]);
        assert(crate::text::is_digit(t[0]));
        assert(!is_ws(f[0]));
    }
    lemma_trim_of_trimmed(f);
    assert(f.subrange(t.len() as int, f.len() as int) =~= "MiB"@);
    assert(f.take(t.len() as int) =~= t);
}

/// Formatting a size a second time changes nothing.
pub proof fn law_format_size_idempotent(s: Seq<char>)
    ensures
        formatted_size(formatted_size(s)) == formatted_size(s),
{
    let t = trim(s);
    lemma_trim_ends(s);
    if all_digits(t) {
        lemma_mib_ends(t);
    } else {
        lemma_trim_of_trimmed(t);
    }
}

/// A valid size stays valid once formatted.
pub proof fn law_format_size_keeps_valid(s: Seq<char>)
    requires
        valid_size(s),
    ensures
        valid_size(formatted_size(s)),
{
    let t = trim(s);
    lemma_trim_ends(s);
    if all_digits(t) {
        lemma_mib_ends(t);
        let f = t + "MiB"@;
        reveal_strlit("MiB");
        assert(number_with_unit(f, size_units()[0]));
    } else {
        lemma_trim_of_trimmed(t);
        let k = choose|k: int| 0 <= k < 7 && number_with_unit(t, #[trigger] size_units()[k]);
        assert(number_with_unit(trim(t), size_units()[k]));
    }
}

/// A swap size whose number is all zeros, in any unit, still means zero once formatted,
/// so the partition table gets no SWAP entry: `00` and `0TB` give no swap.
pub proof fn law_zero_swap_gives_no_swap(efi_size: Seq<char>, swap_size: Seq<char>)
    requires
        valid_size(swap_size),
        zero_digits(trim(swap_size)),
    ensures
        is_zero(formatted_size(swap_size)),
        partition_entries(efi_size, formatted_size(swap_size)).len() == 2,
{
    law_format_size_keeps_valid(swap_size);
    let t = trim(swap_size);
    let f = formatted_size(swap_size);
    lemma_trim_ends(swap_size);
    if all_digits(t) {
        lemma_mib_ends(t);
        reveal_strlit("MiB");
        assert forall|i: int| 0 <= i < f.len() && is_digit(#[trigger] f[i]) implies f[i] == '0' by {
            if i >= t.len() {
                assert(f[i] == "MiB"@[i - t.len()]);
            } else {
                assert(f[i] == t[i]);
            }
        }
    } else {
        lemma_trim_of_trimmed(t);
    }
    assert(trim(f) == f);
}

} // verus!

verus! {

/// The number of a partition of the layout: EFI is 1; SWAP, when there is one, is 2;
/// ROOT comes last, 3 with a swap and 2 without.
pub open spec fn partition_number(index: u8, swap_enabled: bool) -> u8 {
    if index == 1 {
        1
    } else if index == 2 {
        2
    } else if swap_enabled {
        3
    } else {
        2
    }
}

/// The index given names a partition of the layout: 1 (EFI), 2 (SWAP, only when there
/// is a swap) or 3 (ROOT).
pub open spec fn partition_index_ok(index: u8, swap_enabled: bool) -> bool {
    index == 1 || index == 3 || (index == 2 && swap_enabled)
}

/// The number of partition `index` (1 = EFI, 2 = SWAP, 3 = ROOT) on the disk.
pub fn part_num(index: u8, swap_enabled: bool) -> (n: u8)
    requires
        partition_index_ok(index, swap_enabled),
    ensures
        n == partition_number(index, swap_enabled),
{
    match index {
        1 => 1,
        2 => 2,
        _ => {
            if swap_enabled {
                3
            } else {
                2
            }
        },
    }
}

/// The decimal digits of a number.
pub open spec fn decimal(n: nat) -> Seq<char>
    decreases n,
{
    if n < 10 {
        seq![digit_char(n)]
    } else {
        decimal(n / 10).push(digit_char(n % 10))
    }
}

pub open spec fn digit_char(d: nat) -> char {
    seq!['0', '1', '2', '3', '4', '5', '6', '7', '8', '9'][d as int]
}

fn push_digit(s: &mut String, d: u8)
    requires
        d < 10,
    ensures
        final(s)@ == old(s)@.push(digit_char(d as nat)),
{
    let digits = vec!['0', '1', '2', '3', '4', '5', '6', '7', '8', '9'];
    assert(digits@ == seq!['0', '1', '2', '3', '4', '5', '6', '7', '8', '9']);
    crate::text::push_char(s, digits[d as usize]);
}

/// Appends the decimal form of `n`.
pub fn push_decimal(s: &mut String, n: u8)
    ensures
        final(s)@ == old(s)@ + decimal(n as nat),
{
    let ghost s0 = s@;
    proof {
        reveal_with_fuel(decimal, 3);
    }
    if n >= 100 {
        push_digit(s, n / 100);
        push_digit(s, (n / 10) % 10);
        push_digit(s, n % 10);
        assert((n as nat) / 10 / 10 == (n as nat) / 100);
        assert(s@ =~= s0 + decimal(n as nat));
    } else if n >= 10 {
        push_digit(s, n / 10);
        push_digit(s, n % 10);
        assert(s@ =~= s0 + decimal(n as nat));
    } else {
        push_digit(s, n);
        assert(s@ =~= s0 + decimal(n as nat));
    }
}

/// Whether partitions of the device are named with a `p` before their number
/// (NVMe and MMC devices).
pub open spec fn uses_p_separator(device: Seq<char>) -> bool {
    contains_seq(device, "nvme"@) || contains_seq(device, "mmcblk"@)
}

/// The device path of partition `num` of `device`.
pub open spec fn partition_path(device: Seq<char>, num: nat) -> Seq<char> {
    device + (if uses_p_separator(device) {
        "p"@
    } else {
        Seq::<char>::empty()
    }) + decimal(num)
}

/// The device path of partition `num` of `device`: `/dev/sda` gives `/dev/sda1`,
/// `/dev/nvme0n1` gives `/dev/nvme0n1p1`.
pub fn part_path(device: &str, num: u8) -> (r: String)
    ensures
        r@ == partition_path(device@, num as nat),
{
    let d = chars_of(device);
    let sep = contains(&d, &chars_of("nvme")) || contains(&d, &chars_of("mmcblk"));
    let mut r = string_of(&d);
    if sep {
        r.append("p");
    }
    push_decimal(&mut r, num);
    proof {
        if !sep {
            assert(device@ + Seq::<char>::empty() =~= device@);
        }
    }
    r
}

/// The device paths of the partitions of the layout.
pub struct PartitionLayout {
    pub efi: String,
    pub swap: Option<String>,
    pub root: String,
}

/// The paths of the EFI, SWAP (when there is one) and ROOT partitions of `device`.
pub fn partition_layout(device: &str, swap_enabled: bool) -> (r: PartitionLayout)
    ensures
        r.efi@ == partition_path(device@, partition_number(1, swap_enabled) as nat),
        r.root@ == partition_path(device@, partition_number(3, swap_enabled) as nat),
        swap_enabled <==> r.swap is Some,
        r.swap matches Some(s) ==> s@ == partition_path(
            device@,
            partition_number(2, swap_enabled) as nat,
        ),
{
    let efi = part_path(device, part_num(1, swap_enabled));
    let swap = if swap_enabled {
        Some(part_path(device, part_num(2, swap_enabled)))
    } else {
        None
    };
    let root = part_path(device, part_num(3, swap_enabled));
    PartitionLayout { efi, swap, root }
}

/// The lines of the partition table that the layout asks of `sfdisk`: EFI, then SWAP
/// unless its size is zero, then ROOT over the rest of the disk.
pub open spec fn partition_entries(efi_size: Seq<char>, swap_size: Seq<char>) -> Seq<Seq<char>> {
    let efi = "size="@ + efi_size + ", type=U, name=EFI\n"@;
    let root = "type=L, name=ROOT\n"@;
    if is_zero(swap_size) {
        seq![efi, root]
    } else {
        seq![efi, "size="@ + swap_size + ", type=S, name=SWAP\n"@, root]
    }
}

/// The script handed to `sfdisk`: a GPT label, then the partition entries.
pub open spec fn sfdisk_script(efi_size: Seq<char>, swap_size: Seq<char>) -> Seq<char> {
    let e = partition_entries(efi_size, swap_size);
    if e.len() == 2 {
        "label: gpt\n"@ + e[0] + e[1]
    } else {
        "label: gpt\n"@ + e[0] + e[1] + e[2]
    }
}

/// The input that `partition_disk` writes to `sfdisk`.
pub fn partition_script(efi_size: &str, swap_size: &str) -> (r: String)
    ensures
        r@ == sfdisk_script(efi_size@, swap_size@),
{
    let swap_enabled = !is_zero_size(swap_size);
    let mut input = String::new();
    input.append("label: gpt\n");
    input.append("size=");
    input.append(efi_size);
    input.append(", type=U, name=EFI\n");
    if swap_enabled {
        input.append("size=");
        input.append(swap_size);
        input.append(", type=S, name=SWAP\n");
    }
    input.append("type=L, name=ROOT\n");
    proof {
        let e = partition_entries(efi_size@, swap_size@);
        if swap_enabled {
            assert(input@ =~= "label: gpt\n"@ + e[0] + e[1] + e[2]);
        } else {
            assert(input@ =~= "label: gpt\n"@ + e[0] + e[1]);
        }
    }
    input
}

/// The partition numbers used to format and mount the disk name the entries of the
/// script it was partitioned with: EFI is the first entry, SWAP (when the swap size is
/// not zero) the second, and ROOT the last.
pub proof fn law_partition_numbers_match_script(efi_size: Seq<char>, swap_size: Seq<char>)
    ensures
        ({
            let e = partition_entries(efi_size, swap_size);
            let swap_enabled = !is_zero(swap_size);
            &&& e.len() == partition_number(3, swap_enabled)
            &&& e[partition_number(1, swap_enabled) - 1] == "size="@ + efi_size
                + ", type=U, name=EFI\n"@
            &&& e[partition_number(3, swap_enabled) - 1] == "type=L, name=ROOT\n"@
            &&& swap_enabled ==> e[partition_number(2, swap_enabled) - 1] == "size="@ + swap_size
                + ", type=S, name=SWAP\n"@
        }),
{
}

} // verus!

verus! {

/// One block device as `lsblk` reports it.
pub struct DiskInfo {
    pub name: String,
    pub size: String,
    pub model: Option<String>,
    pub device_type: String,
}

/// The line offered for a disk: `/dev/NAME - SIZE (MODEL)`, with a stand-in when the
/// model is unknown.
pub open spec fn disk_entry(d: DiskInfo) -> Seq<char> {
    "/dev/"@ + d.name@ + " - "@ + d.size@ + " ("@ + (match d.model {
        Some(m) => m@,
        None => "Bilinmeyen Model"@,
    }) + ")"@
}

/// The lines offered for the devices that are whole disks, in order.
pub open spec fn disk_list(ds: Seq<DiskInfo>) -> Seq<Seq<char>>
    decreases ds.len(),
{
    if ds.len() == 0 {
        seq![]
    } else {
        let rest = disk_list(ds.drop_last());
        if ds.last().device_type@ == "disk"@ {
            rest.push(disk_entry(ds.last()))
        } else {
            rest
        }
    }
}

/// The disks among the devices, each as the line the disk prompt offers.
pub fn disk_entries(devices: &Vec<DiskInfo>) -> (r: Vec<String>)
    ensures
        strs(r@) == disk_list(devices@),
{
    let disk = chars_of("disk");
    let mut r: Vec<String> = Vec::new();
    for i in 0..devices.len()
        invariant
            disk@ == "disk"@,
            strs(r@) == disk_list(devices@.take(i as int)),
    {
        let d = &devices[i];
        proof {
            assert(devices@.take(i + 1).drop_last() =~= devices@.take(i as int));
            assert(devices@.take(i + 1).last() == devices@[i as int]);
        }
        if chars_eq(&chars_of(d.device_type.as_str()), &disk) {
            let mut line = String::new();
            line.append("/dev/");
            line.append(d.name.as_str());
            line.append(" - ");
            line.append(d.size.as_str());
            line.append(" (");
            match &d.model {
                Some(m) => line.append(m.as_str()),
                None => line.append("Bilinmeyen Model"),
            }
            line.append(")");
            proof {
                lemma_strs_push(r@, line);
            }
            r.push(line);
        }
    }
    assert(devices@.take(devices.len() as int) =~= devices@);
    r
}

/// The character sequences of a vector of string pairs.
pub open spec fn pairs(v: Seq<(String, String)>) -> Seq<(Seq<char>, Seq<char>)> {
    v.map_values(|p: (String, String)| (p.0@, p.1@))
}

proof fn lemma_pairs_push(v: Seq<(String, String)>, x: (String, String))
    ensures
        pairs(v.push(x)) == pairs(v).push((x.0@, x.1@)),
{
    assert(pairs(v.push(x)) =~= pairs(v).push((x.0@, x.1@)));
}

/// What may follow a disk's path in the path of one of its partitions: a number, after a
/// `p` on NVMe and MMC devices (`/dev/sda2`, `/dev/nvme0n1p2`); nothing for the disk itself.
pub open spec fn partition_suffix(device: Seq<char>, suffix: Seq<char>) -> bool {
    ||| suffix.len() == 0
    ||| (uses_p_separator(device) && suffix.len() >= 2 && suffix[0] == 'p' && all_digits(
        suffix.skip(1),
    ))
    ||| (!uses_p_separator(device) && suffix.len() >= 1 && all_digits(suffix))
}

/// Whether `path` names the disk `device` or one of its partitions (`/dev/sda1` belongs to
/// `/dev/sda`, `/dev/sdaa1` does not).
pub open spec fn belongs_to(device: Seq<char>, path: Seq<char>) -> bool {
    device.is_prefix_of(path) && partition_suffix(device, path.skip(device.len() as int))
}

/// Whether `path` names the disk `device` or one of its partitions; `p_separator` tells
/// whether the device numbers its partitions after a `p`.
pub fn belongs_to_device(device: &Vec<char>, path: &Vec<char>, p_separator: bool) -> (b: bool)
    requires
        p_separator == uses_p_separator(device@),
    ensures
        b == belongs_to(device@, path@),
{
    if !starts_with(path, device) {
        return false;
    }
    let n = device.len();
    let ghost suffix = path@.skip(n as int);
    if path.len() == n {
        assert(suffix.len() == 0);
        return true;
    }
    if p_separator {
        if path.len() - n >= 2 && path[n] == 'p' {
            let d = digits_between(path, n + 1, path.len());
            assert(path@.subrange(n + 1, path.len() as int) =~= suffix.skip(1));
            assert(suffix[0] == path@[n as int]);
            d
        } else {
            assert(suffix.len() >= 2 ==> suffix[0] == path@[n as int]);
            false
        }
    } else {
        let d = digits_between(path, n, path.len());
        assert(path@.subrange(n as int, path.len() as int) =~= suffix);
        d
    }
}

/// The partition and mount point a line of `/proc/mounts` names, when the partition
/// is `device` or one of its partitions.
pub open spec fn mount_entry(line: Seq<char>, device: Seq<char>) -> Option<(Seq<char>, Seq<char>)> {
    let w = words(line);
    if w.len() >= 2 && belongs_to(device, w[0]) {
        Some((w[0], w[1]))
    } else {
        None
    }
}

pub open spec fn mount_list(ls: Seq<Seq<char>>, device: Seq<char>) -> Seq<(Seq<char>, Seq<char>)>
    decreases ls.len(),
{
    if ls.len() == 0 {
        seq![]
    } else {
        let rest = mount_list(ls.drop_last(), device);
        match mount_entry(ls.last(), device) {
            Some(e) => rest.push(e),
            None => rest,
        }
    }
}

/// The (partition, mount point) pairs of the disk `device` and its partitions, read from the
/// text of `/proc/mounts`: e.g. `/dev/sda` gives `[("/dev/sda1", "/mnt"), ("/dev/sda2",
/// "/mnt/boot")]`, and leaves out `/dev/sdaa1`.
pub fn mounted_partitions(content: &str, device: &str) -> (r: Vec<(String, String)>)
    ensures
        pairs(r@) == mount_list(lines(content@), device@),
{
    let text = chars_of(content);
    let dev = chars_of(device);
    let p_sep = contains(&dev, &chars_of("nvme")) || contains(&dev, &chars_of("mmcblk"));
    let ls = lines_of(&text);
    let mut r: Vec<(String, String)> = Vec::new();
    for i in 0..ls.len()
        invariant
            dev@ == device@,
            p_sep == uses_p_separator(device@),
            views(ls@) == lines(content@),
            pairs(r@) == mount_list(views(ls@).take(i as int), device@),
    {
        let w = words_of(&ls[i]);
        proof {
            assert(views(ls@).take(i + 1).drop_last() =~= views(ls@).take(i as int));
            assert(views(ls@).take(i + 1).last() == ls@[i as int]@);
        }
        if w.len() >= 2 && belongs_to_device(&dev, &w[0], p_sep) {
            let e = (string_of(&w[0]), string_of(&w[1]));
            proof {
                lemma_pairs_push(r@, e);
            }
            r.push(e);
        }
    }
    assert(views(ls@).take(ls.len() as int) =~= views(ls@));
    r
}

/// The swap partition a line of `/proc/swaps` names, when it is `device` or one of its
/// partitions.
pub open spec fn swap_entry(line: Seq<char>, device: Seq<char>) -> Option<Seq<char>> {
    let w = words(line);
    if w.len() >= 1 && belongs_to(device, w[0]) {
        Some(w[0])
    } else {
        None
    }
}

pub open spec fn swap_list(ls: Seq<Seq<char>>, device: Seq<char>) -> Seq<Seq<char>>
    decreases ls.len(),
{
    if ls.len() == 0 {
        seq![]
    } else {
        let rest = swap_list(ls.drop_last(), device);
        match swap_entry(ls.last(), device) {
            Some(e) => rest.push(e),
            None => rest,
        }
    }
}

/// The lines of `/proc/swaps` after its header line.
pub open spec fn swap_lines(content: Seq<char>) -> Seq<Seq<char>> {
    let ls = lines(content);
    if ls.len() == 0 {
        ls
    } else {
        ls.skip(1)
    }
}

/// The active swaps on the disk `device` or its partitions, read from the text of
/// `/proc/swaps`.
pub fn active_swaps(content: &str, device: &str) -> (r: Vec<String>)
    ensures
        strs(r@) == swap_list(swap_lines(content@), device@),
{
    let text = chars_of(content);
    let dev = chars_of(device);
    let p_sep = contains(&dev, &chars_of("nvme")) || contains(&dev, &chars_of("mmcblk"));
    let ls = lines_of(&text);
    let mut r: Vec<String> = Vec::new();
    if ls.len() == 0 {
        return r;
    }
    let ghost body = views(ls@).skip(1);
    let mut i: usize = 1;
    while i < ls.len()
        invariant
            1 <= i <= ls.len(),
            dev@ == device@,
            p_sep == uses_p_separator(device@),
            views(ls@) == lines(content@),
            body == views(ls@).skip(1),
            strs(r@) == swap_list(body.take(i - 1), device@),
        decreases ls.len() - i,
    {
        let w = words_of(&ls[i]);
        proof {
            assert(body.take(i as int).drop_last() =~= body.take(i - 1));
            assert(body.take(i as int).last() == ls@[i as int]@);
        }
        if w.len() >= 1 && belongs_to_device(&dev, &w[0], p_sep) {
            let e = string_of(&w[0]);
            proof {
                lemma_strs_push(r@, e);
            }
            r.push(e);
        }
        i = i + 1;
    }
    assert(body.take(ls.len() - 1) =~= body);
    r
}

} // verus!

verus! {

/// The byte length of a mount point, by which deeper mounts are told apart.
pub open spec fn mount_depth(m: (Seq<char>, Seq<char>)) -> nat {
    byte_len(m.1) as nat
}

/// Whether a mount has the given depth.
pub open spec fn depth_is(n: nat) -> spec_fn((Seq<char>, Seq<char>)) -> bool {
    |m: (Seq<char>, Seq<char>)| mount_depth(m) == n
}

/// Longer mount points come first.
pub open spec fn deepest_first(s: Seq<(Seq<char>, Seq<char>)>) -> bool {
    forall|i: int, j: int|
        0 <= i < j < s.len() ==> mount_depth(#[trigger] s[i]) >= mount_depth(#[trigger] s[j])
}

/// `r` holds the mounts of `s`, and mounts of the same depth keep their order.
pub open spec fn same_mounts_stable(
    r: Seq<(Seq<char>, Seq<char>)>,
    s: Seq<(Seq<char>, Seq<char>)>,
) -> bool {
    forall|n: nat| #[trigger] r.filter(depth_is(n)) == s.filter(depth_is(n))
}

proof fn lemma_filter_none(s: Seq<(Seq<char>, Seq<char>)>, n: nat)
    requires
        forall|k: int| 0 <= k < s.len() ==> mount_depth(#[trigger] s[k]) < n,
    ensures
        s.filter(depth_is(n)) == Seq::<(Seq<char>, Seq<char>)>::empty(),
{
    let p = depth_is(n);
    assert(s.all(|x: (Seq<char>, Seq<char>)| !p(x)));
    s.lemma_all_neg_filter_empty(p);
}

/// The order in which to unmount: deepest mount point first (`/mnt/boot` before
/// `/mnt`), mounts of equal depth in their given order (a stable sort).
pub fn unmount_order(mounts: Vec<(String, String)>) -> (r: Vec<(String, String)>)
    ensures
        deepest_first(pairs(r@)),
        same_mounts_stable(pairs(r@), pairs(mounts@)),
{
    let mut r: Vec<(String, String)> = Vec::new();
    let ghost input = pairs(mounts@);
    assert(pairs(r@) =~= Seq::<(Seq<char>, Seq<char>)>::empty());
    assert(input.take(0) =~= Seq::<(Seq<char>, Seq<char>)>::empty());
    let mut i: usize = 0;
    while i < mounts.len()
        invariant
            i <= mounts.len(),
            input == pairs(mounts@),
            deepest_first(pairs(r@)),
            same_mounts_stable(pairs(r@), input.take(i as int)),
        decreases mounts.len() - i,
    {
        let x = &mounts[i];
        let kx = x.1.as_str().len();
        let mut p: usize = 0;
        while p < r.len() && r[p].1.as_str().len() >= kx
            invariant
                p <= r.len(),
                kx == mount_depth(input[i as int]),
                input == pairs(mounts@),
                i < mounts.len(),
                forall|k: int| 0 <= k < p ==> mount_depth(#[trigger] pairs(r@)[k]) >= kx,
            decreases r.len() - p,
        {
            p = p + 1;
        }
        let ghost old_r = pairs(r@);
        let ghost xv = input[i as int];
        proof {
            assert(xv == (x.0@, x.1@));
        }
        r.insert(p, (x.0.clone(), x.1.clone()));
        proof {
            let nr = pairs(r@);
            assert(nr =~= old_r.insert(p as int, xv));
            let a = old_r.subrange(0, p as int);
            let b = old_r.subrange(p as int, old_r.len() as int);
            assert(old_r =~= a + b);
            assert(nr =~= a.push(xv) + b);
            if p < old_r.len() {
                assert(mount_depth(old_r[p as int]) < kx);
            }
            assert forall|k: int| 0 <= k < b.len() implies mount_depth(#[trigger] b[k]) < kx by {
                assert(b[k] == old_r[p + k]);
                if p + k > p {
                    assert(mount_depth(old_r[p as int]) >= mount_depth(old_r[p + k]));
                }
            }
            assert(input.take(i + 1) =~= input.take(i as int).push(xv));
            assert forall|n: nat| #[trigger] nr.filter(depth_is(n)) == input.take(i + 1).filter(
                depth_is(n),
            ) by {
                Seq::filter_distributes_over_add(a.push(xv), b, depth_is(n));
                Seq::filter_distributes_over_add(a, b, depth_is(n));
                a.lemma_filter_push(xv, depth_is(n));
                input.take(i as int).lemma_filter_push(xv, depth_is(n));
                assert(old_r.filter(depth_is(n)) == input.take(i as int).filter(depth_is(n)));
                if n == kx {
                    lemma_filter_none(b, n);
                    assert(a.filter(depth_is(n)) + b.filter(depth_is(n)) =~= a.filter(depth_is(n)));
                    assert(a.filter(depth_is(n)).push(xv) + b.filter(depth_is(n)) =~= a.filter(
                        depth_is(n),
                    ).push(xv));
                }
            }
            assert forall|u: int, v: int| 0 <= u < v < nr.len() implies mount_depth(
                #[trigger] nr[u],
            ) >= mount_depth(#[trigger] nr[v]) by {
                if v < p {
                    assert(nr[u] == old_r[u] && nr[v] == old_r[v]);
                } else if v == p {
                    assert(nr[u] == old_r[u]);
                } else if u < p {
                    assert(nr[u] == old_r[u] && nr[v] == old_r[v - 1]);
                } else if u == p {
                    assert(nr[v] == old_r[v - 1]);
                    assert(nr[v] == b[v - 1 - p]);
                } else {
                    assert(nr[u] == old_r[u - 1] && nr[v] == old_r[v - 1]);
                }
            }
        }
        i = i + 1;
    }
    assert(input.take(mounts.len() as int) =~= input);
    r
}

} // verus!

verus! {

/// The stages of preparing a disk for installation, in the order they run.
#[derive(Debug, Clone, Copy, PartialEq, Eq, Structural)]
pub enum DiskStage {
    /// Ask whether all data on the disk may be erased.
    ConfirmWipe,
    /// Ask a second time.
    ConfirmAgain,
    /// Turn off the disk's swaps and unmount its partitions.
    Unmount,
    /// Erase the old signatures and partition table.
    Wipe,
    /// Ask for the EFI and swap sizes.
    ChooseSizes,
    /// Write the new partition table.
    Partition,
    /// Create the file systems and the swap.
    FormatPartitions,
    /// Mount the new system and turn on its swap.
    Mount,
    /// Every stage succeeded.
    Done,
    /// An answer was not yes; the disk was left alone.
    Cancelled,
    /// A stage failed; nothing after it ran.
    Failed,
}

/// The stage after `stage`, given its outcome: the answer for a question (`true` for yes),
/// success for a step.
pub open spec fn stage_after(stage: DiskStage, ok: bool) -> DiskStage {
    match stage {
        DiskStage::ConfirmWipe => if ok {
            DiskStage::ConfirmAgain
        } else {
            DiskStage::Cancelled
        },
        DiskStage::ConfirmAgain => if ok {
            DiskStage::Unmount
        } else {
            DiskStage::Cancelled
        },
        DiskStage::Unmount => if ok {
            DiskStage::Wipe
        } else {
            DiskStage::Failed
        },
        DiskStage::Wipe => if ok {
            DiskStage::ChooseSizes
        } else {
            DiskStage::Failed
        },
        DiskStage::ChooseSizes => if ok {
            DiskStage::Partition
        } else {
            DiskStage::Failed
        },
        DiskStage::Partition => if ok {
            DiskStage::FormatPartitions
        } else {
            DiskStage::Failed
        },
        DiskStage::FormatPartitions => if ok {
            DiskStage::Mount
        } else {
            DiskStage::Failed
        },
        DiskStage::Mount => if ok {
            DiskStage::Done
        } else {
            DiskStage::Failed
        },
        DiskStage::Done => DiskStage::Done,
        DiskStage::Cancelled => DiskStage::Cancelled,
        DiskStage::Failed => DiskStage::Failed,
    }
}

/// Whether the stage ends the run.
pub open spec fn is_final(stage: DiskStage) -> bool {
    stage == DiskStage::Done || stage == DiskStage::Cancelled || stage == DiskStage::Failed
}

/// Whether the stage touches the disk (or comes after a stage that did).
pub open spec fn touches_disk(stage: DiskStage) -> bool {
    !(stage == DiskStage::ConfirmWipe || stage == DiskStage::ConfirmAgain || stage
        == DiskStage::Cancelled)
}

/// The next stage of `format_the_disk`.
pub fn next_stage(stage: DiskStage, ok: bool) -> (r: DiskStage)
    ensures
        r == stage_after(stage, ok),
{
    match stage {
        DiskStage::ConfirmWipe => if ok {
            DiskStage::ConfirmAgain
        } else {
            DiskStage::Cancelled
        },
        DiskStage::ConfirmAgain => if ok {
            DiskStage::Unmount
        } else {
            DiskStage::Cancelled
        },
        DiskStage::Unmount => if ok {
            DiskStage::Wipe
        } else {
            DiskStage::Failed
        },
        DiskStage::Wipe => if ok {
            DiskStage::ChooseSizes
        } else {
            DiskStage::Failed
        },
        DiskStage::ChooseSizes => if ok {
            DiskStage::Partition
        } else {
            DiskStage::Failed
        },
        DiskStage::Partition => if ok {
            DiskStage::FormatPartitions
        } else {
            DiskStage::Failed
        },
        DiskStage::FormatPartitions => if ok {
            DiskStage::Mount
        } else {
            DiskStage::Failed
        },
        DiskStage::Mount => if ok {
            DiskStage::Done
        } else {
            DiskStage::Failed
        },
        DiskStage::Done => DiskStage::Done,
        DiskStage::Cancelled => DiskStage::Cancelled,
        DiskStage::Failed => DiskStage::Failed,
    }
}

/// Whether the stage ends the run.
pub fn stage_is_final(stage: DiskStage) -> (b: bool)
    ensures
        b == is_final(stage),
{
    match stage {
        DiskStage::Done | DiskStage::Cancelled | DiskStage::Failed => true,
        _ => false,
    }
}

/// The stage reached from `stage` after the given outcomes, one per stage.
pub open spec fn run_stages(stage: DiskStage, outcomes: Seq<bool>) -> DiskStage
    decreases outcomes.len(),
{
    if outcomes.len() == 0 {
        stage
    } else {
        run_stages(stage_after(stage, outcomes[0]), outcomes.drop_first())
    }
}

proof fn lemma_final_stays(stage: DiskStage, outcomes: Seq<bool>)
    requires
        is_final(stage),
    ensures
        run_stages(stage, outcomes) == stage,
    decreases outcomes.len(),
{
    if outcomes.len() > 0 {
        lemma_final_stays(stage_after(stage, outcomes[0]), outcomes.drop_first());
    }
}

/// Nothing touches the disk unless the first two answers were both yes.
pub proof fn law_no_wipe_without_double_confirmation(outcomes: Seq<bool>)
    requires
        touches_disk(run_stages(DiskStage::ConfirmWipe, outcomes)),
    ensures
        outcomes.len() >= 2,
        outcomes[0] && outcomes[1],
{
    reveal_with_fuel(run_stages, 3);
    if outcomes.len() == 0 {
    } else if !outcomes[0] {
        lemma_final_stays(DiskStage::Cancelled, outcomes.drop_first());
    } else {
        let rest = outcomes.drop_first();
        if rest.len() == 0 {
        } else {
            assert(outcomes[1] == rest[0]);
            if !rest[0] {
                lemma_final_stays(DiskStage::Cancelled, rest.drop_first());
            }
        }
    }
}

/// How many stages remain before `Done`, for the stages on the way to it.
pub open spec fn stages_left(stage: DiskStage) -> nat {
    match stage {
        DiskStage::ConfirmWipe => 8,
        DiskStage::ConfirmAgain => 7,
        DiskStage::Unmount => 6,
        DiskStage::Wipe => 5,
        DiskStage::ChooseSizes => 4,
        DiskStage::Partition => 3,
        DiskStage::FormatPartitions => 2,
        DiskStage::Mount => 1,
        _ => 0,
    }
}

proof fn lemma_done_needs_all(stage: DiskStage, outcomes: Seq<bool>)
    requires
        !is_final(stage),
        run_stages(stage, outcomes) == DiskStage::Done,
    ensures
        outcomes.len() >= stages_left(stage),
        forall|i: int| 0 <= i < stages_left(stage) ==> #[trigger] outcomes[i],
    decreases outcomes.len(),
{
    if outcomes.len() > 0 {
        let next = stage_after(stage, outcomes[0]);
        let rest = outcomes.drop_first();
        if !outcomes[0] {
            lemma_final_stays(next, rest);
        } else if next == DiskStage::Done {
        } else {
            lemma_done_needs_all(next, rest);
            assert forall|i: int| 0 <= i < stages_left(stage) implies #[trigger] outcomes[i] by {
                if i > 0 {
                    assert(outcomes[i] == rest[i - 1]);
                }
            }
        }
    }
}

/// A run ends in `Done` only when both answers were yes and every step succeeded,
/// each in its turn.
pub proof fn law_done_only_after_every_stage(outcomes: Seq<bool>)
    requires
        run_stages(DiskStage::ConfirmWipe, outcomes) == DiskStage::Done,
    ensures
        outcomes.len() >= 8,
        forall|i: int| 0 <= i < 8 ==> #[trigger] outcomes[i],
{
    lemma_done_needs_all(DiskStage::ConfirmWipe, outcomes);
}

} // verus!

verus! {

/// EFI, SWAP (when there is one) and ROOT get different partition numbers.
pub proof fn law_partition_numbers_distinct(swap_enabled: bool)
    ensures
        partition_number(1, swap_enabled) != partition_number(3, swap_enabled),
        swap_enabled ==> partition_number(1, swap_enabled) != partition_number(2, swap_enabled),
        swap_enabled ==> partition_number(2, swap_enabled) != partition_number(3, swap_enabled),
{
}

} // verus!

verus! {

pub(crate) proof fn lemma_decimal_len(n: nat)
    ensures
        decimal(n).len() >= 1,
        n >= 10 ==> decimal(n).len() >= 2,
    decreases n,
{
    if n >= 10 {
        lemma_decimal_len(n / 10);
    }
}

proof fn lemma_digit_char_injective(a: nat, b: nat)
    requires
        a < 10,
        b < 10,
        digit_char(a) == digit_char(b),
    ensures
        a == b,
{
}

proof fn lemma_decimal_injective(n: nat, m: nat)
    requires
        decimal(n) == decimal(m),
    ensures
        n == m,
    decreases n,
{
    lemma_decimal_len(n);
    lemma_decimal_len(m);
    if n < 10 && m < 10 {
        assert(decimal(n)[0] == digit_char(n));
        assert(decimal(m)[0] == digit_char(m));
        lemma_digit_char_injective(n, m);
    } else if n >= 10 && m >= 10 {
        assert(decimal(n).drop_last() == decimal(n / 10));
        assert(decimal(m).drop_last() == decimal(m / 10));
        assert(decimal(n).last() == digit_char(n % 10));
        assert(decimal(m).last() == digit_char(m % 10));
        lemma_digit_char_injective(n % 10, m % 10);
        lemma_decimal_injective(n / 10, m / 10);
    }
}

/// Different partition numbers give different device paths, so no step meant for one
/// partition reaches another.
pub proof fn law_partition_paths_distinct(device: Seq<char>, n: nat, m: nat)
    requires
        n != m,
    ensures
        partition_path(device, n) != partition_path(device, m),
{
    let pre = device + (if uses_p_separator(device) {
        "p"@
    } else {
        Seq::<char>::empty()
    });
    if partition_path(device, n) == partition_path(device, m) {
        assert((pre + decimal(n)).skip(pre.len() as int) =~= decimal(n));
        assert((pre + decimal(m)).skip(pre.len() as int) =~= decimal(m));
        lemma_decimal_injective(n, m);
    }
}

pub(crate) proof fn lemma_decimal_digits(n: nat)
    ensures
        all_digits(decimal(n)),
    decreases n,
{
    let d = n % 10;
    assert(is_digit(digit_char(d))) by {
        assert(d == 0 || d == 1 || d == 2 || d == 3 || d == 4 || d == 5 || d == 6 || d == 7
            || d == 8 || d == 9);
    }
    if n >= 10 {
        lemma_decimal_digits(n / 10);
    }
}

/// The unmount and swap steps reach every partition that `part_path` names: each partition
/// path of a disk belongs to that disk.
pub proof fn law_partition_paths_belong(device: Seq<char>, n: nat)
    ensures
        belongs_to(device, partition_path(device, n)),
{
    reveal_strlit("p");
    lemma_decimal_digits(n);
    lemma_decimal_len(n);
    let p = partition_path(device, n);
    let suffix = p.skip(device.len() as int);
    assert(device.is_prefix_of(p)) by {
        assert(p.subrange(0, device.len() as int) =~= device);
    }
    if uses_p_separator(device) {
        assert(suffix =~= "p"@ + decimal(n));
        assert(suffix.skip(1) =~= decimal(n));
    } else {
        assert(suffix =~= decimal(n));
    }
}

} // verus!

verus! {

/// The device path of a chosen disk line: the text before its first space.
pub open spec fn device_of_entry(choice: Seq<char>) -> Seq<char> {
    choice.take(crate::text::index_of(choice, ' ') as int)
}

/// The device path of the line picked in the disk menu (`/dev/sda` of
/// `/dev/sda - 238.5G (Samsung SSD)`).
pub fn device_of_choice(choice: &str) -> (r: String)
    ensures
        r@ == device_of_entry(choice@),
{
    let c = chars_of(choice);
    let j = crate::text::find_char(&c, 0, ' ');
    assert(c@.skip(0) =~= c@);
    assert(c@.subrange(0, j as int) =~= c@.take(j as int));
    string_of(&crate::text::slice_vec(&c, 0, j))
}

/// The disk menu hands back the device it offered: for a disk whose name holds no space,
/// the path taken from its line is `/dev/` and the name.
pub proof fn law_choice_names_device(d: DiskInfo)
    requires
        !d.name@.contains(' '),
    ensures
        device_of_entry(disk_entry(d)) == "/dev/"@ + d.name@,
{
    reveal_strlit("/dev/");
    reveal_strlit(" - ");
    let e = disk_entry(d);
    let p = "/dev/"@ + d.name@;
    assert(e.subrange(0, p.len() as int) =~= p);
    assert forall|k: int| 0 <= k < p.len() implies #[trigger] e[k] != ' ' by {
        assert(e[k] == p[k]);
        if k >= 5 {
            assert(p[k] == d.name@[k - 5]);
        }
    }
    assert(e[p.len() as int] == ' ');
    crate::text::lemma_index_of(e, ' ', p.len() as int);
    assert(e.take(p.len() as int) =~= p);
}

} // verus!

verus! {

/// Any non-empty run of ASCII digits, of any length, is a size (a number of MiB), and it
/// is handed to the partitioner with `MiB` after it.
pub proof fn law_bare_number_is_size(t: Seq<char>)
    requires
        t.len() > 0,
        forall|i: int| 0 <= i < t.len() ==> '0' <= #[trigger] t[i] && t[i] <= '9',
    ensures
        valid_size(t),
        formatted_size(t) == t + "MiB"@,
{
    assert(!is_ws(t[0]) && !is_ws(t.last()));
    lemma_trim_of_trimmed(t);
    assert(all_digits(t));
}

/// A non-empty run of ASCII digits followed by one of the units `MiB`, `GiB`, `TiB`,
/// `KiB`, `MB`, `GB`, `TB` is a size, handed to the partitioner as it is.
pub proof fn law_number_with_unit_is_size(n: Seq<char>, u: Seq<char>)
    requires
        n.len() > 0,
        forall|i: int| 0 <= i < n.len() ==> '0' <= #[trigger] n[i] && n[i] <= '9',
        u == "MiB"@ || u == "GiB"@ || u == "TiB"@ || u == "KiB"@ || u == "MB"@ || u == "GB"@
            || u == "TB"@,
    ensures
        valid_size(n + u),
        formatted_size(n + u) == n + u,
{
    reveal_strlit("MiB");
    reveal_strlit("GiB");
    reveal_strlit("TiB");
    reveal_strlit("KiB");
    reveal_strlit("MB");
    reveal_strlit("GB");
    reveal_strlit("TB");
    let t = n + u;
    assert(t[0] == n[0]);
    assert(t.last() == 'B');
    assert(!is_ws(t[0]) && !is_ws(t.last()));
    lemma_trim_of_trimmed(t);
    assert(u.is_suffix_of(t)) by {
        assert(t.subrange(n.len() as int, t.len() as int) =~= u);
    }
    assert(t.take(t.len() - u.len()) =~= n);
    assert(all_digits(n));
    let k: int = if u == "MiB"@ {
        0
    } else if u == "GiB"@ {
        1
    } else if u == "TiB"@ {
        2
    } else if u == "KiB"@ {
        3
    } else if u == "MB"@ {
        4
    } else if u == "GB"@ {
        5
    } else {
        6
    };
    assert(size_units()[k] == u);
    assert(number_with_unit(t, size_units()[k]));
    assert(!all_digits(t)) by {
        assert(!is_digit(t.last()));
    }
}

/// The disk prompt offers a line for a device exactly when its type is `disk`: a device
/// of any other type (`loop`, `rom`, `part`) adds nothing, and a disk adds the line
/// `/dev/NAME - SIZE (MODEL)`, after the lines of the devices before it.
pub proof fn law_only_whole_disks_offered(ds: Seq<DiskInfo>, d: DiskInfo)
    ensures
        d.device_type@ != "disk"@ ==> disk_list(ds.push(d)) == disk_list(ds),
        d.device_type@ == "disk"@ ==> disk_list(ds.push(d)) == disk_list(ds).push(
            "/dev/"@ + d.name@ + " - "@ + d.size@ + " ("@ + (match d.model {
                Some(m) => m@,
                None => "Bilinmeyen Model"@,
            }) + ")"@,
        ),
{
    assert(ds.push(d).drop_last() =~= ds);
    assert(ds.push(d).last() == d);
}

/// Every line of `/proc/mounts` whose partition belongs to the disk gives its own
/// (partition, mount point) pair, after those of the lines before it, even when the same
/// partition is mounted again (btrfs subvolumes); no other line gives one.
pub proof fn law_every_mount_kept(ls: Seq<Seq<char>>, l: Seq<char>, device: Seq<char>)
    ensures
        words(l).len() >= 2 && belongs_to(device, words(l)[0]) ==> mount_list(ls.push(l), device)
            == mount_list(ls, device).push((words(l)[0], words(l)[1])),
        !(words(l).len() >= 2 && belongs_to(device, words(l)[0])) ==> mount_list(ls.push(l), device)
            == mount_list(ls, device),
{
    assert(ls.push(l).drop_last() =~= ls);
    assert(ls.push(l).last() == l);
}

/// Likewise every line of `/proc/swaps` after the header whose partition belongs to the
/// disk gives that partition, after those of the lines before it.
pub proof fn law_every_swap_kept(ls: Seq<Seq<char>>, l: Seq<char>, device: Seq<char>)
    ensures
        words(l).len() >= 1 && belongs_to(device, words(l)[0]) ==> swap_list(ls.push(l), device)
            == swap_list(ls, device).push(words(l)[0]),
        !(words(l).len() >= 1 && belongs_to(device, words(l)[0])) ==> swap_list(ls.push(l), device)
            == swap_list(ls, device),
{
    assert(ls.push(l).drop_last() =~= ls);
    assert(ls.push(l).last() == l);
}

} // verus!

verus! {

/// A path that continues the disk's name with anything but a digit or a `p` (`/dev/sdaa1`,
/// `/dev/sda-x` for `/dev/sda`) names another device, and so does any path that does not
/// start with the disk's name.
pub proof fn law_other_devices_excluded(device: Seq<char>, path: Seq<char>)
    requires
        !device.is_prefix_of(path) || (path.len() > device.len() && !(
        '0' <= path[device.len() as int] && path[device.len() as int] <= '9') && path[device.len() as int]
            != 'p'),
    ensures
        !belongs_to(device, path),
{
    if device.is_prefix_of(path) {
        let suffix = path.skip(device.len() as int);
        assert(suffix[0] == path[device.len() as int]);
        assert(!is_digit(suffix[0]));
    }
}

} // verus!
