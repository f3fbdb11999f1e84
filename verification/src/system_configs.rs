use vstd::prelude::*;
use crate::text::{
    append_chars, chars_eq, chars_of, contains, lemma_strs_push, plain_line, lines, lines_of, string_of, strs,
    trim, trim_bounds, trimmed, views, words, words_of,
};
use crate::order::{sorted_lex, sorted_strings, sorted_unique, strictly_sorted_lex};

verus! {

// ── Locales and time zones offered ──────────────────────────────────────────

/// The locale a line of `/usr/share/i18n/SUPPORTED` offers: its first word, unless the
/// line is blank or a comment.
pub open spec fn locale_of(l: Seq<char>) -> Option<Seq<char>> {
    if trim(l).len() > 0 && !(l.len() > 0 && l[0] == '#') {
        Some(
            if words(l).len() > 0 {
                words(l)[0]
            } else {
                l
            },
        )
    } else {
        None
    }
}

pub open spec fn locale_names(ls: Seq<Seq<char>>) -> Seq<Seq<char>>
    decreases ls.len(),
{
    if ls.len() == 0 {
        seq![]
    } else {
        let rest = locale_names(ls.drop_last());
        match locale_of(ls.last()) {
            Some(n) => rest.push(n),
            None => rest,
        }
    }
}

/// The locales offered by the text of `/usr/share/i18n/SUPPORTED`: in order, each once.
pub fn locales_from_supported(content: &str) -> (r: Vec<String>)
    ensures
        strictly_sorted_lex(strs(r@)),
        forall|x: Seq<char>| strs(r@).contains(x) <==> locale_names(lines(content@)).contains(x),
{
    let text = chars_of(content);
    let ls = lines_of(&text);
    let mut names: Vec<String> = Vec::new();
    for i in 0..ls.len()
        invariant
            views(ls@) == lines(content@),
            strs(names@) == locale_names(views(ls@).take(i as int)),
    {
        let l = &ls[i];
        proof {
            assert(views(ls@).take(i + 1).drop_last() =~= views(ls@).take(i as int));
            assert(views(ls@).take(i + 1).last() == l@);
        }
        let (a, b) = trim_bounds(l);
        let comment = l.len() > 0 && l[0] == '#';
        if a < b && !comment {
            let w = words_of(l);
            let n = if w.len() > 0 {
                string_of(&w[0])
            } else {
                string_of(l)
            };
            proof {
                lemma_strs_push(names@, n);
            }
            names.push(n);
        }
    }
    assert(views(ls@).take(ls.len() as int) =~= views(ls@));
    sorted_unique(&names)
}

/// The non-blank lines of a time zone listing, trimmed.
pub open spec fn zone_lines(ls: Seq<Seq<char>>) -> Seq<Seq<char>>
    decreases ls.len(),
{
    if ls.len() == 0 {
        seq![]
    } else {
        let rest = zone_lines(ls.drop_last());
        if trim(ls.last()).len() > 0 {
            rest.push(trim(ls.last()))
        } else {
            rest
        }
    }
}

/// The time zones listed by `timedatectl list-timezones`: `None` when the command
/// failed or listed nothing, so that the zoneinfo directory is scanned instead.
pub fn listed_timezones(success: bool, output: &str) -> (r: Option<Vec<String>>)
    ensures
        match r {
            Some(v) => success && strs(v@) == zone_lines(lines(output@)) && v.len() > 0,
            None => !success || zone_lines(lines(output@)).len() == 0,
        },
{
    if !success {
        return None;
    }
    let text = chars_of(output);
    let ls = lines_of(&text);
    let mut zones: Vec<String> = Vec::new();
    for i in 0..ls.len()
        invariant
            views(ls@) == lines(output@),
            strs(zones@) == zone_lines(views(ls@).take(i as int)),
    {
        let l = &ls[i];
        proof {
            assert(views(ls@).take(i + 1).drop_last() =~= views(ls@).take(i as int));
            assert(views(ls@).take(i + 1).last() == l@);
        }
        let (a, b) = trim_bounds(l);
        if a < b {
            let z = string_of(&crate::text::slice_vec(l, a, b));
            proof {
                lemma_strs_push(zones@, z);
            }
            zones.push(z);
        }
    }
    assert(views(ls@).take(ls.len() as int) =~= views(ls@));
    if zones.len() == 0 {
        None
    } else {
        Some(zones)
    }
}

/// The time zones found in the zoneinfo directory, in order.
pub fn sort_timezones(zones: &Vec<String>) -> (r: Vec<String>)
    ensures
        sorted_lex(strs(r@)),
        strs(r@).to_multiset() == strs(zones@).to_multiset(),
{
    sorted_strings(zones)
}

/// Names in the zoneinfo directory that are not time zones.
pub open spec fn zoneinfo_skipped() -> Seq<Seq<char>> {
    seq![
        "posix"@,
        "right"@,
        "leap-seconds.list"@,
        "+VERSION"@,
        "SECURITY"@,
        "localtime"@,
        "zone.tab"@,
        "zone1970.tab"@,
        "iso3166.tab"@,
    ]
}

/// What a directory entry is, as far as scanning for time zones cares.
#[derive(Debug, Clone, Copy, PartialEq, Eq, Structural)]
pub enum EntryKind {
    Directory,
    File,
    /// Its type could not be read.
    Unknown,
}

/// What to do with an entry met while scanning the zoneinfo directory.
pub enum ZoneEntry {
    /// Pass over it.
    Skip,
    /// Scan this subdirectory (a path relative to the zoneinfo directory).
    Descend(String),
    /// A time zone.
    Zone(String),
}

/// The path of an entry relative to the zoneinfo directory.
pub open spec fn relative_zone_path(prefix: Seq<char>, name: Seq<char>) -> Seq<char> {
    if prefix.len() == 0 {
        name
    } else {
        prefix + "/"@ + name
    }
}

/// Whether the scan passes over an entry of this name: names from `zoneinfo_skipped()`
/// and names that start with a lowercase ASCII letter.
pub open spec fn zone_name_skipped(name: Seq<char>) -> bool {
    zoneinfo_skipped().contains(name) || (name.len() > 0 && 'a' <= name[0] && name[0] <= 'z')
}

/// What the scan of the zoneinfo directory does with an entry: skipped names and entries
/// of unknown type are passed over; directories are scanned; files count as time zones
/// when they lie below some directory (`Europe/Istanbul`, not `UTC`).
pub fn zone_entry(prefix: &str, name: &str, kind: EntryKind) -> (r: ZoneEntry)
    ensures
        ({
            let rel = relative_zone_path(prefix@, name@);
            match r {
                ZoneEntry::Skip => zone_name_skipped(name@) || kind == EntryKind::Unknown || (
                kind == EntryKind::File && !rel.contains('/')),
                ZoneEntry::Descend(p) => !zone_name_skipped(name@) && kind == EntryKind::Directory
                    && p@ == rel,
                ZoneEntry::Zone(p) => !zone_name_skipped(name@) && kind == EntryKind::File
                    && rel.contains('/') && p@ == rel,
            }
        }),
{
    let n = chars_of(name);
    let skipped = vec![
        chars_of("posix"),
        chars_of("right"),
        chars_of("leap-seconds.list"),
        chars_of("+VERSION"),
        chars_of("SECURITY"),
        chars_of("localtime"),
        chars_of("zone.tab"),
        chars_of("zone1970.tab"),
        chars_of("iso3166.tab"),
    ];
    assert(views(skipped@) =~= zoneinfo_skipped());
    let mut k: usize = 0;
    while k < skipped.len()
        invariant
            skipped.len() == 9,
            k <= 9,
            views(skipped@) == zoneinfo_skipped(),
            n@ == name@,
            forall|j: int| 0 <= j < k ==> #[trigger] zoneinfo_skipped()[j] != name@,
        decreases 9 - k,
    {
        if chars_eq(&skipped[k], &n) {
            assert(zoneinfo_skipped()[k as int] == name@);
            return ZoneEntry::Skip;
        }
        k = k + 1;
    }
    assert(!zoneinfo_skipped().contains(name@));
    if n.len() > 0 && 'a' <= n[0] && n[0] <= 'z' {
        return ZoneEntry::Skip;
    }
    let pc = chars_of(prefix);
    let mut rel = String::new();
    if pc.len() > 0 {
        rel.append(prefix);
        rel.append("/");
    }
    rel.append(name);
    assert(rel@ =~= relative_zone_path(prefix@, name@));
    match kind {
        EntryKind::Directory => ZoneEntry::Descend(rel),
        EntryKind::File => {
            let rc = chars_of(rel.as_str());
            if crate::text::find_char(&rc, 0, '/') < rc.len() {
                proof {
                    assert(rc@.skip(0) =~= rc@);
                    crate::text::lemma_index_of_bound(rc@, '/');
                }
                ZoneEntry::Zone(rel)
            } else {
                proof {
                    assert(rc@.skip(0) =~= rc@);
                    crate::text::lemma_index_of_bound(rc@, '/');
                }
                ZoneEntry::Skip
            }
        },
        EntryKind::Unknown => ZoneEntry::Skip,
    }
}

/// The directory the scan reads for `prefix`: the zoneinfo directory itself, or the
/// subdirectory `prefix` of it.
pub fn zone_dir(base: &str, prefix: &str) -> (r: String)
    ensures
        prefix@.len() == 0 ==> r@ == base@,
        prefix@.len() > 0 ==> r@ == base@ + "/"@ + prefix@,
{
    let p = chars_of(prefix);
    let mut r = String::new();
    r.append(base);
    if p.len() > 0 {
        r.append("/");
        r.append(prefix);
    }
    assert(p.len() == 0 ==> r@ =~= base@);
    r
}

} // verus!

verus! {

// ── Defaults offered by the prompts ─────────────────────────────────────────

/// Index of the first occurrence of `t` in `cs`, or `cs.len()` when it does not occur.
pub open spec fn first_index(cs: Seq<Seq<char>>, t: Seq<char>) -> nat
    decreases cs.len(),
{
    if cs.len() == 0 {
        0
    } else if cs[0] == t {
        0
    } else {
        1 + first_index(cs.drop_first(), t)
    }
}

proof fn lemma_first_index(cs: Seq<Seq<char>>, t: Seq<char>, i: int)
    requires
        0 <= i <= cs.len(),
        forall|k: int| 0 <= k < i ==> #[trigger] cs[k] != t,
        i == cs.len() || cs[i] == t,
    ensures
        first_index(cs, t) == i,
    decreases i,
{
    if i > 0 {
        lemma_first_index(cs.drop_first(), t, i - 1);
    }
}

/// For each target in turn, the index of its first occurrence among the candidates;
/// targets that do not occur are left out.
pub open spec fn default_positions(cs: Seq<Seq<char>>, ts: Seq<Seq<char>>) -> Seq<int>
    decreases ts.len(),
{
    if ts.len() == 0 {
        seq![]
    } else {
        let rest = default_positions(cs, ts.drop_last());
        let i = first_index(cs, ts.last());
        if i < cs.len() {
            rest.push(i as int)
        } else {
            rest
        }
    }
}

/// The indices as integers.
pub open spec fn ints(v: Seq<usize>) -> Seq<int> {
    v.map_values(|u: usize| u as int)
}

/// Where `t` first occurs among the candidates, or `cs.len()`.
pub fn position_of(cs: &Vec<Vec<char>>, t: &Vec<char>) -> (r: usize)
    ensures
        r == first_index(views(cs@), t@),
{
    let mut i: usize = 0;
    while i < cs.len() && !chars_eq(&cs[i], t)
        invariant
            i <= cs.len(),
            forall|k: int| 0 <= k < i ==> #[trigger] views(cs@)[k] != t@,
        decreases cs.len() - i,
    {
        i = i + 1;
    }
    proof {
        lemma_first_index(views(cs@), t@, i as int);
    }
    i
}

/// The indices preselected in a menu of `candidates`: for each target in turn, where it
/// first occurs; targets that are not offered are left out.
pub fn default_indices(candidates: &Vec<String>, targets: &Vec<String>) -> (r: Vec<usize>)
    ensures
        ints(r@) == default_positions(strs(candidates@), strs(targets@)),
{
    let cs = crate::text::chars_of_all(candidates);
    let mut r: Vec<usize> = Vec::new();
    for j in 0..targets.len()
        invariant
            views(cs@) == strs(candidates@),
            ints(r@) == default_positions(strs(candidates@), strs(targets@).take(j as int)),
    {
        let t = chars_of(targets[j].as_str());
        let i = position_of(&cs, &t);
        proof {
            let tk = strs(targets@).take(j + 1);
            assert(tk.drop_last() =~= strs(targets@).take(j as int));
            assert(tk.last() == t@);
        }
        if i < cs.len() {
            let ghost before = r@;
            r.push(i);
            assert(ints(r@) =~= ints(before).push(i as int));
        }
    }
    assert(strs(targets@).take(targets.len() as int) =~= strs(targets@));
    r
}

/// The locales preselected in the locale menu: `tr_TR.UTF-8` and `en_US.UTF-8`, where
/// offered.
pub fn default_locale_indices(all_locales: &Vec<String>) -> (r: Vec<usize>)
    ensures
        ints(r@) == default_positions(strs(all_locales@), seq!["tr_TR.UTF-8"@, "en_US.UTF-8"@]),
{
    let mut targets: Vec<String> = Vec::new();
    targets.push(string_of(&chars_of("tr_TR.UTF-8")));
    targets.push(string_of(&chars_of("en_US.UTF-8")));
    assert(strs(targets@) =~= seq!["tr_TR.UTF-8"@, "en_US.UTF-8"@]);
    default_indices(all_locales, &targets)
}

/// Where the time zone menu starts: at `Europe/Istanbul` when it is offered, else at the
/// top.
pub fn default_timezone_index(all_timezones: &Vec<String>) -> (r: usize)
    ensures
        ({
            let i = first_index(strs(all_timezones@), "Europe/Istanbul"@);
            r == if i < all_timezones.len() {
                i
            } else {
                0
            }
        }),
{
    let cs = crate::text::chars_of_all(all_timezones);
    let i = position_of(&cs, &chars_of("Europe/Istanbul"));
    if i < cs.len() {
        i
    } else {
        0
    }
}

/// The groups a new user may join.
pub open spec fn group_names() -> Seq<Seq<char>> {
    seq![
        "wheel"@,
        "audio"@,
        "video"@,
        "storage"@,
        "optical"@,
        "network"@,
        "power"@,
        "lp"@,
        "scanner"@,
    ]
}

/// The groups a new user may join, in the order the menu shows them.
pub fn available_groups() -> (r: Vec<String>)
    ensures
        strs(r@) == group_names(),
{
    let mut r: Vec<String> = Vec::new();
    r.push(string_of(&chars_of("wheel")));
    r.push(string_of(&chars_of("audio")));
    r.push(string_of(&chars_of("video")));
    r.push(string_of(&chars_of("storage")));
    r.push(string_of(&chars_of("optical")));
    r.push(string_of(&chars_of("network")));
    r.push(string_of(&chars_of("power")));
    r.push(string_of(&chars_of("lp")));
    r.push(string_of(&chars_of("scanner")));
    assert(strs(r@) =~= group_names());
    r
}

/// The groups preselected in the group menu: `wheel`, `audio`, `video` and `storage`,
/// where offered.
pub fn default_group_indices(groups: &Vec<String>) -> (r: Vec<usize>)
    ensures
        ints(r@) == default_positions(
            strs(groups@),
            seq!["wheel"@, "audio"@, "video"@, "storage"@],
        ),
{
    let mut targets: Vec<String> = Vec::new();
    targets.push(string_of(&chars_of("wheel")));
    targets.push(string_of(&chars_of("audio")));
    targets.push(string_of(&chars_of("video")));
    targets.push(string_of(&chars_of("storage")));
    assert(strs(targets@) =~= seq!["wheel"@, "audio"@, "video"@, "storage"@]);
    default_indices(groups, &targets)
}

} // verus!

verus! {

// ── Checks on what is typed ─────────────────────────────────────────────────

/// Why a hostname was refused.
#[derive(Debug, Clone, Copy, PartialEq, Eq, Structural)]
pub enum HostnameError {
    /// Nothing but whitespace.
    Empty,
    /// A character other than an ASCII letter, a digit or `-`.
    BadChar,
    /// Starts or ends with `-`.
    EdgeDash,
    /// Longer than 63 bytes.
    TooLong,
}

pub open spec fn hostname_char(c: char) -> bool {
    ('a' <= c && c <= 'z') || ('A' <= c && c <= 'Z') || ('0' <= c && c <= '9') || c == '-'
}

/// The hostname accepted for what was typed, or why it is refused; the checks run in
/// this order.
pub open spec fn hostname_check(s: Seq<char>) -> Result<Seq<char>, HostnameError> {
    let t = trim(s);
    if t.len() == 0 {
        Err(HostnameError::Empty)
    } else if !(forall|i: int| 0 <= i < t.len() ==> hostname_char(#[trigger] t[i])) {
        Err(HostnameError::BadChar)
    } else if t[0] == '-' || t.last() == '-' {
        Err(HostnameError::EdgeDash)
    } else if crate::text::byte_len(t) > 63 {
        Err(HostnameError::TooLong)
    } else {
        Ok(t)
    }
}

/// The hostname for what was typed at the hostname prompt: trimmed, made of ASCII
/// letters, digits and inner dashes, at most 63 bytes.
pub fn validate_hostname(input: &str) -> (r: Result<String, HostnameError>)
    ensures
        match r {
            Ok(h) => hostname_check(input@) == Ok::<Seq<char>, HostnameError>(h@),
            Err(e) => hostname_check(input@) == Err::<Seq<char>, HostnameError>(e),
        },
{
    let t = trimmed(input);
    if t.len() == 0 {
        return Err(HostnameError::Empty);
    }
    let mut i: usize = 0;
    while i < t.len()
        invariant
            i <= t.len(),
            t@ == trim(input@),
            t.len() > 0,
            forall|k: int| 0 <= k < i ==> hostname_char(#[trigger] t@[k]),
        decreases t.len() - i,
    {
        let c = t[i];
        if !(('a' <= c && c <= 'z') || ('A' <= c && c <= 'Z') || ('0' <= c && c <= '9') || c
            == '-') {
            assert(!hostname_char(t@[i as int]));
            return Err(HostnameError::BadChar);
        }
        i = i + 1;
    }
    if t[0] == '-' || t[t.len() - 1] == '-' {
        return Err(HostnameError::EdgeDash);
    }
    let h = string_of(&t);
    if h.as_str().len() > 63 {
        return Err(HostnameError::TooLong);
    }
    Ok(h)
}

/// Why a user name was refused.
#[derive(Debug, Clone, Copy, PartialEq, Eq, Structural)]
pub enum UsernameError {
    /// Nothing but whitespace.
    Empty,
    /// Does not start with a lowercase ASCII letter or `_`.
    BadStart,
    /// A character other than a lowercase ASCII letter, a digit, `-`, `_` or `.`.
    BadChar,
    /// Longer than 32 bytes.
    TooLong,
}

pub open spec fn username_char(c: char) -> bool {
    ('a' <= c && c <= 'z') || ('0' <= c && c <= '9') || c == '-' || c == '_' || c == '.'
}

/// The user name accepted for what was typed, or why it is refused; the checks run in
/// this order.
pub open spec fn username_check(s: Seq<char>) -> Result<Seq<char>, UsernameError> {
    let t = trim(s);
    if t.len() == 0 {
        Err(UsernameError::Empty)
    } else if !(('a' <= t[0] && t[0] <= 'z') || t[0] == '_') {
        Err(UsernameError::BadStart)
    } else if !(forall|i: int| 0 <= i < t.len() ==> username_char(#[trigger] t[i])) {
        Err(UsernameError::BadChar)
    } else if crate::text::byte_len(t) > 32 {
        Err(UsernameError::TooLong)
    } else {
        Ok(t)
    }
}

/// The user name for what was typed at the user prompt, following the rules for Linux
/// user names: trimmed, starting with a lowercase letter or `_`, made of lowercase
/// letters, digits, `-`, `_` and `.`, at most 32 bytes.
pub fn validate_username(input: &str) -> (r: Result<String, UsernameError>)
    ensures
        match r {
            Ok(u) => username_check(input@) == Ok::<Seq<char>, UsernameError>(u@),
            Err(e) => username_check(input@) == Err::<Seq<char>, UsernameError>(e),
        },
{
    let t = trimmed(input);
    if t.len() == 0 {
        return Err(UsernameError::Empty);
    }
    if !(('a' <= t[0] && t[0] <= 'z') || t[0] == '_') {
        return Err(UsernameError::BadStart);
    }
    let mut i: usize = 0;
    while i < t.len()
        invariant
            i <= t.len(),
            t@ == trim(input@),
            t.len() > 0,
            ('a' <= t@[0] && t@[0] <= 'z') || t@[0] == '_',
            forall|k: int| 0 <= k < i ==> username_char(#[trigger] t@[k]),
        decreases t.len() - i,
    {
        let c = t[i];
        if !(('a' <= c && c <= 'z') || ('0' <= c && c <= '9') || c == '-' || c == '_' || c
            == '.') {
            assert(!username_char(t@[i as int]));
            return Err(UsernameError::BadChar);
        }
        i = i + 1;
    }
    let u = string_of(&t);
    if u.as_str().len() > 32 {
        return Err(UsernameError::TooLong);
    }
    Ok(u)
}

/// Whether a password is long enough: at least 4 bytes.
pub fn password_long_enough(password: &str) -> (b: bool)
    ensures
        b == (crate::text::byte_len(password@) >= 4),
{
    password.len() >= 4
}

/// Whether the password was typed the same way twice.
pub fn passwords_match(first: &str, second: &str) -> (b: bool)
    ensures
        b == (first@ == second@),
{
    chars_eq(&chars_of(first), &chars_of(second))
}

} // verus!

verus! {

// ── Configuration of the installed system ───────────────────────────────────

/// What the system prompts gathered.
pub struct SystemConfig {
    pub hostname: String,
    pub locales: Vec<String>,
    pub timezone: String,
    pub root_password: String,
}

/// What the user prompts gathered.
pub struct UserConfig {
    pub username: String,
    pub password: String,
    pub groups: Vec<String>,
}

/// The zoneinfo file of a time zone.
pub open spec fn zoneinfo_file(timezone: Seq<char>) -> Seq<char> {
    "/usr/share/zoneinfo/"@ + timezone
}

/// The path of the zoneinfo file that `/etc/localtime` is linked to.
pub fn zoneinfo_path(timezone: &str) -> (r: String)
    ensures
        r@ == zoneinfo_file(timezone@),
{
    let mut r = String::new();
    r.append("/usr/share/zoneinfo/");
    r.append(timezone);
    r
}

/// A line of `locale.gen` with its comment marks and the whitespace after them removed,
/// when what remains starts with one of the chosen locales; otherwise the line as it is.
pub open spec fn locale_gen_line(line: Seq<char>, locales: Seq<Seq<char>>) -> Seq<char> {
    let stripped = crate::text::trim_start(crate::text::strip_leading(line, '#'));
    if exists|k: int| 0 <= k < locales.len() && (#[trigger] locales[k]).is_prefix_of(stripped) {
        stripped
    } else {
        line
    }
}

/// `locale.gen` with the chosen locales enabled.
pub open spec fn locale_gen_text(content: Seq<char>, locales: Seq<Seq<char>>) -> Seq<char> {
    crate::text::lines_text(lines(content).map_values(|l: Seq<char>| locale_gen_line(l, locales)))
}

/// `locale.gen` with the lines of the chosen locales uncommented; every other line is kept.
pub fn enable_locales(content: &str, locales: &[String]) -> (r: String)
    ensures
        r@ == locale_gen_text(content@, strs(locales@)),
{
    let text = chars_of(content);
    let ls = lines_of(&text);
    let locs = crate::text::chars_of_slice(locales);
    let ghost target = lines(content@).map_values(|l: Seq<char>| locale_gen_line(l, strs(locales@)));
    let mut out: Vec<Vec<char>> = Vec::new();
    for i in 0..ls.len()
        invariant
            views(ls@) == lines(content@),
            views(locs@) == strs(locales@),
            target == lines(content@).map_values(|l: Seq<char>| locale_gen_line(l, strs(locales@))),
            views(out@) == target.take(i as int),
    {
        let line = &ls[i];
        let stripped = crate::text::trim_start_chars(&crate::text::strip_leading_char(line, '#'));
        let mut k: usize = 0;
        let mut found = false;
        while k < locs.len() && !found
            invariant
                k <= locs.len(),
                found ==> exists|m: int| 0 <= m < locs.len() && (#[trigger] views(locs@)[m]).is_prefix_of(stripped@),
                !found ==> forall|m: int| 0 <= m < k ==> !(#[trigger] views(locs@)[m]).is_prefix_of(stripped@),
            decreases locs.len() - k + (if found { 0int } else { 1int }),
        {
            if crate::text::starts_with(&stripped, &locs[k]) {
                assert(views(locs@)[k as int] == locs@[k as int]@);
                found = true;
            } else {
                k = k + 1;
            }
        }
        let new_line = if found {
            stripped
        } else {
            crate::text::slice_vec(line, 0, line.len())
        };
        proof {
            assert(line@.subrange(0, line@.len() as int) =~= line@);
            assert(new_line@ == locale_gen_line(line@, strs(locales@)));
            crate::text::lemma_views_push(out@, new_line);
            assert(target.take(i + 1) =~= target.take(i as int).push(target[i as int]));
        }
        out.push(new_line);
    }
    assert(target.take(ls.len() as int) =~= target);
    crate::text::text_of_lines(&out)
}

/// `locale.conf`: the first chosen locale is the system language.
pub fn locale_conf(locales: &[String]) -> (r: String)
    requires
        locales.len() > 0,
    ensures
        r@ == "LANG="@ + locales@[0]@ + "\n"@,
{
    let mut r = String::new();
    r.append("LANG=");
    r.append(locales[0].as_str());
    r.append("\n");
    r
}

/// `/etc/hostname`.
pub fn hostname_file(hostname: &str) -> (r: String)
    ensures
        r@ == hostname@ + "\n"@,
{
    let mut r = String::new();
    r.append(hostname);
    r.append("\n");
    r
}

/// `/etc/hosts`: the loopback names, and the hostname on 127.0.1.1.
pub open spec fn hosts_text(hostname: Seq<char>) -> Seq<char> {
    "127.0.0.1\tlocalhost\n::1\t\tlocalhost\n127.0.1.1\t"@ + hostname + ".localdomain "@ + hostname
        + "\n"@
}

/// `/etc/hosts` for the hostname.
pub fn hosts_file(hostname: &str) -> (r: String)
    ensures
        r@ == hosts_text(hostname@),
{
    let mut r = String::new();
    r.append("127.0.0.1\tlocalhost\n::1\t\tlocalhost\n127.0.1.1\t");
    r.append(hostname);
    r.append(".localdomain ");
    r.append(hostname);
    r.append("\n");
    r
}

/// The line `chpasswd` reads to set a password: `user:password`.
pub fn chpasswd_line(user: &str, password: &str) -> (r: String)
    ensures
        r@ == user@ + ":"@ + password@ + "\n"@,
{
    let mut r = String::new();
    r.append(user);
    r.append(":");
    r.append(password);
    r.append("\n");
    r
}

/// The arguments of `useradd` for the new user: a home directory, bash as shell, and
/// the chosen groups joined with commas.
pub open spec fn useradd_arguments(cfg: UserConfig) -> Seq<Seq<char>> {
    seq![
        "useradd"@,
        "-m"@,
        "-s"@,
        "/bin/bash"@,
        "-G"@,
        crate::text::join_sep(strs(cfg.groups@), ","@),
        cfg.username@,
    ]
}

/// The arguments of `useradd` for the new user.
pub fn useradd_args(cfg: &UserConfig) -> (r: Vec<String>)
    ensures
        strs(r@) == useradd_arguments(*cfg),
{
    let groups = crate::text::chars_of_all(&cfg.groups);
    let joined = crate::text::join_with(&groups, &chars_of(","));
    let mut r: Vec<String> = Vec::new();
    r.push(string_of(&chars_of("useradd")));
    r.push(string_of(&chars_of("-m")));
    r.push(string_of(&chars_of("-s")));
    r.push(string_of(&chars_of("/bin/bash")));
    r.push(string_of(&chars_of("-G")));
    r.push(string_of(&joined));
    r.push(string_of(&chars_of(cfg.username.as_str())));
    assert(strs(r@) =~= useradd_arguments(*cfg));
    r
}

/// Whether the new user joins `wheel`, whose members get `sudo`.
pub fn joins_wheel(cfg: &UserConfig) -> (b: bool)
    ensures
        b == strs(cfg.groups@).contains("wheel"@),
{
    crate::text::contains_string(cfg.groups.as_slice(), "wheel")
}

} // verus!

verus! {

/// The sudoers rule that gives the members of `wheel` full `sudo` access.
pub open spec fn wheel_rule() -> Seq<char> {
    "%wheel ALL=(ALL:ALL) ALL"@
}

/// A line of sudoers: the wheel rule when the line is that rule commented out (`#` marks
/// and whitespace around them ignored); otherwise the line as it is.
pub open spec fn sudoers_line(line: Seq<char>) -> Seq<char> {
    let t = trim(line);
    if t.len() > 0 && t[0] == '#' && crate::text::trim_start(crate::text::strip_leading(t, '#'))
        == wheel_rule() {
        wheel_rule()
    } else {
        line
    }
}

/// Sudoers with the wheel rule enabled.
pub open spec fn sudoers_text(content: Seq<char>) -> Seq<char> {
    crate::text::lines_text(lines(content).map_values(|l: Seq<char>| sudoers_line(l)))
}

/// Sudoers with the commented-out wheel rule (`# %wheel ALL=(ALL:ALL) ALL` or
/// `#%wheel ALL=(ALL:ALL) ALL`) uncommented; every other line is kept.
pub fn enable_wheel_sudo(content: &str) -> (r: String)
    ensures
        r@ == sudoers_text(content@),
{
    let text = chars_of(content);
    let ls = lines_of(&text);
    let rule = chars_of("%wheel ALL=(ALL:ALL) ALL");
    let ghost target = lines(content@).map_values(|l: Seq<char>| sudoers_line(l));
    let mut out: Vec<Vec<char>> = Vec::new();
    for i in 0..ls.len()
        invariant
            views(ls@) == lines(content@),
            rule@ == wheel_rule(),
            target == lines(content@).map_values(|l: Seq<char>| sudoers_line(l)),
            views(out@) == target.take(i as int),
    {
        let line = &ls[i];
        let (a, b) = trim_bounds(line);
        let t = crate::text::slice_vec(line, a, b);
        let mut new_line = crate::text::slice_vec(line, 0, line.len());
        assert(line@.subrange(0, line@.len() as int) =~= line@);
        if t.len() > 0 && t[0] == '#' {
            let w = crate::text::trim_start_chars(&crate::text::strip_leading_char(&t, '#'));
            if chars_eq(&w, &rule) {
                new_line = crate::text::slice_vec(&rule, 0, rule.len());
                assert(rule@.subrange(0, rule@.len() as int) =~= rule@);
            }
        }
        proof {
            assert(new_line@ == sudoers_line(line@));
            crate::text::lemma_views_push(out@, new_line);
            assert(target.take(i + 1) =~= target.take(i as int).push(target[i as int]));
        }
        out.push(new_line);
    }
    assert(target.take(ls.len() as int) =~= target);
    crate::text::text_of_lines(&out)
}

/// The microcode images to load early: `amd-ucode` and `intel-ucode`, each when it is
/// among the packages, in that order.
pub open spec fn microcode(packages: Seq<Seq<char>>) -> Seq<Seq<char>> {
    (if packages.contains("amd-ucode"@) {
        seq!["amd-ucode"@]
    } else {
        Seq::<Seq<char>>::empty()
    }) + (if packages.contains("intel-ucode"@) {
        seq!["intel-ucode"@]
    } else {
        Seq::<Seq<char>>::empty()
    })
}

/// The microcode images among the optional packages that the initramfs should load.
pub fn microcode_modules(optional_packages: &[String]) -> (r: Vec<String>)
    ensures
        strs(r@) == microcode(strs(optional_packages@)),
{
    let mut r: Vec<String> = Vec::new();
    if crate::text::contains_string(optional_packages, "amd-ucode") {
        r.push(string_of(&chars_of("amd-ucode")));
    }
    if crate::text::contains_string(optional_packages, "intel-ucode") {
        r.push(string_of(&chars_of("intel-ucode")));
    }
    assert(strs(r@) =~= microcode(strs(optional_packages@)));
    r
}

} // verus!

verus! {

/// Whether a line of `mkinitcpio.conf` sets `MODULES` (leading whitespace allowed).
pub open spec fn is_modules_line(line: Seq<char>) -> bool {
    "MODULES="@.is_prefix_of(trim(line))
}

/// What a `MODULES=` line assigns, trimmed.
pub open spec fn modules_value(line: Seq<char>) -> Seq<char> {
    trim(crate::text::strip_prefix_repeated(line, "MODULES="@))
}

/// The one `MODULES=` line that cannot be rewritten: its value is a lone `"`.
pub open spec fn modules_line_unreadable(line: Seq<char>) -> bool {
    is_modules_line(line) && modules_value(line) == seq!['"']
}

/// The modules with each of `mods` added at the end, in order, unless already there.
pub open spec fn add_missing(ws: Seq<Seq<char>>, mods: Seq<Seq<char>>) -> Seq<Seq<char>>
    decreases mods.len(),
{
    if mods.len() == 0 {
        ws
    } else {
        let cur = add_missing(ws, mods.drop_last());
        if cur.contains(mods.last()) {
            cur
        } else {
            cur.push(mods.last())
        }
    }
}

/// `v` starts with `open` and ends with `close`.
pub open spec fn wrapped_in(v: Seq<char>, open: char, close: char) -> bool {
    v.len() > 0 && v[0] == open && v.last() == close
}

/// A line of `mkinitcpio.conf` with `mods` added to its `MODULES` list, written back in
/// the form it had: `(...)`, `"..."` or bare words.
pub open spec fn modules_line(line: Seq<char>, mods: Seq<Seq<char>>) -> Seq<char> {
    if is_modules_line(line) {
        let v = modules_value(line);
        if wrapped_in(v, '(', ')') {
            "MODULES=("@ + crate::text::join_sep(
                add_missing(words(v.subrange(1, v.len() - 1)), mods),
                " "@,
            ) + ")"@
        } else if wrapped_in(v, '"', '"') {
            "MODULES=\""@ + crate::text::join_sep(
                add_missing(words(v.subrange(1, v.len() - 1)), mods),
                " "@,
            ) + "\""@
        } else {
            "MODULES="@ + crate::text::join_sep(add_missing(words(v), mods), " "@)
        }
    } else {
        line
    }
}

/// `mkinitcpio.conf` with `mods` added to its `MODULES` lists.
pub open spec fn mkinitcpio_text(content: Seq<char>, mods: Seq<Seq<char>>) -> Seq<char> {
    crate::text::lines_text(lines(content).map_values(|l: Seq<char>| modules_line(l, mods)))
}

/// Whether `t` is among the strings.
pub fn vec_contains(cs: &Vec<Vec<char>>, t: &Vec<char>) -> (b: bool)
    ensures
        b == views(cs@).contains(t@),
{
    let mut i: usize = 0;
    while i < cs.len()
        invariant
            i <= cs.len(),
            forall|k: int| 0 <= k < i ==> #[trigger] views(cs@)[k] != t@,
        decreases cs.len() - i,
    {
        if chars_eq(&cs[i], t) {
            assert(views(cs@)[i as int] == t@);
            return true;
        }
        i = i + 1;
    }
    false
}

fn add_missing_exec(ws: Vec<Vec<char>>, mods: &Vec<Vec<char>>) -> (r: Vec<Vec<char>>)
    ensures
        views(r@) == add_missing(views(ws@), views(mods@)),
{
    let mut cur = ws;
    let ghost w0 = views(cur@);
    assert(views(mods@).take(0) =~= Seq::<Seq<char>>::empty());
    for i in 0..mods.len()
        invariant
            views(cur@) == add_missing(w0, views(mods@).take(i as int)),
    {
        proof {
            let t = views(mods@).take(i + 1);
            assert(t.drop_last() =~= views(mods@).take(i as int));
            assert(t.last() == mods@[i as int]@);
        }
        if !vec_contains(&cur, &mods[i]) {
            let m = crate::text::slice_vec(&mods[i], 0, mods[i].len());
            assert(mods@[i as int]@.subrange(0, mods@[i as int]@.len() as int) =~= mods@[i as int]@);
            proof {
                crate::text::lemma_views_push(cur@, m);
            }
            cur.push(m);
        }
    }
    assert(views(mods@).take(mods.len() as int) =~= views(mods@));
    cur
}

fn modules_line_exec(line: &Vec<char>, mods: &Vec<Vec<char>>) -> (r: Vec<char>)
    requires
        !modules_line_unreadable(line@),
    ensures
        r@ == modules_line(line@, views(mods@)),
{
    let key = chars_of("MODULES=");
    let (a, b) = trim_bounds(line);
    let t = crate::text::slice_vec(line, a, b);
    if !crate::text::starts_with(&t, &key) {
        return crate::text::slice_vec(line, 0, line.len());
    }
    proof {
        reveal_strlit("MODULES=");
    }
    let rest = crate::text::strip_prefix_all(line, &key);
    let (c, d) = trim_bounds(&rest);
    let v = crate::text::slice_vec(&rest, c, d);
    let space = chars_of(" ");
    let mut out = String::new();
    if v.len() > 0 && v[0] == '(' && v[v.len() - 1] == ')' {
        let inner = crate::text::slice_vec(&v, 1, v.len() - 1);
        let ms = add_missing_exec(words_of(&inner), mods);
        out.append("MODULES=(");
        append_chars(&mut out, &crate::text::join_with(&ms, &space));
        out.append(")");
    } else if v.len() > 0 && v[0] == '"' && v[v.len() - 1] == '"' {
        if v.len() < 2 {
            assert(v@ =~= seq!['"']);
        }
        let inner = crate::text::slice_vec(&v, 1, v.len() - 1);
        let ms = add_missing_exec(words_of(&inner), mods);
        out.append("MODULES=\"");
        append_chars(&mut out, &crate::text::join_with(&ms, &space));
        out.append("\"");
    } else {
        let ms = add_missing_exec(words_of(&v), mods);
        out.append("MODULES=");
        append_chars(&mut out, &crate::text::join_with(&ms, &space));
    }
    chars_of(out.as_str())
}

/// Whether `mkinitcpio.conf` can be rewritten: no `MODULES=` line assigns a lone `"`.
pub fn mkinitcpio_conf_readable(content: &str) -> (b: bool)
    ensures
        b == forall|i: int| 0 <= i < lines(content@).len() ==> !modules_line_unreadable(
            #[trigger] lines(content@)[i],
        ),
{
    let text = chars_of(content);
    let ls = lines_of(&text);
    let key = chars_of("MODULES=");
    let quote = vec!['"'];
    let mut i: usize = 0;
    while i < ls.len()
        invariant
            i <= ls.len(),
            views(ls@) == lines(content@),
            key@ == "MODULES="@,
            quote@ == seq!['"'],
            forall|k: int| 0 <= k < i ==> !modules_line_unreadable(#[trigger] lines(content@)[k]),
        decreases ls.len() - i,
    {
        let line = &ls[i];
        let (a, b) = trim_bounds(line);
        let t = crate::text::slice_vec(line, a, b);
        if crate::text::starts_with(&t, &key) {
            proof {
                reveal_strlit("MODULES=");
            }
            let rest = crate::text::strip_prefix_all(line, &key);
            let (c, d) = trim_bounds(&rest);
            let v = crate::text::slice_vec(&rest, c, d);
            if chars_eq(&v, &quote) {
                assert(modules_line_unreadable(lines(content@)[i as int]));
                return false;
            }
        }
        assert(!modules_line_unreadable(lines(content@)[i as int]));
        i = i + 1;
    }
    true
}

/// `mkinitcpio.conf` with the microcode images `mods` added to its `MODULES` lists.
pub fn add_mkinitcpio_modules(content: &str, mods: &Vec<String>) -> (r: String)
    requires
        forall|i: int| 0 <= i < lines(content@).len() ==> !modules_line_unreadable(
            #[trigger] lines(content@)[i],
        ),
    ensures
        r@ == mkinitcpio_text(content@, strs(mods@)),
{
    let text = chars_of(content);
    let ls = lines_of(&text);
    let ms = crate::text::chars_of_all(mods);
    let ghost target = lines(content@).map_values(|l: Seq<char>| modules_line(l, strs(mods@)));
    let mut out: Vec<Vec<char>> = Vec::new();
    for i in 0..ls.len()
        invariant
            views(ls@) == lines(content@),
            views(ms@) == strs(mods@),
            forall|i: int| 0 <= i < lines(content@).len() ==> !modules_line_unreadable(
                #[trigger] lines(content@)[i],
            ),
            target == lines(content@).map_values(|l: Seq<char>| modules_line(l, strs(mods@))),
            views(out@) == target.take(i as int),
    {
        assert(lines(content@)[i as int] == ls@[i as int]@);
        let new_line = modules_line_exec(&ls[i], &ms);
        proof {
            crate::text::lemma_views_push(out@, new_line);
            assert(target.take(i + 1) =~= target.take(i as int).push(target[i as int]));
        }
        out.push(new_line);
    }
    assert(target.take(ls.len() as int) =~= target);
    crate::text::text_of_lines(&out)
}

} // verus!

verus! {

/// The disk of the partition mounted on `/mnt`, from what `findmnt` printed: the
/// partition with its number removed, and the `p` before it on NVMe and MMC devices;
/// `None` when nothing was printed.
pub open spec fn root_disk(output: Seq<char>) -> Option<Seq<char>> {
    let source = trim(output);
    if source.len() == 0 {
        None
    } else if crate::disk_manager::uses_p_separator(source) {
        Some(crate::text::strip_trailing(crate::text::strip_trailing_digits(source), 'p'))
    } else {
        Some(crate::text::strip_trailing_digits(source))
    }
}

/// The disk that GRUB is installed on for a BIOS boot, from the output of
/// `findmnt -n -o SOURCE /mnt`: `/dev/sda2` gives `/dev/sda`, `/dev/nvme0n1p2` gives
/// `/dev/nvme0n1`.
pub fn root_disk_from_source(output: &str) -> (r: Option<String>)
    ensures
        match r {
            Some(d) => root_disk(output@) == Some(d@),
            None => root_disk(output@) is None,
        },
{
    let source = trimmed(output);
    if source.len() == 0 {
        return None;
    }
    let no_digits = crate::text::strip_trailing_digit_chars(&source);
    if contains(&source, &chars_of("nvme")) || contains(&source, &chars_of("mmcblk")) {
        Some(string_of(&crate::text::strip_trailing_char(&no_digits, 'p')))
    } else {
        Some(string_of(&no_digits))
    }
}

/// A step of configuring the installed system, with what it writes.
pub enum ConfigStep {
    /// Link `/etc/localtime` to `zoneinfo` and set the hardware clock.
    SetTimezone { timezone: String, zoneinfo: String },
    /// Enable the locales in `locale.gen`, generate them, and write `locale_conf` to
    /// `/etc/locale.conf`; with no locale there is no `locale.conf` to write.
    SetLocales { locales: Vec<String>, locale_conf: Option<String> },
    /// Write `hostname_file` to `/etc/hostname` and `hosts_file` to `/etc/hosts`.
    SetHostname { hostname: String, hostname_file: String, hosts_file: String },
    /// Hand `chpasswd_input` to `chpasswd`.
    SetRootPassword { chpasswd_input: String },
    /// Add these microcode images to the initramfs and rebuild it.
    ConfigureMkinitcpio { modules: Vec<String> },
    /// Install GRUB and write its configuration.
    InstallGrub,
}

/// `/etc/locale.conf` for the chosen locales: the first one is the system language.
pub open spec fn locale_conf_text(locales: Seq<Seq<char>>) -> Option<Seq<char>> {
    if locales.len() == 0 {
        None
    } else {
        Some("LANG="@ + locales[0] + "\n"@)
    }
}

/// The steps that configure the installed system, in the order they run, each with the
/// text it writes. `next_config_progress` says which step runs next.
pub fn apply_system_config(cfg: &SystemConfig, optional_packages: &[String]) -> (r: Vec<ConfigStep>)
    ensures
        r.len() == 6,
        r[0] matches ConfigStep::SetTimezone { timezone, zoneinfo } && timezone@ == cfg.timezone@
            && zoneinfo@ == zoneinfo_file(cfg.timezone@),
        r[1] matches ConfigStep::SetLocales { locales, locale_conf } && strs(locales@) == strs(
            cfg.locales@,
        ) && match locale_conf {
            Some(t) => locale_conf_text(strs(cfg.locales@)) == Some(t@),
            None => locale_conf_text(strs(cfg.locales@)) is None,
        },
        r[2] matches ConfigStep::SetHostname { hostname, hostname_file, hosts_file } && hostname@
            == cfg.hostname@ && hostname_file@ == cfg.hostname@ + "\n"@ && hosts_file@ == hosts_text(
            cfg.hostname@,
        ),
        r[3] matches ConfigStep::SetRootPassword { chpasswd_input } && chpasswd_input@ == "root:"@
            + cfg.root_password@ + "\n"@,
        r[4] matches ConfigStep::ConfigureMkinitcpio { modules } && strs(modules@) == microcode(
            strs(optional_packages@),
        ),
        r[5] is InstallGrub,
{
    let mut r: Vec<ConfigStep> = Vec::new();
    r.push(
        ConfigStep::SetTimezone {
            timezone: cfg.timezone.clone(),
            zoneinfo: zoneinfo_path(cfg.timezone.as_str()),
        },
    );
    let locale_conf = if cfg.locales.len() == 0 {
        None
    } else {
        Some(locale_conf(cfg.locales.as_slice()))
    };
    let locales = string_list(&cfg.locales);
    r.push(ConfigStep::SetLocales { locales, locale_conf });
    r.push(
        ConfigStep::SetHostname {
            hostname: cfg.hostname.clone(),
            hostname_file: hostname_file(cfg.hostname.as_str()),
            hosts_file: hosts_file(cfg.hostname.as_str()),
        },
    );
    proof {
        reveal_strlit("root");
        reveal_strlit(":");
        reveal_strlit("root:");
        assert("root"@ + ":"@ =~= "root:"@);
    }
    r.push(
        ConfigStep::SetRootPassword {
            chpasswd_input: chpasswd_line("root", cfg.root_password.as_str()),
        },
    );
    r.push(ConfigStep::ConfigureMkinitcpio { modules: microcode_modules(optional_packages) });
    r.push(ConfigStep::InstallGrub);
    r
}

/// A copy of a list of strings.
fn string_list(v: &Vec<String>) -> (r: Vec<String>)
    ensures
        strs(r@) == strs(v@),
{
    let mut r: Vec<String> = Vec::new();
    for i in 0..v.len()
        invariant
            strs(r@) == strs(v@.take(i as int)),
    {
        let c = string_of(&chars_of(v[i].as_str()));
        proof {
            lemma_strs_push(r@, c);
            assert(v@.take(i + 1) =~= v@.take(i as int).push(v@[i as int]));
            assert(strs(v@.take(i + 1)) =~= strs(v@.take(i as int)).push(v@[i as int]@));
        }
        r.push(c);
    }
    assert(v@.take(v.len() as int) =~= v@);
    r
}

/// Where a run of the configuration steps stands.
#[derive(Debug, Clone, Copy, PartialEq, Eq, Structural)]
pub enum ConfigProgress {
    /// The step with this index runs next.
    Next(usize),
    /// The step with this index failed; no later step runs.
    Stopped(usize),
    /// Every step succeeded.
    Done,
}

/// Where the run stands after the current step ended (`ok` tells whether it succeeded),
/// in a plan of `total` steps.
pub open spec fn progress_after(state: ConfigProgress, ok: bool, total: nat) -> ConfigProgress {
    match state {
        ConfigProgress::Next(k) => if !ok {
            ConfigProgress::Stopped(k)
        } else if k + 1 >= total {
            ConfigProgress::Done
        } else {
            ConfigProgress::Next((k + 1) as usize)
        },
        other => other,
    }
}

/// Where a run of `total` steps stands once the steps run so far ended as `results` says.
pub open spec fn progress_of(results: Seq<bool>, total: nat) -> ConfigProgress
    decreases results.len(),
{
    if results.len() == 0 {
        if total == 0 {
            ConfigProgress::Done
        } else {
            ConfigProgress::Next(0)
        }
    } else {
        progress_after(progress_of(results.drop_last(), total), results.last(), total)
    }
}

/// Where the run of a plan of `total` steps goes after the current step ended: on to the
/// next step, stopped at a failed one, or done after the last.
pub fn next_config_progress(state: ConfigProgress, ok: bool, total: usize) -> (r: ConfigProgress)
    ensures
        r == progress_after(state, ok, total as nat),
{
    match state {
        ConfigProgress::Next(k) => if !ok {
            ConfigProgress::Stopped(k)
        } else if k >= total || total - k <= 1 {
            ConfigProgress::Done
        } else {
            ConfigProgress::Next(k + 1)
        },
        other => other,
    }
}

/// A step runs only while every step before it succeeded, and a failed step ends the run:
/// after the steps ran with `results`, the run is at step `k` exactly when all `k` of
/// them succeeded, it stopped at the first failure, and it is done only when all `total`
/// steps succeeded.
pub proof fn law_config_stops_at_first_failure(results: Seq<bool>, total: nat)
    requires
        results.len() <= total,
        total <= usize::MAX,
    ensures
        (forall|i: int| 0 <= i < results.len() ==> results[i]) ==> (if results.len() == total {
            progress_of(results, total) == ConfigProgress::Done
        } else {
            progress_of(results, total) == ConfigProgress::Next(results.len() as usize)
        }),
        forall|j: int|
            0 <= j < results.len() && !results[j] && (forall|i: int| 0 <= i < j ==> results[i])
                ==> progress_of(results, total) == ConfigProgress::Stopped(j as usize),
    decreases results.len(),
{
    if results.len() > 0 {
        let prev = results.drop_last();
        law_config_stops_at_first_failure(prev, total);
        assert forall|j: int|
            0 <= j < results.len() && !results[j] && (forall|i: int| 0 <= i < j ==> results[i])
                implies progress_of(results, total) == ConfigProgress::Stopped(j as usize) by {
            if j < prev.len() {
                assert(!prev[j] && forall|i: int| 0 <= i < j ==> prev[i]);
            } else {
                assert(forall|i: int| 0 <= i < prev.len() ==> prev[i]);
            }
        }
        if forall|i: int| 0 <= i < results.len() ==> results[i] {
            assert(forall|i: int| 0 <= i < prev.len() ==> prev[i]);
            assert(results.last());
        }
    }
}

/// The locales picked in the locale prompt, when there is at least one; `None` sends the
/// prompt back, since the first locale is the system language.
pub fn check_locale_selection(selected: Vec<String>) -> (r: Option<Vec<String>>)
    ensures
        r is None <==> selected.len() == 0,
        r matches Some(v) ==> v@ == selected@,
{
    if selected.len() == 0 {
        None
    } else {
        Some(selected)
    }
}

/// What becomes of `mkinitcpio.conf`.
pub enum MkinitcpioPlan {
    /// No microcode image to add: the file and the initramfs stay as they are.
    NothingToAdd,
    /// A `MODULES=` line assigns a lone `"` and cannot be rewritten.
    Unreadable,
    /// Write this text and rebuild the initramfs.
    Rewrite(String),
}

/// What to do with `mkinitcpio.conf` (its text is `content`) to load the microcode images
/// `mods`: nothing when there are none, else the rewritten file.
pub fn mkinitcpio_plan(content: &str, mods: &Vec<String>) -> (r: MkinitcpioPlan)
    ensures
        r is NothingToAdd <==> mods.len() == 0,
        r is Unreadable <==> mods.len() > 0 && exists|i: int|
            0 <= i < lines(content@).len() && modules_line_unreadable(#[trigger] lines(content@)[i]),
        r matches MkinitcpioPlan::Rewrite(t) ==> t@ == mkinitcpio_text(content@, strs(mods@)),
{
    if mods.len() == 0 {
        MkinitcpioPlan::NothingToAdd
    } else if !mkinitcpio_conf_readable(content) {
        MkinitcpioPlan::Unreadable
    } else {
        MkinitcpioPlan::Rewrite(add_mkinitcpio_modules(content, mods))
    }
}

} // verus!

verus! {

/// An accepted hostname is accepted again, unchanged.
pub proof fn law_hostname_check_idempotent(s: Seq<char>)
    requires
        hostname_check(s) is Ok,
    ensures
        hostname_check(hostname_check(s)->Ok_0) == hostname_check(s),
{
    let t = trim(s);
    assert(hostname_char(t[0]) && hostname_char(t.last()));
    crate::text::lemma_trim_of_trimmed(t);
}

/// An accepted user name is accepted again, unchanged.
pub proof fn law_username_check_idempotent(s: Seq<char>)
    requires
        username_check(s) is Ok,
    ensures
        username_check(username_check(s)->Ok_0) == username_check(s),
{
    let t = trim(s);
    assert(username_char(t[0]) && username_char(t.last()));
    crate::text::lemma_trim_of_trimmed(t);
}

/// Adding modules keeps the modules already listed, in their order, and afterwards
/// every module asked for is listed.
pub proof fn law_add_missing_keeps_and_adds(ws: Seq<Seq<char>>, mods: Seq<Seq<char>>)
    ensures
        ws.is_prefix_of(add_missing(ws, mods)),
        forall|k: int| 0 <= k < mods.len() ==> add_missing(ws, mods).contains(#[trigger] mods[k]),
    decreases mods.len(),
{
    if mods.len() > 0 {
        let prev = mods.drop_last();
        law_add_missing_keeps_and_adds(ws, prev);
        let cur = add_missing(ws, prev);
        let m = mods.last();
        let next = add_missing(ws, mods);
        assert forall|k: int| 0 <= k < mods.len() implies next.contains(#[trigger] mods[k]) by {
            if k < mods.len() - 1 {
                assert(mods[k] == prev[k]);
                assert(cur.contains(prev[k]));
                if !cur.contains(m) {
                    let j = choose|j: int| 0 <= j < cur.len() && cur[j] == prev[k];
                    assert(next[j] == prev[k]);
                }
            } else {
                if !cur.contains(m) {
                    assert(next[next.len() - 1] == m);
                }
            }
        }
        if !cur.contains(m) {
            assert(ws =~= next.subrange(0, ws.len() as int));
        }
    }
}

/// Adding the same modules a second time changes nothing.
pub proof fn law_add_missing_idempotent(ws: Seq<Seq<char>>, mods: Seq<Seq<char>>)
    ensures
        add_missing(add_missing(ws, mods), mods) == add_missing(ws, mods),
{
    let once = add_missing(ws, mods);
    law_add_missing_keeps_and_adds(ws, mods);
    lemma_add_present(once, mods);
}

proof fn lemma_add_present(ws: Seq<Seq<char>>, mods: Seq<Seq<char>>)
    requires
        forall|k: int| 0 <= k < mods.len() ==> ws.contains(#[trigger] mods[k]),
    ensures
        add_missing(ws, mods) == ws,
    decreases mods.len(),
{
    if mods.len() > 0 {
        let prev = mods.drop_last();
        assert forall|k: int| 0 <= k < prev.len() implies ws.contains(#[trigger] prev[k]) by {
            assert(prev[k] == mods[k]);
        }
        lemma_add_present(ws, prev);
        assert(ws.contains(mods[mods.len() - 1]));
    }
}

} // verus!

verus! {

proof fn lemma_sudoers_line_idempotent(l: Seq<char>)
    ensures
        sudoers_line(sudoers_line(l)) == sudoers_line(l),
        plain_line(l) ==> plain_line(sudoers_line(l)),
{
    reveal_strlit("%wheel ALL=(ALL:ALL) ALL");
    let r = wheel_rule();
    assert(r[0] == '%');
    assert(r.last() == 'L');
    crate::text::lemma_trim_of_trimmed(r);
    assert(sudoers_line(r) == r);
    assert forall|k: int| 0 <= k < r.len() implies #[trigger] r[k] != '\n' by {}
}

/// Enabling the wheel rule a second time changes nothing, as long as no line of the file
/// ends in a stray `'\r'` (one that a `'\n'` does not follow, or a second one before it).
pub proof fn law_enable_wheel_idempotent(content: Seq<char>)
    requires
        forall|j: int|
            0 <= j < lines(content).len() ==> !(lines(content)[j].len() > 0 && (
            #[trigger] lines(content)[j]).last() == '\r'),
    ensures
        sudoers_text(sudoers_text(content)) == sudoers_text(content),
{
    reveal_strlit("\n");
    let ls = lines(content);
    let ms = ls.map_values(|l: Seq<char>| sudoers_line(l));
    let once = sudoers_text(content);
    if ls.len() == 0 {
        assert(ms =~= Seq::<Seq<char>>::empty());
        assert(once =~= seq!['\n']);
        let t = seq!['\n'];
        crate::text::lemma_index_of(t, '\n', 0);
        assert(t.skip(1) =~= Seq::<char>::empty());
        assert(t.take(0) =~= Seq::<char>::empty());
        assert(lines(t.skip(1)) =~= Seq::<Seq<char>>::empty());
        assert(lines(t) =~= seq![crate::text::strip_cr(Seq::<char>::empty())] + Seq::<Seq<char>>::empty());
        assert(lines(once) =~= seq![Seq::<char>::empty()]);
        let empty = Seq::<char>::empty();
        assert(trim(empty) =~= empty) by {
            crate::text::lemma_trim_of_trimmed(empty);
        }
        assert(lines(once).map_values(|l: Seq<char>| sudoers_line(l)) =~= seq![empty]);
        assert(crate::text::join_sep(seq![empty], "\n"@) == empty);
    } else {
        crate::text::lemma_lines_no_newline(content);
        assert forall|j: int| 0 <= j < ms.len() implies plain_line(#[trigger] ms[j]) by {
            let l = ls[j];
            assert forall|k: int| 0 <= k < l.len() implies #[trigger] l[k] != '\n' by {
                assert(lines(content)[j][k] != '\n');
            }
            assert(plain_line(l));
            lemma_sudoers_line_idempotent(l);
        }
        crate::text::lemma_lines_of_lines_text(ms);
        assert(lines(once) == ms);
        assert forall|j: int| 0 <= j < ms.len() implies #[trigger] sudoers_line(ms[j]) == ms[j] by {
            lemma_sudoers_line_idempotent(ls[j]);
        }
        assert(ms.map_values(|l: Seq<char>| sudoers_line(l)) =~= ms);
    }
}

} // verus!

verus! {

proof fn lemma_strip_digits_of_digits(x: Seq<char>, ds: Seq<char>)
    requires
        crate::text::all_digits(ds),
    ensures
        crate::text::strip_trailing_digits(x + ds) == crate::text::strip_trailing_digits(x),
    decreases ds.len(),
{
    if ds.len() > 0 {
        let xs = x + ds;
        assert(xs.last() == ds.last());
        assert(xs.drop_last() =~= x + ds.drop_last());
        lemma_strip_digits_of_digits(x, ds.drop_last());
    } else {
        assert(x + ds =~= x);
    }
}

proof fn lemma_contains_with_suffix(d: Seq<char>, suffix: Seq<char>, w: Seq<char>)
    requires
        w.len() > 0,
        !suffix.contains(w.last()),
    ensures
        crate::text::contains_seq(d + suffix, w) == crate::text::contains_seq(d, w),
{
    let s = d + suffix;
    if crate::text::contains_seq(s, w) {
        let i = choose|i: int| crate::text::occurs_at(s, w, i);
        if i + w.len() > d.len() {
            let j = i + w.len() - 1;
            assert(s.subrange(i, i + w.len())[w.len() - 1] == s[j]);
            assert(s[j] == suffix[j - d.len()]);
            assert(false);
        }
        assert(s.subrange(i, i + w.len()) =~= d.subrange(i, i + w.len()));
        assert(crate::text::occurs_at(d, w, i));
    }
    if crate::text::contains_seq(d, w) {
        let i = choose|i: int| crate::text::occurs_at(d, w, i);
        assert(s.subrange(i, i + w.len()) =~= d.subrange(i, i + w.len()));
        assert(crate::text::occurs_at(s, w, i));
    }
}

/// Finding the boot disk undoes naming a partition: when `findmnt` prints the path of
/// partition `n` of the disk `device` (a path that starts with no whitespace and that ends
/// with a digit exactly when its partitions are numbered after a `p`), the disk found is
/// `device` (`/dev/nvme0n1p2` gives `/dev/nvme0n1`, `/dev/sda3` gives `/dev/sda`).
pub proof fn law_root_disk_undoes_part_path(device: Seq<char>, n: nat)
    requires
        device.len() > 0,
        !crate::text::is_ws(device[0]),
        crate::disk_manager::uses_p_separator(device) <==> crate::text::is_digit(device.last()),
    ensures
        root_disk(crate::disk_manager::partition_path(device, n) + "\n"@) == Some(device),
{
    reveal_strlit("\n");
    reveal_strlit("p");
    reveal_strlit("nvme");
    reveal_strlit("mmcblk");
    crate::disk_manager::lemma_decimal_digits(n);
    crate::disk_manager::lemma_decimal_len(n);
    let p_sep = crate::disk_manager::uses_p_separator(device);
    let dec = crate::disk_manager::decimal(n);
    let suffix = (if p_sep {
        "p"@
    } else {
        Seq::<char>::empty()
    }) + dec;
    let path = crate::disk_manager::partition_path(device, n);
    assert(path =~= device + suffix);
    let out = path + "\n"@;
    // the path is what `findmnt` printed, trimmed
    assert(path.last() == dec.last());
    assert(crate::text::is_digit(dec[dec.len() - 1]));
    crate::text::lemma_lead_ws(out, 0);
    assert(out.skip(0) =~= out);
    crate::text::lemma_trail_ws(out, 1);
    assert(out.take(out.len() - 1) =~= path);
    assert(trim(out) == path);
    // the path names a partitioned device exactly when `device` does
    assert forall|k: int| 0 <= k < suffix.len() implies (#[trigger] suffix[k] == 'p'
        || crate::text::is_digit(suffix[k])) by {
        if p_sep && k >= 1 {
            assert(suffix[k] == dec[k - 1]);
        } else if !p_sep {
            assert(suffix[k] == dec[k]);
        }
    }
    assert(!suffix.contains('e')) by {
        if suffix.contains('e') {
            let k = choose|k: int| 0 <= k < suffix.len() && suffix[k] == 'e';
            assert(suffix[k] == 'p' || crate::text::is_digit(suffix[k]));
        }
    }
    assert(!suffix.contains('k')) by {
        if suffix.contains('k') {
            let k = choose|k: int| 0 <= k < suffix.len() && suffix[k] == 'k';
            assert(suffix[k] == 'p' || crate::text::is_digit(suffix[k]));
        }
    }
    lemma_contains_with_suffix(device, suffix, "nvme"@);
    lemma_contains_with_suffix(device, suffix, "mmcblk"@);
    assert(crate::disk_manager::uses_p_separator(path) == p_sep);
    if p_sep {
        let dp = device + "p"@;
        assert(path =~= dp + dec);
        lemma_strip_digits_of_digits(dp, dec);
        assert(dp.last() == 'p');
        assert(crate::text::strip_trailing_digits(dp) == dp);
        assert(dp.drop_last() =~= device);
        assert(device.last() != 'p');
        assert(crate::text::strip_trailing(device, 'p') == device);
        assert(crate::text::strip_trailing(dp, 'p') == device);
    } else {
        assert(path =~= device + dec);
        lemma_strip_digits_of_digits(device, dec);
        assert(crate::text::strip_trailing_digits(device) == device);
    }
}

} // verus!

verus! {

/// A module name: lowercase ASCII letters, digits, `-` and `_` (`amd-ucode`).
pub open spec fn module_name(m: Seq<char>) -> bool {
    &&& m.len() > 0
    &&& forall|k: int|
        0 <= k < m.len() ==> ('a' <= #[trigger] m[k] && m[k] <= 'z') || ('0' <= m[k] && m[k] <= '9')
            || m[k] == '-' || m[k] == '_'
}

proof fn lemma_add_missing_tail(ws: Seq<Seq<char>>, mods: Seq<Seq<char>>)
    ensures
        forall|j: int|
            ws.len() <= j < add_missing(ws, mods).len() ==> mods.contains(
                #[trigger] add_missing(ws, mods)[j],
            ),
    decreases mods.len(),
{
    if mods.len() > 0 {
        let prev = mods.drop_last();
        lemma_add_missing_tail(ws, prev);
        law_add_missing_keeps_and_adds(ws, prev);
        let cur = add_missing(ws, prev);
        let r = add_missing(ws, mods);
        assert forall|j: int| ws.len() <= j < r.len() implies mods.contains(#[trigger] r[j]) by {
            if j < cur.len() {
                assert(r[j] == cur[j]);
                assert(prev.contains(cur[j]));
                let k = choose|k: int| 0 <= k < prev.len() && prev[k] == cur[j];
                assert(mods[k] == prev[k]);
            } else {
                assert(r[j] == mods.last());
                assert(mods[mods.len() - 1] == mods.last());
            }
        }
    }
}

/// The list written back for a `MODULES=` value: its words with the missing modules added.
proof fn lemma_new_list(x: Seq<char>, mods: Seq<Seq<char>>)
    requires
        forall|k: int| 0 <= k < mods.len() ==> module_name(#[trigger] mods[k]),
    ensures
        ({
            let ws = add_missing(words(x), mods);
            &&& forall|j: int| 0 <= j < ws.len() ==> crate::text::is_word(#[trigger] ws[j])
            &&& words(crate::text::join_sep(ws, " "@)) == ws
            &&& add_missing(ws, mods) == ws
            &&& words(x).is_prefix_of(ws)
            &&& forall|j: int| words(x).len() <= j < ws.len() ==> mods.contains(#[trigger] ws[j])
        }),
{
    let w = words(x);
    let ws = add_missing(w, mods);
    crate::text::lemma_words_are_words(x);
    law_add_missing_keeps_and_adds(w, mods);
    lemma_add_missing_tail(w, mods);
    assert forall|j: int| 0 <= j < ws.len() implies crate::text::is_word(#[trigger] ws[j]) by {
        if j < w.len() {
            assert(ws[j] == w[j]);
        } else {
            assert(mods.contains(ws[j]));
            let k = choose|k: int| 0 <= k < mods.len() && mods[k] == ws[j];
            assert(module_name(mods[k]));
            assert forall|i: int| 0 <= i < ws[j].len() implies !crate::text::is_ws(#[trigger] ws[j][i]) by {
                assert(module_name(mods[k]));
                let c = mods[k][i];
                assert(('a' <= c && c <= 'z') || ('0' <= c && c <= '9') || c == '-' || c == '_');
            }
        }
    }
    crate::text::lemma_words_of_join(ws);
    law_add_missing_idempotent(w, mods);
}

/// A `MODULES=` line written back in brackets or quotes is written back the same again.
proof fn lemma_rewrapped_stable(open: char, close: char, inner: Seq<char>, mods: Seq<Seq<char>>)
    requires
        forall|k: int| 0 <= k < mods.len() ==> module_name(#[trigger] mods[k]),
        (open == '(' && close == ')') || (open == '"' && close == '"'),
    ensures
        ({
            let ws = add_missing(words(inner), mods);
            let n = "MODULES="@ + seq![open] + crate::text::join_sep(ws, " "@) + seq![close];
            &&& modules_line(n, mods) == n
            &&& plain_line(n)
            &&& !modules_line_unreadable(n)
        }),
{
    reveal_strlit("MODULES=");
    reveal_strlit("MODULES=(");
    reveal_strlit("MODULES=\"");
    reveal_strlit(")");
    reveal_strlit("\"");
    let ws = add_missing(words(inner), mods);
    lemma_new_list(inner, mods);
    let j = crate::text::join_sep(ws, " "@);
    let key = "MODULES="@;
    let body = seq![open] + j + seq![close];
    let n = key + body;
    assert(n =~= "MODULES="@ + seq![open] + j + seq![close]);
    if ws.len() > 0 {
        crate::text::lemma_join_words(ws);
    } else {
        assert(j =~= Seq::<char>::empty());
    }
    // the line is a `MODULES=` line, and what it assigns is the bracketed list
    assert(n[0] == 'M');
    assert(n.last() == close);
    crate::text::lemma_trim_of_trimmed(n);
    assert(key.is_prefix_of(n)) by {
        assert(n.subrange(0, 8) =~= key);
    }
    assert(n.skip(8) =~= body);
    assert(!key.is_prefix_of(body)) by {
        assert(body[0] == open);
    }
    assert(crate::text::strip_prefix_repeated(body, key) == body);
    assert(crate::text::strip_prefix_repeated(n, key) == body);
    crate::text::lemma_trim_of_trimmed(body);
    assert(modules_value(n) == body);
    assert(body.subrange(1, body.len() - 1) =~= j);
    assert(body.len() >= 2);
    // no line break in it, and it does not end in '\r'
    assert forall|k: int| 0 <= k < n.len() implies #[trigger] n[k] != '\n' by {
        if 9 <= k < n.len() - 1 {
            assert(n[k] == j[k - 9]);
            if ws.len() > 0 {
                assert(j[k - 9] == ' ' || !crate::text::is_ws(j[k - 9]));
            }
        }
    }
}

/// A bare `MODULES=` line written back is written back the same again, unless what it
/// assigned started with `MODULES=` itself.
proof fn lemma_plain_stable(v: Seq<char>, mods: Seq<Seq<char>>)
    requires
        forall|k: int| 0 <= k < mods.len() ==> module_name(#[trigger] mods[k]),
        v.len() > 0 ==> !crate::text::is_ws(v[0]) && !crate::text::is_ws(v.last()),
        !wrapped_in(v, '(', ')'),
        !wrapped_in(v, '"', '"'),
        !"MODULES="@.is_prefix_of(v),
    ensures
        ({
            let n = "MODULES="@ + crate::text::join_sep(add_missing(words(v), mods), " "@);
            &&& modules_line(n, mods) == n
            &&& plain_line(n)
            &&& !modules_line_unreadable(n)
        }),
{
    reveal_strlit("MODULES=");
    let key = "MODULES="@;
    let w = words(v);
    let ws = add_missing(w, mods);
    lemma_new_list(v, mods);
    let j = crate::text::join_sep(ws, " "@);
    let n = key + j;
    assert(n.skip(8) =~= j);
    assert(key.is_prefix_of(n)) by {
        assert(n.subrange(0, 8) =~= key);
    }
    if ws.len() == 0 {
        assert(j =~= Seq::<char>::empty());
        assert(crate::text::strip_prefix_repeated(j, key) == j);
        crate::text::lemma_trim_of_trimmed(j);
    } else {
        crate::text::lemma_join_words(ws);
        // the first word of the list does not start with `MODULES=`
        assert(!key.is_prefix_of(ws[0])) by {
            if w.len() > 0 {
                assert(ws[0] == w[0]);
                crate::text::lemma_words_first(v);
                if key.is_prefix_of(w[0]) {
                    assert forall|i: int| 0 <= i < 8 implies #[trigger] v[i] == key[i] by {
                        assert(v[i] == w[0][i]);
                    }
                    assert(v.subrange(0, 8) =~= key);
                }
            } else {
                assert(mods.contains(ws[0]));
                let k = choose|k: int| 0 <= k < mods.len() && mods[k] == ws[0];
                assert(module_name(mods[k]));
                if key.is_prefix_of(ws[0]) {
                    assert(ws[0][0] == key[0]);
                    assert(key[0] == 'M');
                    let c = mods[k][0];
                    assert(('a' <= c && c <= 'z') || ('0' <= c && c <= '9') || c == '-' || c == '_');
                }
            }
        }
        assert(!key.is_prefix_of(j)) by {
            if key.is_prefix_of(j) {
                if ws[0].len() >= 8 {
                    assert(ws[0].subrange(0, 8) =~= key) by {
                        assert forall|i: int| 0 <= i < 8 implies #[trigger] ws[0][i] == key[i] by {
                            assert(j[i] == ws[0][i]);
                        }
                    }
                } else {
                    assert(ws.len() > 1);
                    assert(j[ws[0].len() as int] == ' ');
                    assert(key[ws[0].len() as int] != ' ');
                }
            }
        }
        assert(crate::text::strip_prefix_repeated(j, key) == j);
        assert(!crate::text::is_ws(j[0])) by {
            assert(crate::text::is_word(ws[0]));
        }
        assert(!crate::text::is_ws(j.last())) by {
            assert(crate::text::is_word(ws.last()));
            assert(ws.last() == ws[ws.len() - 1]);
        }
        crate::text::lemma_trim_of_trimmed(j);
        // the list is not written in brackets or quotes
        let c = j.last();
        if ws.len() == w.len() {
            assert(ws =~= w);
            crate::text::lemma_words_first(v);
            crate::text::lemma_words_last(v);
            assert(j[0] == v[0]);
            assert(c == v.last());
        } else {
            assert(mods.contains(ws[ws.len() - 1]));
            let k = choose|k: int| 0 <= k < mods.len() && mods[k] == ws[ws.len() - 1];
            assert(module_name(mods[k]));
            assert(c == mods[k][mods[k].len() - 1]);
            assert(c != ')' && c != '"');
        }
    }
    assert(crate::text::strip_prefix_repeated(n, key) == crate::text::strip_prefix_repeated(j, key));
    assert(modules_value(n) == j);
    assert(trim(n) == n) by {
        crate::text::lemma_trim_of_trimmed(n);
    }
    assert forall|k: int| 0 <= k < n.len() implies #[trigger] n[k] != '\n' by {
        if k >= 8 {
            assert(n[k] == j[k - 8]);
            assert(j[k - 8] == ' ' || !crate::text::is_ws(j[k - 8]));
        }
    }
}

/// A line rewritten once is rewritten the same again.
proof fn lemma_modules_line_stable(line: Seq<char>, mods: Seq<Seq<char>>)
    requires
        forall|k: int| 0 <= k < mods.len() ==> module_name(#[trigger] mods[k]),
        !modules_line_unreadable(line),
        is_modules_line(line) ==> !"MODULES="@.is_prefix_of(modules_value(line)),
    ensures
        !is_modules_line(line) ==> modules_line(line, mods) == line,
        is_modules_line(line) ==> ({
            let n = modules_line(line, mods);
            &&& modules_line(n, mods) == n
            &&& plain_line(n)
            &&& !modules_line_unreadable(n)
        }),
{
    if is_modules_line(line) {
        reveal_strlit("MODULES=");
        reveal_strlit("MODULES=(");
        reveal_strlit("MODULES=\"");
        reveal_strlit(")");
        reveal_strlit("\"");
        let v = modules_value(line);
        crate::text::lemma_trim_ends(crate::text::strip_prefix_repeated(line, "MODULES="@));
        if wrapped_in(v, '(', ')') {
            let inner = v.subrange(1, v.len() - 1);
            lemma_rewrapped_stable('(', ')', inner, mods);
            let j = crate::text::join_sep(add_missing(words(inner), mods), " "@);
            assert("MODULES=("@ + j + ")"@ =~= "MODULES="@ + seq!['('] + j + seq![')']);
        } else if wrapped_in(v, '"', '"') {
            assert(v.len() >= 2) by {
                if v.len() == 1 {
                    assert(v =~= seq!['"']);
                }
            }
            let inner = v.subrange(1, v.len() - 1);
            lemma_rewrapped_stable('"', '"', inner, mods);
            let j = crate::text::join_sep(add_missing(words(inner), mods), " "@);
            assert("MODULES=\""@ + j + "\""@ =~= "MODULES="@ + seq!['"'] + j + seq!['"']);
        } else {
            lemma_plain_stable(v, mods);
        }
    }
}

/// Adding the microcode modules to `mkinitcpio.conf` a second time changes nothing: no
/// module is added twice and every other line stays as it is. This holds when the modules
/// are plain module names, no `MODULES=` line assigns something that itself starts with
/// `MODULES=` (as `  MODULES=(a)` does, whose leading blank keeps its key from being
/// taken off), and no other line ends in a stray `'\r'`; the file written is again one
/// that can be rewritten.
pub proof fn law_mkinitcpio_rewrite_idempotent(content: Seq<char>, mods: Seq<Seq<char>>)
    requires
        forall|k: int| 0 <= k < mods.len() ==> module_name(#[trigger] mods[k]),
        forall|i: int| 0 <= i < lines(content).len() ==> !modules_line_unreadable(
            #[trigger] lines(content)[i],
        ),
        forall|i: int|
            0 <= i < lines(content).len() && is_modules_line(#[trigger] lines(content)[i])
                ==> !"MODULES="@.is_prefix_of(modules_value(lines(content)[i])),
        forall|i: int|
            0 <= i < lines(content).len() && !is_modules_line(#[trigger] lines(content)[i])
                ==> !(lines(content)[i].len() > 0 && lines(content)[i].last() == '\r'),
    ensures
        mkinitcpio_text(mkinitcpio_text(content, mods), mods) == mkinitcpio_text(content, mods),
        forall|i: int|
            0 <= i < lines(mkinitcpio_text(content, mods)).len() ==> !modules_line_unreadable(
                #[trigger] lines(mkinitcpio_text(content, mods))[i],
            ),
{
    reveal_strlit("\n");
    let ls = lines(content);
    let ms = ls.map_values(|l: Seq<char>| modules_line(l, mods));
    let once = mkinitcpio_text(content, mods);
    if ls.len() == 0 {
        assert(ms =~= Seq::<Seq<char>>::empty());
        assert(once =~= seq!['\n']);
        let t = seq!['\n'];
        crate::text::lemma_index_of(t, '\n', 0);
        assert(t.skip(1) =~= Seq::<char>::empty());
        assert(t.take(0) =~= Seq::<char>::empty());
        assert(lines(t.skip(1)) =~= Seq::<Seq<char>>::empty());
        assert(lines(t) =~= seq![crate::text::strip_cr(Seq::<char>::empty())] + Seq::<Seq<char>>::empty());
        let empty = Seq::<char>::empty();
        assert(lines(once) =~= seq![empty]);
        assert(!is_modules_line(empty)) by {
            crate::text::lemma_trim_of_trimmed(empty);
            reveal_strlit("MODULES=");
            assert(trim(empty).len() == 0);
        }
        assert(lines(once).map_values(|l: Seq<char>| modules_line(l, mods)) =~= seq![empty]);
        assert(crate::text::join_sep(seq![empty], "\n"@) == empty);
    } else {
        crate::text::lemma_lines_no_newline(content);
        assert forall|j: int| 0 <= j < ms.len() implies plain_line(#[trigger] ms[j])
            && modules_line(ms[j], mods) == ms[j] && !modules_line_unreadable(ms[j]) by {
            let l = ls[j];
            assert(!modules_line_unreadable(lines(content)[j]));
            lemma_modules_line_stable(l, mods);
            if !is_modules_line(l) {
                assert forall|k: int| 0 <= k < l.len() implies #[trigger] l[k] != '\n' by {
                    assert(lines(content)[j][k] != '\n');
                }
            }
        }
        crate::text::lemma_lines_of_lines_text(ms);
        assert(lines(once) == ms);
        assert(ms.map_values(|l: Seq<char>| modules_line(l, mods)) =~= ms);
    }
}

} // verus!

verus! {

/// A user name that follows the Linux rules is accepted unchanged: one that starts with a
/// lowercase ASCII letter or `_`, is made of lowercase ASCII letters, digits, `-`, `_`
/// and `.`, and is at most 32 bytes long (`deniz`, `_build.2`).
pub proof fn law_rule_abiding_username_accepted(s: Seq<char>)
    requires
        s.len() > 0,
        ('a' <= s[0] && s[0] <= 'z') || s[0] == '_',
        forall|i: int|
            0 <= i < s.len() ==> ('a' <= #[trigger] s[i] && s[i] <= 'z') || ('0' <= s[i] && s[i]
                <= '9') || s[i] == '-' || s[i] == '_' || s[i] == '.',
        crate::text::byte_len(s) <= 32,
    ensures
        username_check(s) == Ok::<Seq<char>, UsernameError>(s),
{
    let c = s.last();
    assert(('a' <= c && c <= 'z') || ('0' <= c && c <= '9') || c == '-' || c == '_' || c == '.');
    crate::text::lemma_trim_of_trimmed(s);
}

/// Every user name accepted is made only of lowercase ASCII letters, digits, `-`, `_` and
/// `.`, and starts with a lowercase letter or `_`.
pub proof fn law_accepted_username_chars(s: Seq<char>)
    requires
        username_check(s) is Ok,
    ensures
        ({
            let u = username_check(s)->Ok_0;
            &&& u.len() > 0
            &&& ('a' <= u[0] && u[0] <= 'z') || u[0] == '_'
            &&& forall|i: int|
                0 <= i < u.len() ==> ('a' <= #[trigger] u[i] && u[i] <= 'z') || ('0' <= u[i]
                    && u[i] <= '9') || u[i] == '-' || u[i] == '_' || u[i] == '.'
        }),
{
}

/// A hostname of ASCII letters (either case), digits and inner dashes, at most 63 bytes
/// long, is accepted unchanged (`zenbook`, `Arch-PC2`).
pub proof fn law_rule_abiding_hostname_accepted(s: Seq<char>)
    requires
        s.len() > 0,
        forall|i: int|
            0 <= i < s.len() ==> ('a' <= #[trigger] s[i] && s[i] <= 'z') || ('A' <= s[i] && s[i]
                <= 'Z') || ('0' <= s[i] && s[i] <= '9') || s[i] == '-',
        s[0] != '-',
        s.last() != '-',
        crate::text::byte_len(s) <= 63,
    ensures
        hostname_check(s) == Ok::<Seq<char>, HostnameError>(s),
{
    let c = s.last();
    assert(('a' <= c && c <= 'z') || ('A' <= c && c <= 'Z') || ('0' <= c && c <= '9') || c == '-');
    let c0 = s[0];
    assert(('a' <= c0 && c0 <= 'z') || ('A' <= c0 && c0 <= 'Z') || ('0' <= c0 && c0 <= '9') || c0 == '-');
    crate::text::lemma_trim_of_trimmed(s);
}

/// Every hostname accepted is made only of ASCII letters, digits and dashes, and neither
/// starts nor ends with a dash.
pub proof fn law_accepted_hostname_chars(s: Seq<char>)
    requires
        hostname_check(s) is Ok,
    ensures
        ({
            let h = hostname_check(s)->Ok_0;
            &&& h.len() > 0
            &&& h[0] != '-' && h.last() != '-'
            &&& forall|i: int|
                0 <= i < h.len() ==> ('a' <= #[trigger] h[i] && h[i] <= 'z') || ('A' <= h[i]
                    && h[i] <= 'Z') || ('0' <= h[i] && h[i] <= '9') || h[i] == '-'
        }),
{
}

} // verus!
