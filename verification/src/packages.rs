use vstd::prelude::*;
use crate::text::strs;
use crate::order::{lex_lt, lemma_lex_asymmetric, lemma_lex_irreflexive, sorted_unique, strictly_sorted_lex};

verus! {

broadcast use vstd::seq_lib::group_to_multiset_ensures;

/// The package lists offered for installation, as published in `packages.json`.
pub struct PackageList {
    pub core: Vec<String>,
    pub minimal: Vec<String>,
    pub desktop: Vec<String>,
}

/// How much to install; each level holds everything of the levels before it.
#[derive(Debug, Clone, Copy, PartialEq, Eq, Structural)]
pub enum InstallLevel {
    Core,
    Minimal,
    Desktop,
}

/// The text the level menu shows for a level.
pub open spec fn level_label(level: InstallLevel) -> Seq<char> {
    match level {
        InstallLevel::Core => "Core    — Yalnızca temel sistem (base, kernel)"@,
        InstallLevel::Minimal => "Minimal — Core + geliştirici araçları, ağ, git"@,
        InstallLevel::Desktop => "Desktop — Minimal + masaüstü ortamı (Xorg, GNOME)"@,
    }
}

impl InstallLevel {
    /// The text the level menu shows for this level.
    pub fn label(&self) -> (r: String)
        ensures
            r@ == level_label(*self),
    {
        let mut r = String::new();
        match self {
            InstallLevel::Core => r.append("Core    — Yalnızca temel sistem (base, kernel)"),
            InstallLevel::Minimal => r.append("Minimal — Core + geliştirici araçları, ağ, git"),
            InstallLevel::Desktop => r.append("Desktop — Minimal + masaüstü ortamı (Xorg, GNOME)"),
        }
        r
    }
}

/// The packages a level asks for, before sorting: the core list, then the minimal list
/// from `Minimal` on, then the desktop list for `Desktop`.
pub open spec fn level_packages(list: PackageList, level: InstallLevel) -> Seq<Seq<char>> {
    let core = strs(list.core@);
    let minimal = strs(list.minimal@);
    let desktop = strs(list.desktop@);
    match level {
        InstallLevel::Core => core,
        InstallLevel::Minimal => core + minimal,
        InstallLevel::Desktop => core + minimal + desktop,
    }
}

fn extend_strings(v: &mut Vec<String>, more: &Vec<String>)
    ensures
        strs(final(v)@) == strs(old(v)@) + strs(more@),
{
    let ghost v0 = strs(v@);
    for i in 0..more.len()
        invariant
            strs(v@) == v0 + strs(more@).take(i as int),
    {
        let ghost before = v@;
        v.push(more[i].clone());
        proof {
            crate::text::lemma_strs_push(before, more@[i as int]);
            assert(strs(more@).take(i + 1) =~= strs(more@).take(i as int).push(more@[i as int]@));
            assert(v0 + strs(more@).take(i + 1) =~= (v0 + strs(more@).take(i as int)).push(
                more@[i as int]@,
            ));
        }
    }
    assert(strs(more@).take(more.len() as int) =~= strs(more@));
}

/// The packages to install for `level`: the lists up to that level merged, sorted,
/// with each package once.
pub fn resolve_packages(list: &PackageList, level: &InstallLevel) -> (r: Vec<String>)
    ensures
        strictly_sorted_lex(strs(r@)),
        forall|x: Seq<char>| strs(r@).contains(x) <==> level_packages(*list, *level).contains(x),
{
    let mut packages = list.core.clone();
    proof {
        assert(strs(packages@) == strs(list.core@));
    }
    if *level == InstallLevel::Minimal || *level == InstallLevel::Desktop {
        extend_strings(&mut packages, &list.minimal);
    }
    if *level == InstallLevel::Desktop {
        extend_strings(&mut packages, &list.desktop);
    }
    assert(strs(packages@) == level_packages(*list, *level));
    sorted_unique(&packages)
}

/// Each level installs everything that the level below it installs.
pub proof fn law_levels_cumulative(list: PackageList, x: Seq<char>)
    ensures
        level_packages(list, InstallLevel::Core).contains(x) ==> level_packages(
            list,
            InstallLevel::Minimal,
        ).contains(x),
        level_packages(list, InstallLevel::Minimal).contains(x) ==> level_packages(
            list,
            InstallLevel::Desktop,
        ).contains(x),
{
    let core = strs(list.core@);
    let minimal = strs(list.minimal@);
    let desktop = strs(list.desktop@);
    if core.contains(x) {
        let k = choose|k: int| 0 <= k < core.len() && core[k] == x;
        assert((core + minimal)[k] == x);
    }
    if (core + minimal).contains(x) {
        let k = choose|k: int| 0 <= k < (core + minimal).len() && (core + minimal)[k] == x;
        assert((core + minimal + desktop)[k] == x);
    }
}

/// Two sorted lists without repeats that hold the same strings are the same list: the
/// contract of `resolve_packages` leaves it one possible result.
pub proof fn law_sorted_unique_determined(a: Seq<Seq<char>>, b: Seq<Seq<char>>)
    requires
        strictly_sorted_lex(a),
        strictly_sorted_lex(b),
        forall|x: Seq<char>| a.contains(x) <==> b.contains(x),
    ensures
        a == b,
    decreases a.len() + b.len(),
{
    if a.len() == 0 || b.len() == 0 {
        if a.len() > 0 {
            assert(b.contains(a[0]));
        }
        if b.len() > 0 {
            assert(a.contains(b[0]));
        }
        assert(a =~= b);
    } else {
        // the first elements are the least of the same set
        assert(b.contains(a[0]));
        assert(a.contains(b[0]));
        let i = choose|i: int| 0 <= i < b.len() && b[i] == a[0];
        let j = choose|j: int| 0 <= j < a.len() && a[j] == b[0];
        if i > 0 {
            assert(lex_lt(b[0], b[i]));
            if j > 0 {
                assert(lex_lt(a[0], a[j]));
                lemma_lex_asymmetric(a[0], b[0]);
            } else {
                lemma_lex_irreflexive(b[0]);
            }
        }
        assert(a[0] == b[0]);
        let a1 = a.drop_first();
        let b1 = b.drop_first();
        assert forall|x: Seq<char>| a1.contains(x) <==> b1.contains(x) by {
            if a1.contains(x) {
                let k = choose|k: int| 0 <= k < a1.len() && a1[k] == x;
                assert(lex_lt(a[0], a[k + 1]));
                assert(b.contains(x));
                let m = choose|m: int| 0 <= m < b.len() && b[m] == x;
                if m == 0 {
                    lemma_lex_irreflexive(x);
                }
                assert(b1[m - 1] == x);
            }
            if b1.contains(x) {
                let k = choose|k: int| 0 <= k < b1.len() && b1[k] == x;
                assert(lex_lt(b[0], b[k + 1]));
                assert(a.contains(x));
                let m = choose|m: int| 0 <= m < a.len() && a[m] == x;
                if m == 0 {
                    lemma_lex_irreflexive(x);
                }
                assert(a1[m - 1] == x);
            }
        }
        assert forall|u: int, v: int| 0 <= u < v < a1.len() implies lex_lt(
            #[trigger] a1[u],
            #[trigger] a1[v],
        ) by {
            assert(lex_lt(a[u + 1], a[v + 1]));
        }
        assert forall|u: int, v: int| 0 <= u < v < b1.len() implies lex_lt(
            #[trigger] b1[u],
            #[trigger] b1[v],
        ) by {
            assert(lex_lt(b[u + 1], b[v + 1]));
        }
        law_sorted_unique_determined(a1, b1);
        assert(a =~= seq![a[0]] + a1);
        assert(b =~= seq![b[0]] + b1);
    }
}

} // verus!

verus! {

/// The package names as printed before installing: each after two spaces, with a line
/// break after every sixth.
pub open spec fn listing(ps: Seq<Seq<char>>) -> Seq<char>
    decreases ps.len(),
{
    if ps.len() == 0 {
        seq![]
    } else {
        listing(ps.drop_last()) + "  "@ + ps.last() + (if ps.len() % 6 == 0 {
            "\n"@
        } else {
            Seq::<char>::empty()
        })
    }
}

/// The package names laid out six to a line, as shown before installing.
pub fn package_listing(packages: &Vec<String>) -> (r: String)
    ensures
        r@ == listing(strs(packages@)),
{
    let mut r = String::new();
    for i in 0..packages.len()
        invariant
            r@ == listing(strs(packages@).take(i as int)),
    {
        let ghost before = r@;
        r.append("  ");
        r.append(packages[i].as_str());
        if (i + 1) % 6 == 0 {
            r.append("\n");
        }
        proof {
            let t = strs(packages@).take(i + 1);
            assert(t.drop_last() =~= strs(packages@).take(i as int));
            assert(t.last() == packages@[i as int]@);
            if (i + 1) % 6 != 0 {
                assert(r@ =~= before + "  "@ + packages@[i as int]@ + Seq::<char>::empty());
            }
        }
    }
    assert(strs(packages@).take(packages.len() as int) =~= strs(packages@));
    r
}

} // verus!
