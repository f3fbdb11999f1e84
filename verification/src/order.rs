use vstd::prelude::*;
use crate::text::{chars_of_all, strings_of_all, strs, views};

verus! {

broadcast use vstd::seq_lib::group_to_multiset_ensures;

/// Lexicographic order on character sequences, by code point: the order in which
/// `String`'s `Ord` compares (UTF-8 byte order and code point order agree).
pub open spec fn lex_lt(a: Seq<char>, b: Seq<char>) -> bool
    decreases a.len(),
{
    if a.len() == 0 {
        b.len() > 0
    } else if b.len() == 0 {
        false
    } else if a[0] != b[0] {
        a[0] < b[0]
    } else {
        lex_lt(a.drop_first(), b.drop_first())
    }
}

pub open spec fn lex_le(a: Seq<char>, b: Seq<char>) -> bool {
    a == b || lex_lt(a, b)
}

/// Every element is at most every later one.
pub open spec fn sorted_lex(s: Seq<Seq<char>>) -> bool {
    forall|i: int, j: int| 0 <= i < j < s.len() ==> lex_le(#[trigger] s[i], #[trigger] s[j])
}

/// Every element is below every later one: sorted, with nothing twice.
pub open spec fn strictly_sorted_lex(s: Seq<Seq<char>>) -> bool {
    forall|i: int, j: int| 0 <= i < j < s.len() ==> lex_lt(#[trigger] s[i], #[trigger] s[j])
}

pub proof fn lemma_lex_irreflexive(a: Seq<char>)
    ensures
        !lex_lt(a, a),
    decreases a.len(),
{
    if a.len() > 0 {
        lemma_lex_irreflexive(a.drop_first());
    }
}

pub proof fn lemma_lex_asymmetric(a: Seq<char>, b: Seq<char>)
    ensures
        lex_lt(a, b) ==> !lex_lt(b, a),
    decreases a.len(),
{
    if a.len() > 0 && b.len() > 0 && a[0] == b[0] {
        lemma_lex_asymmetric(a.drop_first(), b.drop_first());
    }
}

pub proof fn lemma_lex_total(a: Seq<char>, b: Seq<char>)
    ensures
        a != b ==> lex_lt(a, b) || lex_lt(b, a),
    decreases a.len(),
{
    if a.len() > 0 && b.len() > 0 && a[0] == b[0] {
        lemma_lex_total(a.drop_first(), b.drop_first());
        if a.drop_first() == b.drop_first() {
            assert(a =~= seq![a[0]] + a.drop_first());
            assert(b =~= seq![b[0]] + b.drop_first());
        }
    } else if a.len() == 0 && b.len() == 0 {
        assert(a =~= b);
    }
}

pub proof fn lemma_lex_transitive(a: Seq<char>, b: Seq<char>, c: Seq<char>)
    requires
        lex_lt(a, b),
        lex_lt(b, c),
    ensures
        lex_lt(a, c),
    decreases a.len(),
{
    if a.len() > 0 && b.len() > 0 && c.len() > 0 && a[0] == b[0] && b[0] == c[0] {
        lemma_lex_transitive(a.drop_first(), b.drop_first(), c.drop_first());
    }
}

pub proof fn lemma_lex_le_transitive(a: Seq<char>, b: Seq<char>, c: Seq<char>)
    requires
        lex_le(a, b),
        lex_le(b, c),
    ensures
        lex_le(a, c),
{
    if a != b && b != c {
        lemma_lex_transitive(a, b, c);
    }
}

proof fn lemma_lex_common_prefix(a: Seq<char>, b: Seq<char>, i: int)
    requires
        0 <= i <= a.len(),
        i <= b.len(),
        forall|k: int| 0 <= k < i ==> a[k] == b[k],
    ensures
        lex_lt(a, b) == lex_lt(a.skip(i), b.skip(i)),
    decreases i,
{
    if i > 0 {
        lemma_lex_common_prefix(a.drop_first(), b.drop_first(), i - 1);
        assert(a.drop_first().skip(i - 1) =~= a.skip(i));
        assert(b.drop_first().skip(i - 1) =~= b.skip(i));
    } else {
        assert(a.skip(0) =~= a);
        assert(b.skip(0) =~= b);
    }
}

/// Whether `a` comes before `b` in lexicographic code point order.
pub fn lex_less(a: &Vec<char>, b: &Vec<char>) -> (r: bool)
    ensures
        r == lex_lt(a@, b@),
{
    let mut i: usize = 0;
    while i < a.len() && i < b.len() && a[i] == b[i]
        invariant
            i <= a.len(),
            i <= b.len(),
            forall|k: int| 0 <= k < i ==> a@[k] == b@[k],
        decreases a.len() - i,
    {
        i = i + 1;
    }
    proof {
        lemma_lex_common_prefix(a@, b@, i as int);
    }
    let ghost sa = a@.skip(i as int);
    let ghost sb = b@.skip(i as int);
    if i == a.len() {
        i < b.len()
    } else if i == b.len() {
        false
    } else {
        proof {
            assert(sa[0] == a@[i as int]);
            assert(sb[0] == b@[i as int]);
        }
        a[i] < b[i]
    }
}

proof fn lemma_multiset_insert(s: Seq<Seq<char>>, p: int, x: Seq<char>)
    requires
        0 <= p <= s.len(),
    ensures
        s.insert(p, x).to_multiset() =~= s.to_multiset().insert(x),
{
    let a = s.subrange(0, p);
    let b = s.subrange(p, s.len() as int);
    vstd::seq_lib::lemma_multiset_commutative(a.push(x), b);
    vstd::seq_lib::lemma_multiset_commutative(a, b);
    assert(s =~= a + b);
}

/// The strings of `v` in lexicographic order (`slice::sort` on strings).
pub fn sort_lex(v: Vec<Vec<char>>) -> (r: Vec<Vec<char>>)
    ensures
        sorted_lex(views(r@)),
        views(r@).to_multiset() == views(v@).to_multiset(),
{
    let mut r: Vec<Vec<char>> = Vec::new();
    let mut i: usize = 0;
    assert(views(v@).take(0) =~= Seq::<Seq<char>>::empty());
    assert(views(r@) =~= Seq::<Seq<char>>::empty());
    while i < v.len()
        invariant
            i <= v.len(),
            sorted_lex(views(r@)),
            views(r@).to_multiset() == views(v@).take(i as int).to_multiset(),
        decreases v.len() - i,
    {
        let x = &v[i];
        let mut p: usize = 0;
        while p < r.len() && !lex_less(x, &r[p])
            invariant
                p <= r.len(),
                forall|k: int| 0 <= k < p ==> lex_le(#[trigger] views(r@)[k], x@),
            decreases r.len() - p,
        {
            proof {
                lemma_lex_total(x@, r@[p as int]@);
            }
            p = p + 1;
        }
        let ghost old_r = views(r@);
        proof {
            if p < r.len() {
                assert(lex_lt(x@, old_r[p as int]));
            }
        }
        r.insert(p, x.clone());
        proof {
            let nr = views(r@);
            assert(nr =~= old_r.insert(p as int, x@));
            lemma_multiset_insert(old_r, p as int, x@);
            assert(views(v@).take(i + 1) =~= views(v@).take(i as int).push(x@));
            assert forall|a: int, b: int| 0 <= a < b < nr.len() implies lex_le(
                #[trigger] nr[a],
                #[trigger] nr[b],
            ) by {
                if b < p {
                    assert(nr[a] == old_r[a] && nr[b] == old_r[b]);
                } else if b == p {
                    assert(nr[a] == old_r[a]);
                } else if a < p {
                    assert(nr[a] == old_r[a] && nr[b] == old_r[b - 1]);
                    lemma_lex_le_transitive(old_r[a], x@, old_r[p as int]);
                    if b - 1 > p {
                        lemma_lex_le_transitive(old_r[a], old_r[p as int], old_r[b - 1]);
                    }
                } else if a == p {
                    assert(nr[b] == old_r[b - 1]);
                    if b - 1 > p {
                        lemma_lex_le_transitive(x@, old_r[p as int], old_r[b - 1]);
                    }
                } else {
                    assert(nr[a] == old_r[a - 1] && nr[b] == old_r[b - 1]);
                }
            }
        }
        i = i + 1;
    }
    assert(views(v@).take(v.len() as int) =~= views(v@));
    r
}

} // verus!

verus! {

/// A sorted sequence with each run of equal strings kept once (`Vec::dedup` after a sort).
pub fn dedup_sorted(v: Vec<Vec<char>>) -> (r: Vec<Vec<char>>)
    requires
        sorted_lex(views(v@)),
    ensures
        strictly_sorted_lex(views(r@)),
        forall|x: Seq<char>| views(r@).contains(x) <==> views(v@).contains(x),
{
    let mut r: Vec<Vec<char>> = Vec::new();
    let mut i: usize = 0;
    while i < v.len()
        invariant
            i <= v.len(),
            sorted_lex(views(v@)),
            strictly_sorted_lex(views(r@)),
            i > 0 ==> r.len() > 0 && views(r@).last() == views(v@)[i - 1],
            i == 0 ==> r.len() == 0,
            forall|x: Seq<char>| views(r@).contains(x) <==> views(v@).take(i as int).contains(x),
        decreases v.len() - i,
    {
        let ghost old_r = views(r@);
        let ghost vv = views(v@);
        assert(forall|x: Seq<char>| #![trigger old_r.contains(x)] #![trigger vv.take(i as int).contains(x)] old_r.contains(x) <==> vv.take(i as int).contains(x));
        let fresh = if r.len() == 0 {
            true
        } else {
            !crate::text::chars_eq(&r[r.len() - 1], &v[i])
        };
        if fresh {
            proof {
                if i > 0 {
                    assert(lex_le(vv[i - 1], vv[i as int]));
                    assert forall|k: int| 0 <= k < old_r.len() implies lex_lt(
                        #[trigger] old_r[k],
                        vv[i as int],
                    ) by {
                        if k < old_r.len() - 1 {
                            assert(lex_lt(old_r[k], old_r[old_r.len() - 1]));
                            lemma_lex_transitive(old_r[k], old_r.last(), vv[i as int]);
                        }
                    }
                }
            }
            r.push(v[i].clone());
            proof {
                let nr = views(r@);
                assert(nr =~= old_r.push(vv[i as int]));
                assert forall|a: int, b: int| 0 <= a < b < nr.len() implies lex_lt(
                    #[trigger] nr[a],
                    #[trigger] nr[b],
                ) by {
                    if b < old_r.len() {
                        assert(nr[a] == old_r[a] && nr[b] == old_r[b]);
                    } else {
                        assert(nr[a] == old_r[a]);
                    }
                }
            }
        }
        proof {
            assert(vv.take(i + 1) =~= vv.take(i as int).push(vv[i as int]));
            assert forall|x: Seq<char>| views(r@).contains(x) <==> vv.take(i + 1).contains(x) by {
                let nr = views(r@);
                let t1 = vv.take(i + 1);
                let t0 = vv.take(i as int);
                if x == vv[i as int] {
                    assert(t1[i as int] == x);
                    assert(nr[nr.len() - 1] == x);
                } else {
                    if nr.contains(x) {
                        let k = choose|k: int| 0 <= k < nr.len() && #[trigger] nr[k] == x;
                        assert(old_r[k] == x);
                        assert(old_r.contains(x));
                        let m = choose|m: int| 0 <= m < t0.len() && #[trigger] t0[m] == x;
                        assert(t1[m] == x);
                    }
                    if t1.contains(x) {
                        let k = choose|k: int| 0 <= k < t1.len() && #[trigger] t1[k] == x;
                        assert(t0[k] == x);
                        assert(t0.contains(x));
                        assert(old_r.contains(x));
                        let m = choose|m: int| 0 <= m < old_r.len() && #[trigger] old_r[m] == x;
                        assert(nr[m] == x);
                    }
                }
            }
        }
        i = i + 1;
    }
    assert(views(v@).take(v.len() as int) =~= views(v@));
    r
}

} // verus!

verus! {

/// The strings in lexicographic order, each once.
pub fn sorted_unique(v: &Vec<String>) -> (r: Vec<String>)
    ensures
        strictly_sorted_lex(strs(r@)),
        forall|x: Seq<char>| strs(r@).contains(x) <==> strs(v@).contains(x),
{
    let c = chars_of_all(v);
    let s = sort_lex(c);
    proof {
        assert forall|x: Seq<char>| views(s@).contains(x) <==> strs(v@).contains(x) by {
            assert(views(s@).to_multiset().count(x) == strs(v@).to_multiset().count(x));
        }
    }
    let d = dedup_sorted(s);
    strings_of_all(&d)
}

/// The strings in lexicographic order (`slice::sort` on strings).
pub fn sorted_strings(v: &Vec<String>) -> (r: Vec<String>)
    ensures
        sorted_lex(strs(r@)),
        strs(r@).to_multiset() == strs(v@).to_multiset(),
{
    let c = chars_of_all(v);
    let s = sort_lex(c);
    strings_of_all(&s)
}

} // verus!
