use vstd::prelude::*;

verus! {

/// `String::push`. Claimed of it: the string afterwards is the one before with `c`
/// appended at the end, as its documentation states.
#[verifier::external_body]
pub(crate) fn push_char(s: &mut String, c: char)
    ensures
        final(s)@ == old(s)@.push(c),
{
    s.push(c);
}

/// The characters of a string slice, in order.
pub fn chars_of(s: &str) -> (v: Vec<char>)
    ensures
        v@ == s@,
{
    let mut v: Vec<char> = Vec::new();
    for c in it: s.chars()
        invariant
            v@ == it.seq().take(it.index() as int),
    {
        v.push(c);
    }
    v
}

/// A `String` holding the given characters.
pub fn string_of(v: &Vec<char>) -> (s: String)
    ensures
        s@ == v@,
{
    let mut s = String::new();
    for i in 0..v.len()
        invariant
            s@ == v@.take(i as int),
    {
        push_char(&mut s, v[i]);
        assert(v@.take(i + 1) == v@.take(i as int).push(v@[i as int]));
    }
    assert(v@.take(v.len() as int) == v@);
    s
}

} // verus!

verus! {

/// Unicode `White_Space`, the set that `char::is_whitespace` tests.
pub open spec fn is_ws(c: char) -> bool {
    ||| c == '\t' || c == '\n' || c == '\u{0B}' || c == '\u{0C}' || c == '\r' || c == ' '
    ||| c == '\u{85}' || c == '\u{A0}' || c == '\u{1680}'
    ||| ('\u{2000}' <= c && c <= '\u{200A}')
    ||| c == '\u{2028}' || c == '\u{2029}' || c == '\u{202F}' || c == '\u{205F}' || c == '\u{3000}'
}

pub fn is_whitespace(c: char) -> (b: bool)
    ensures
        b == is_ws(c),
{
    c == '\t' || c == '\n' || c == '\u{0B}' || c == '\u{0C}' || c == '\r' || c == ' '
        || c == '\u{85}' || c == '\u{A0}' || c == '\u{1680}' || ('\u{2000}' <= c && c
        <= '\u{200A}') || c == '\u{2028}' || c == '\u{2029}' || c == '\u{202F}' || c
        == '\u{205F}' || c == '\u{3000}'
}

/// Number of whitespace characters at the start of `s`.
pub open spec fn lead_ws(s: Seq<char>) -> nat
    decreases s.len(),
{
    if s.len() > 0 && is_ws(s[0]) {
        1 + lead_ws(s.drop_first())
    } else {
        0
    }
}

/// Number of whitespace characters at the end of `s`.
pub open spec fn trail_ws(s: Seq<char>) -> nat
    decreases s.len(),
{
    if s.len() > 0 && is_ws(s.last()) {
        1 + trail_ws(s.drop_last())
    } else {
        0
    }
}

/// `str::trim_start`.
pub open spec fn trim_start(s: Seq<char>) -> Seq<char> {
    s.skip(lead_ws(s) as int)
}

/// `str::trim_end`.
pub open spec fn trim_end(s: Seq<char>) -> Seq<char> {
    s.take(s.len() - trail_ws(s))
}

/// `str::trim`: whitespace removed from both ends.
pub open spec fn trim(s: Seq<char>) -> Seq<char> {
    trim_end(trim_start(s))
}

pub proof fn lemma_lead_ws(s: Seq<char>, i: int)
    requires
        0 <= i <= s.len(),
        forall|k: int| 0 <= k < i ==> is_ws(#[trigger] s[k]),
        i == s.len() || !is_ws(s[i]),
    ensures
        lead_ws(s) == i,
    decreases i,
{
    if i > 0 {
        lemma_lead_ws(s.drop_first(), i - 1);
    }
}

pub proof fn lemma_lead_ws_bound(s: Seq<char>)
    ensures
        lead_ws(s) <= s.len(),
        forall|k: int| 0 <= k < lead_ws(s) ==> is_ws(#[trigger] s[k]),
        lead_ws(s) == s.len() || !is_ws(s[lead_ws(s) as int]),
    decreases s.len(),
{
    if s.len() > 0 && is_ws(s[0]) {
        lemma_lead_ws_bound(s.drop_first());
        assert forall|k: int| 0 <= k < lead_ws(s) implies is_ws(#[trigger] s[k]) by {
            if k > 0 {
                assert(s[k] == s.drop_first()[k - 1]);
            }
        }
    }
}

pub proof fn lemma_trail_ws(s: Seq<char>, i: int)
    requires
        0 <= i <= s.len(),
        forall|k: int| s.len() - i <= k < s.len() ==> is_ws(#[trigger] s[k]),
        i == s.len() || !is_ws(s[s.len() - 1 - i]),
    ensures
        trail_ws(s) == i,
    decreases i,
{
    if i > 0 {
        let t = s.drop_last();
        assert forall|k: int| t.len() - (i - 1) <= k < t.len() implies is_ws(#[trigger] t[k]) by {
            assert(t[k] == s[k]);
        }
        if i - 1 < t.len() {
            assert(t[t.len() - 1 - (i - 1)] == s[s.len() - 1 - i]);
        }
        lemma_trail_ws(t, i - 1);
    }
}

pub proof fn lemma_trail_ws_bound(s: Seq<char>)
    ensures
        trail_ws(s) <= s.len(),
    decreases s.len(),
{
    if s.len() > 0 && is_ws(s.last()) {
        lemma_trail_ws_bound(s.drop_last());
    }
}

/// Bounds `(a, b)` such that `s[a..b]` is `s` trimmed.
pub fn trim_bounds(s: &Vec<char>) -> (r: (usize, usize))
    ensures
        r.0 <= r.1 <= s.len(),
        s@.subrange(r.0 as int, r.1 as int) == trim(s@),
{
    let mut a: usize = 0;
    while a < s.len() && is_whitespace(s[a])
        invariant
            a <= s.len(),
            forall|k: int| 0 <= k < a ==> is_ws(#[trigger] s@[k]),
        decreases s.len() - a,
    {
        a = a + 1;
    }
    proof {
        lemma_lead_ws(s@, a as int);
    }
    let ghost t = s@.skip(a as int);
    let mut b: usize = s.len();
    while b > a && is_whitespace(s[b - 1])
        invariant
            a <= b <= s.len(),
            t == s@.skip(a as int),
            forall|k: int| b <= k < s.len() ==> is_ws(#[trigger] s@[k]),
        decreases b,
    {
        b = b - 1;
    }
    proof {
        let i = (s.len() - b) as int;
        assert forall|k: int| t.len() - i <= k < t.len() implies is_ws(#[trigger] t[k]) by {
            assert(t[k] == s@[k + a]);
        }
        if i < t.len() {
            assert(t[t.len() - 1 - i] == s@[b - 1]);
        }
        lemma_trail_ws(t, i);
        assert(trim(s@) =~= s@.subrange(a as int, b as int));
    }
    (a, b)
}

/// The characters `v[a..b]`.
pub fn slice_vec(v: &Vec<char>, a: usize, b: usize) -> (r: Vec<char>)
    requires
        a <= b <= v.len(),
    ensures
        r@ == v@.subrange(a as int, b as int),
{
    let mut r: Vec<char> = Vec::new();
    let mut i = a;
    while i < b
        invariant
            a <= i <= b <= v.len(),
            r@ == v@.subrange(a as int, i as int),
        decreases b - i,
    {
        r.push(v[i]);
        i = i + 1;
        assert(r@ =~= v@.subrange(a as int, i as int));
    }
    r
}

} // verus!

verus! {

/// Index of the first `c` in `s`, or `s.len()` when there is none.
pub open spec fn index_of(s: Seq<char>, c: char) -> nat
    decreases s.len(),
{
    if s.len() == 0 {
        0
    } else if s[0] == c {
        0
    } else {
        1 + index_of(s.drop_first(), c)
    }
}

pub proof fn lemma_index_of(s: Seq<char>, c: char, i: int)
    requires
        0 <= i <= s.len(),
        forall|k: int| 0 <= k < i ==> #[trigger] s[k] != c,
        i == s.len() || s[i] == c,
    ensures
        index_of(s, c) == i,
    decreases i,
{
    if i > 0 {
        lemma_index_of(s.drop_first(), c, i - 1);
    }
}

pub proof fn lemma_index_of_bound(s: Seq<char>, c: char)
    ensures
        index_of(s, c) <= s.len(),
        forall|k: int| 0 <= k < index_of(s, c) ==> #[trigger] s[k] != c,
        index_of(s, c) < s.len() ==> s[index_of(s, c) as int] == c,
    decreases s.len(),
{
    if s.len() > 0 && s[0] != c {
        lemma_index_of_bound(s.drop_first(), c);
        assert forall|k: int| 0 <= k < index_of(s, c) implies #[trigger] s[k] != c by {
            if k > 0 {
                assert(s[k] == s.drop_first()[k - 1]);
            }
        }
    }
}

/// A line without its `'\r'` when it ends in one.
pub open spec fn strip_cr(l: Seq<char>) -> Seq<char> {
    if l.len() > 0 && l.last() == '\r' {
        l.drop_last()
    } else {
        l
    }
}

/// `str::lines`: split at `'\n'`; a `'\r'` just before a `'\n'` is dropped, a final line
/// ending is optional, and an empty string has no lines.
pub open spec fn lines(s: Seq<char>) -> Seq<Seq<char>>
    decreases s.len(),
{
    if s.len() == 0 {
        seq![]
    } else {
        let i = index_of(s, '\n');
        if i < s.len() {
            seq![strip_cr(s.take(i as int))] + lines(s.skip((i + 1) as int))
        } else {
            seq![s]
        }
    }
}

/// Index of the first whitespace character of `s`, or `s.len()`.
pub open spec fn word_len(s: Seq<char>) -> nat
    decreases s.len(),
{
    if s.len() == 0 {
        0
    } else if is_ws(s[0]) {
        0
    } else {
        1 + word_len(s.drop_first())
    }
}

pub proof fn lemma_word_len(s: Seq<char>, i: int)
    requires
        0 <= i <= s.len(),
        forall|k: int| 0 <= k < i ==> !is_ws(#[trigger] s[k]),
        i == s.len() || is_ws(s[i]),
    ensures
        word_len(s) == i,
    decreases i,
{
    if i > 0 {
        lemma_word_len(s.drop_first(), i - 1);
    }
}

pub proof fn lemma_word_len_bound(s: Seq<char>)
    ensures
        word_len(s) <= s.len(),
        forall|k: int| 0 <= k < word_len(s) ==> !is_ws(#[trigger] s[k]),
        word_len(s) < s.len() ==> is_ws(s[word_len(s) as int]),
    decreases s.len(),
{
    if s.len() > 0 && !is_ws(s[0]) {
        lemma_word_len_bound(s.drop_first());
        assert forall|k: int| 0 <= k < word_len(s) implies !is_ws(#[trigger] s[k]) by {
            if k > 0 {
                assert(s[k] == s.drop_first()[k - 1]);
            }
        }
    }
}

/// `str::split_whitespace`: the maximal runs of non-whitespace characters.
pub open spec fn words(s: Seq<char>) -> Seq<Seq<char>>
    decreases s.len(),
{
    let t = trim_start(s);
    if t.len() == 0 {
        seq![]
    } else {
        let k = word_len(t);
        if 0 < k <= t.len() && t.len() <= s.len() {
            seq![t.take(k as int)] + words(t.skip(k as int))
        } else {
            seq![]
        }
    }
}

pub proof fn lemma_words_unfold(s: Seq<char>)
    ensures
        trim_start(s).len() > 0 ==> words(s) == seq![trim_start(s).take(
            word_len(trim_start(s)) as int,
        )] + words(trim_start(s).skip(word_len(trim_start(s)) as int)),
        trim_start(s).len() > 0 ==> 0 < word_len(trim_start(s)) <= trim_start(s).len(),
        trim_start(s).len() == 0 ==> words(s) == Seq::<Seq<char>>::empty(),
{
    lemma_lead_ws_bound(s);
    let t = trim_start(s);
    if t.len() > 0 {
        assert(t[0] == s[lead_ws(s) as int]);
        lemma_word_len_bound(t);
    }
}

} // verus!

verus! {

/// The character sequences held by a vector of character vectors.
pub open spec fn views(v: Seq<Vec<char>>) -> Seq<Seq<char>> {
    v.map_values(|l: Vec<char>| l@)
}

pub proof fn lemma_views_push(v: Seq<Vec<char>>, x: Vec<char>)
    ensures
        views(v.push(x)) == views(v).push(x@),
{
    assert(views(v.push(x)) =~= views(v).push(x@));
}

/// Index of the first `c` in `s` at or after `from`, or `s.len()`.
pub fn find_char(s: &Vec<char>, from: usize, c: char) -> (j: usize)
    requires
        from <= s.len(),
    ensures
        from <= j <= s.len(),
        j - from == index_of(s@.skip(from as int), c),
{
    let mut j = from;
    while j < s.len() && s[j] != c
        invariant
            from <= j <= s.len(),
            forall|k: int| from <= k < j ==> #[trigger] s@[k] != c,
        decreases s.len() - j,
    {
        j = j + 1;
    }
    proof {
        let u = s@.skip(from as int);
        assert forall|k: int| 0 <= k < j - from implies #[trigger] u[k] != c by {
            assert(u[k] == s@[k + from]);
        }
        if j < s.len() {
            assert(u[j - from] == s@[j as int]);
        }
        lemma_index_of(u, c, j - from);
    }
    j
}

/// `str::lines` on a character vector.
pub fn lines_of(s: &Vec<char>) -> (out: Vec<Vec<char>>)
    ensures
        views(out@) == lines(s@),
{
    let mut out: Vec<Vec<char>> = Vec::new();
    let mut i: usize = 0;
    assert(s@.skip(0) =~= s@);
    while i < s.len()
        invariant
            i <= s.len(),
            lines(s@) == views(out@) + lines(s@.skip(i as int)),
        decreases s.len() - i,
    {
        let ghost u = s@.skip(i as int);
        let j = find_char(s, i, '\n');
        let ghost old_out = out@;
        if j < s.len() {
            let mut line = slice_vec(s, i, j);
            if line.len() > 0 && line[line.len() - 1] == '\r' {
                line.pop();
            }
            proof {
                assert(u.take((j - i) as int) =~= s@.subrange(i as int, j as int));
                assert(u.skip((j - i + 1) as int) =~= s@.skip(j + 1));
                assert(line@ == strip_cr(u.take((j - i) as int)));
                lemma_views_push(old_out, line);
            }
            out.push(line);
            i = j + 1;
        } else {
            let line = slice_vec(s, i, s.len());
            proof {
                assert(line@ =~= u);
                lemma_views_push(old_out, line);
                assert(s@.skip(s.len() as int) =~= Seq::<char>::empty());
            }
            out.push(line);
            i = s.len();
        }
        assert(lines(s@) == views(out@) + lines(s@.skip(i as int)));
    }
    assert(s@.skip(i as int) =~= Seq::<char>::empty());
    assert(views(out@) + Seq::<Seq<char>>::empty() =~= views(out@));
    out
}

} // verus!

verus! {

/// `str::split_whitespace` on a character vector.
pub fn words_of(s: &Vec<char>) -> (out: Vec<Vec<char>>)
    ensures
        views(out@) == words(s@),
{
    let mut out: Vec<Vec<char>> = Vec::new();
    let mut i: usize = 0;
    assert(s@.skip(0) =~= s@);
    loop
        invariant
            i <= s.len(),
            words(s@) == views(out@) + words(s@.skip(i as int)),
        decreases s.len() - i,
    {
        let ghost u = s@.skip(i as int);
        let mut a = i;
        while a < s.len() && is_whitespace(s[a])
            invariant
                i <= a <= s.len(),
                forall|k: int| i <= k < a ==> is_ws(#[trigger] s@[k]),
            decreases s.len() - a,
        {
            a = a + 1;
        }
        proof {
            assert forall|k: int| 0 <= k < a - i implies is_ws(#[trigger] u[k]) by {
                assert(u[k] == s@[k + i]);
            }
            if a < s.len() {
                assert(u[a - i] == s@[a as int]);
            }
            lemma_lead_ws(u, a - i);
            lemma_words_unfold(u);
        }
        if a == s.len() {
            proof {
                assert(trim_start(u).len() == 0);
                assert(views(out@) + Seq::<Seq<char>>::empty() =~= views(out@));
            }
            return out;
        }
        let mut b = a;
        while b < s.len() && !is_whitespace(s[b])
            invariant
                a <= b <= s.len(),
                forall|k: int| a <= k < b ==> !is_ws(#[trigger] s@[k]),
            decreases s.len() - b,
        {
            b = b + 1;
        }
        let ghost t = trim_start(u);
        proof {
            assert(t =~= s@.skip(a as int));
            assert forall|k: int| 0 <= k < b - a implies !is_ws(#[trigger] t[k]) by {
                assert(t[k] == s@[k + a]);
            }
            if b < s.len() {
                assert(t[b - a] == s@[b as int]);
            }
            lemma_word_len(t, b - a);
            assert(t.take(b - a) =~= s@.subrange(a as int, b as int));
            assert(t.skip(b - a) =~= s@.skip(b as int));
        }
        let w = slice_vec(s, a, b);
        proof {
            lemma_views_push(out@, w);
        }
        out.push(w);
        i = b;
    }
}

/// Whether `p` is a prefix of `s`.
pub fn starts_with(s: &Vec<char>, p: &Vec<char>) -> (b: bool)
    ensures
        b == p@.is_prefix_of(s@),
{
    if p.len() > s.len() {
        return false;
    }
    let mut i: usize = 0;
    while i < p.len()
        invariant
            p.len() <= s.len(),
            i <= p.len(),
            forall|k: int| 0 <= k < i ==> s@[k] == p@[k],
        decreases p.len() - i,
    {
        if s[i] != p[i] {
            assert(s@.subrange(0, p.len() as int)[i as int] != p@[i as int]);
            return false;
        }
        i = i + 1;
    }
    assert(p@ =~= s@.subrange(0, p.len() as int));
    true
}

/// Whether `p` is a suffix of `s`.
pub fn ends_with(s: &Vec<char>, p: &Vec<char>) -> (b: bool)
    ensures
        b == p@.is_suffix_of(s@),
{
    if p.len() > s.len() {
        return false;
    }
    let off = s.len() - p.len();
    let mut i: usize = 0;
    while i < p.len()
        invariant
            p.len() <= s.len(),
            off == s.len() - p.len(),
            i <= p.len(),
            forall|k: int| 0 <= k < i ==> s@[off + k] == p@[k],
        decreases p.len() - i,
    {
        if s[off + i] != p[i] {
            assert(s@.subrange(off as int, s.len() as int)[i as int] != p@[i as int]);
            return false;
        }
        i = i + 1;
    }
    assert(p@ =~= s@.subrange(off as int, s.len() as int));
    true
}

/// Whether `p` occurs in `s` starting at index `i`.
pub open spec fn occurs_at(s: Seq<char>, p: Seq<char>, i: int) -> bool {
    0 <= i && i + p.len() <= s.len() && s.subrange(i, i + p.len()) == p
}

/// `str::contains` with a string pattern.
pub open spec fn contains_seq(s: Seq<char>, p: Seq<char>) -> bool {
    exists|i: int| occurs_at(s, p, i)
}

/// Whether `p` occurs in `s`.
pub fn contains(s: &Vec<char>, p: &Vec<char>) -> (b: bool)
    ensures
        b == contains_seq(s@, p@),
{
    if p.len() > s.len() {
        return false;
    }
    let mut i: usize = 0;
    while i <= s.len() - p.len()
        invariant
            p.len() <= s.len(),
            i <= s.len() - p.len() + 1,
            forall|k: int| 0 <= k < i ==> !occurs_at(s@, p@, k),
        decreases s.len() - i,
    {
        let mut j: usize = 0;
        let mut ok = true;
        while j < p.len()
            invariant
                i + p.len() <= s.len(),
                j <= p.len(),
                ok == forall|k: int| 0 <= k < j ==> s@[i + k] == p@[k],
            decreases p.len() - j,
        {
            if s[i + j] != p[j] {
                ok = false;
            }
            j = j + 1;
        }
        if ok {
            assert(s@.subrange(i as int, i + p.len()) =~= p@);
            assert(occurs_at(s@, p@, i as int));
            return true;
        }
        assert(!occurs_at(s@, p@, i as int)) by {
            if s@.subrange(i as int, i + p.len()) == p@ {
                assert forall|k: int| 0 <= k < p.len() implies s@[i + k] == p@[k] by {
                    assert(s@.subrange(i as int, i + p.len())[k] == s@[i + k]);
                }
            }
        }
        i = i + 1;
    }
    assert forall|k: int| !occurs_at(s@, p@, k) by {
        if 0 <= k < i {
        }
    }
    false
}

/// Equality of two character vectors.
pub fn chars_eq(a: &Vec<char>, b: &Vec<char>) -> (r: bool)
    ensures
        r == (a@ == b@),
{
    if a.len() != b.len() {
        return false;
    }
    let mut i: usize = 0;
    while i < a.len()
        invariant
            a.len() == b.len(),
            i <= a.len(),
            forall|k: int| 0 <= k < i ==> a@[k] == b@[k],
        decreases a.len() - i,
    {
        if a[i] != b[i] {
            return false;
        }
        i = i + 1;
    }
    assert(a@ =~= b@);
    true
}

} // verus!

verus! {

/// The character sequences held by a vector of strings.
pub open spec fn strs(v: Seq<String>) -> Seq<Seq<char>> {
    v.map_values(|s: String| s@)
}

pub proof fn lemma_strs_push(v: Seq<String>, x: String)
    ensures
        strs(v.push(x)) == strs(v).push(x@),
{
    assert(strs(v.push(x)) =~= strs(v).push(x@));
}

/// Appends the characters of `v` to `s`.
pub fn append_chars(s: &mut String, v: &Vec<char>)
    ensures
        final(s)@ == old(s)@ + v@,
{
    let ghost s0 = s@;
    for i in 0..v.len()
        invariant
            s@ == s0 + v@.take(i as int),
    {
        push_char(s, v[i]);
        assert(v@.take(i + 1) == v@.take(i as int).push(v@[i as int]));
        assert(s0 + v@.take(i + 1) =~= (s0 + v@.take(i as int)).push(v@[i as int]));
    }
    assert(v@.take(v.len() as int) =~= v@);
}

/// The characters of each string, in order.
pub fn chars_of_all(v: &Vec<String>) -> (r: Vec<Vec<char>>)
    ensures
        views(r@) == strs(v@),
{
    let mut r: Vec<Vec<char>> = Vec::new();
    for i in 0..v.len()
        invariant
            views(r@) == strs(v@).take(i as int),
    {
        let c = chars_of(v[i].as_str());
        proof {
            lemma_views_push(r@, c);
            assert(strs(v@).take(i + 1) =~= strs(v@).take(i as int).push(v@[i as int]@));
        }
        r.push(c);
    }
    assert(strs(v@).take(v.len() as int) =~= strs(v@));
    r
}

/// A string for each character vector, in order.
pub fn strings_of_all(v: &Vec<Vec<char>>) -> (r: Vec<String>)
    ensures
        strs(r@) == views(v@),
{
    let mut r: Vec<String> = Vec::new();
    for i in 0..v.len()
        invariant
            strs(r@) == views(v@).take(i as int),
    {
        let s = string_of(&v[i]);
        proof {
            lemma_strs_push(r@, s);
            assert(views(v@).take(i + 1) =~= views(v@).take(i as int).push(v@[i as int]@));
        }
        r.push(s);
    }
    assert(views(v@).take(v.len() as int) =~= views(v@));
    r
}

pub open spec fn is_digit(c: char) -> bool {
    '0' <= c && c <= '9'
}

/// Every character is an ASCII digit (true of the empty sequence).
pub open spec fn all_digits(s: Seq<char>) -> bool {
    forall|i: int| 0 <= i < s.len() ==> is_digit(#[trigger] s[i])
}

/// Whether `v[a..b]` holds only ASCII digits.
pub fn digits_between(v: &Vec<char>, a: usize, b: usize) -> (r: bool)
    requires
        a <= b <= v.len(),
    ensures
        r == all_digits(v@.subrange(a as int, b as int)),
{
    let mut i = a;
    while i < b
        invariant
            a <= i <= b <= v.len(),
            forall|k: int| a <= k < i ==> is_digit(#[trigger] v@[k]),
        decreases b - i,
    {
        if !('0' <= v[i] && v[i] <= '9') {
            assert(v@.subrange(a as int, b as int)[i - a] == v@[i as int]);
            return false;
        }
        i = i + 1;
    }
    assert forall|k: int| 0 <= k < b - a implies is_digit(
        #[trigger] v@.subrange(a as int, b as int)[k],
    ) by {
        assert(v@.subrange(a as int, b as int)[k] == v@[a + k]);
    }
    true
}

/// `s` trimmed, as characters.
pub fn trimmed(s: &str) -> (r: Vec<char>)
    ensures
        r@ == trim(s@),
{
    let v = chars_of(s);
    let (a, b) = trim_bounds(&v);
    slice_vec(&v, a, b)
}

} // verus!

verus! {

/// A sequence with no whitespace at either end is its own trim.
pub proof fn lemma_trim_of_trimmed(t: Seq<char>)
    requires
        t.len() > 0 ==> !is_ws(t[0]) && !is_ws(t.last()),
    ensures
        trim(t) == t,
{
    lemma_lead_ws(t, 0);
    assert(t.skip(0) =~= t);
    lemma_trail_ws(t, 0);
    assert(t.take(t.len() as int) =~= t);
}

/// A trimmed sequence has no whitespace at either end.
pub proof fn lemma_trim_ends(s: Seq<char>)
    ensures
        trim(s).len() > 0 ==> !is_ws(trim(s)[0]) && !is_ws(trim(s).last()),
        trim(s).len() <= s.len(),
{
    lemma_lead_ws_bound(s);
    let u = trim_start(s);
    lemma_trail_ws_bound(u);
    let t = trim(s);
    if t.len() > 0 {
        assert(t[0] == s[lead_ws(s) as int]);
        // the last kept character is not trailing whitespace
        let n = trail_ws(u);
        if is_ws(t.last()) {
            let m = u.len() - n - 1;
            assert(t.last() == u[m]);
            assert forall|k: int| u.len() - (n + 1) <= k < u.len() implies is_ws(#[trigger] u[k]) by {
                lemma_trail_ws_suffix(u);
                if k > m {
                } else {
                    assert(k == m);
                }
            }
            lemma_trail_ws_max(u, (n + 1) as int);
        }
    }
}

proof fn lemma_trail_ws_suffix(s: Seq<char>)
    ensures
        trail_ws(s) <= s.len(),
        forall|k: int| s.len() - trail_ws(s) <= k < s.len() ==> is_ws(#[trigger] s[k]),
    decreases s.len(),
{
    if s.len() > 0 && is_ws(s.last()) {
        let t = s.drop_last();
        lemma_trail_ws_suffix(t);
        assert forall|k: int| s.len() - trail_ws(s) <= k < s.len() implies is_ws(#[trigger] s[k]) by {
            if k < s.len() - 1 {
                assert(s[k] == t[k]);
            }
        }
    }
}

/// `trail_ws` counts every trailing whitespace character.
proof fn lemma_trail_ws_max(s: Seq<char>, i: int)
    requires
        0 <= i <= s.len(),
        forall|k: int| s.len() - i <= k < s.len() ==> is_ws(#[trigger] s[k]),
    ensures
        trail_ws(s) >= i,
    decreases i,
{
    if i > 0 {
        let t = s.drop_last();
        assert forall|k: int| t.len() - (i - 1) <= k < t.len() implies is_ws(#[trigger] t[k]) by {
            assert(t[k] == s[k]);
        }
        lemma_trail_ws_max(t, i - 1);
        assert(is_ws(s[s.len() - 1]));
    }
}

} // verus!

verus! {

/// The pieces joined with `sep` between them (`[T]::join`).
pub open spec fn join_sep(ls: Seq<Seq<char>>, sep: Seq<char>) -> Seq<char>
    decreases ls.len(),
{
    if ls.len() == 0 {
        seq![]
    } else if ls.len() == 1 {
        ls[0]
    } else {
        join_sep(ls.drop_last(), sep) + sep + ls.last()
    }
}

/// The pieces joined with `sep` between them.
pub fn join_with(ls: &Vec<Vec<char>>, sep: &Vec<char>) -> (r: Vec<char>)
    ensures
        r@ == join_sep(views(ls@), sep@),
{
    let mut r: Vec<char> = Vec::new();
    for i in 0..ls.len()
        invariant
            r@ == join_sep(views(ls@).take(i as int), sep@),
    {
        let ghost before = r@;
        if i > 0 {
            let mut k: usize = 0;
            while k < sep.len()
                invariant
                    k <= sep.len(),
                    r@ == before + sep@.take(k as int),
                decreases sep.len() - k,
            {
                r.push(sep[k]);
                k = k + 1;
                assert(r@ =~= before + sep@.take(k as int));
            }
        }
        let ghost mid = r@;
        let line = &ls[i];
        let mut k: usize = 0;
        while k < line.len()
            invariant
                k <= line.len(),
                r@ == mid + line@.take(k as int),
            decreases line.len() - k,
        {
            r.push(line[k]);
            k = k + 1;
            assert(r@ =~= mid + line@.take(k as int));
        }
        proof {
            let t = views(ls@).take(i + 1);
            assert(t.drop_last() =~= views(ls@).take(i as int));
            assert(t.last() == line@);
            assert(line@.take(line@.len() as int) =~= line@);
            assert(sep@.take(sep@.len() as int) =~= sep@);
            if i == 0 {
                assert(r@ =~= t[0]);
            }
        }
    }
    assert(views(ls@).take(ls.len() as int) =~= views(ls@));
    r
}

/// `s` with every leading `c` removed (`str::trim_start_matches` with a char).
pub open spec fn strip_leading(s: Seq<char>, c: char) -> Seq<char>
    decreases s.len(),
{
    if s.len() > 0 && s[0] == c {
        strip_leading(s.drop_first(), c)
    } else {
        s
    }
}

/// `s` with every trailing `c` removed (`str::trim_end_matches` with a char).
pub open spec fn strip_trailing(s: Seq<char>, c: char) -> Seq<char>
    decreases s.len(),
{
    if s.len() > 0 && s.last() == c {
        strip_trailing(s.drop_last(), c)
    } else {
        s
    }
}

/// `s` with every trailing ASCII digit removed.
pub open spec fn strip_trailing_digits(s: Seq<char>) -> Seq<char>
    decreases s.len(),
{
    if s.len() > 0 && is_digit(s.last()) {
        strip_trailing_digits(s.drop_last())
    } else {
        s
    }
}

/// `s` with the prefix `p` removed as many times as it repeats
/// (`str::trim_start_matches` with a non-empty string).
pub open spec fn strip_prefix_repeated(s: Seq<char>, p: Seq<char>) -> Seq<char>
    decreases s.len(),
{
    if p.len() > 0 && p.is_prefix_of(s) {
        strip_prefix_repeated(s.skip(p.len() as int), p)
    } else {
        s
    }
}

/// `s` without its leading `c`s.
pub fn strip_leading_char(s: &Vec<char>, c: char) -> (r: Vec<char>)
    ensures
        r@ == strip_leading(s@, c),
{
    let mut a: usize = 0;
    assert(s@.skip(0) =~= s@);
    while a < s.len() && s[a] == c
        invariant
            a <= s.len(),
            strip_leading(s@, c) == strip_leading(s@.skip(a as int), c),
        decreases s.len() - a,
    {
        assert(s@.skip(a as int).drop_first() =~= s@.skip(a + 1));
        a = a + 1;
    }
    assert(s@.skip(a as int) =~= s@.subrange(a as int, s.len() as int));
    slice_vec(s, a, s.len())
}

/// `s` without its trailing `c`s.
pub fn strip_trailing_char(s: &Vec<char>, c: char) -> (r: Vec<char>)
    ensures
        r@ == strip_trailing(s@, c),
{
    let mut b: usize = s.len();
    assert(s@.take(s.len() as int) =~= s@);
    while b > 0 && s[b - 1] == c
        invariant
            b <= s.len(),
            strip_trailing(s@, c) == strip_trailing(s@.take(b as int), c),
        decreases b,
    {
        assert(s@.take(b as int).drop_last() =~= s@.take(b - 1));
        b = b - 1;
    }
    assert(s@.take(b as int) =~= s@.subrange(0, b as int));
    slice_vec(s, 0, b)
}

/// `s` without its trailing digits.
pub fn strip_trailing_digit_chars(s: &Vec<char>) -> (r: Vec<char>)
    ensures
        r@ == strip_trailing_digits(s@),
{
    let mut b: usize = s.len();
    assert(s@.take(s.len() as int) =~= s@);
    while b > 0 && '0' <= s[b - 1] && s[b - 1] <= '9'
        invariant
            b <= s.len(),
            strip_trailing_digits(s@) == strip_trailing_digits(s@.take(b as int)),
        decreases b,
    {
        assert(s@.take(b as int).drop_last() =~= s@.take(b - 1));
        b = b - 1;
    }
    assert(s@.take(b as int) =~= s@.subrange(0, b as int));
    slice_vec(s, 0, b)
}

/// `s` without the repetitions of `p` it starts with.
pub fn strip_prefix_all(s: &Vec<char>, p: &Vec<char>) -> (r: Vec<char>)
    requires
        p.len() > 0,
    ensures
        r@ == strip_prefix_repeated(s@, p@),
{
    let mut cur = slice_vec(s, 0, s.len());
    assert(cur@ =~= s@);
    loop
        invariant
            p.len() > 0,
            strip_prefix_repeated(s@, p@) == strip_prefix_repeated(cur@, p@),
        decreases cur.len(),
    {
        if starts_with(&cur, p) {
            let next = slice_vec(&cur, p.len(), cur.len());
            assert(next@ =~= cur@.skip(p.len() as int));
            cur = next;
        } else {
            return cur;
        }
    }
}

} // verus!

verus! {

/// `str::len`, the length in bytes (UTF-8), of a string with these characters.
pub open spec fn byte_len(s: Seq<char>) -> usize {
    vstd::utf8::encode_utf8(s).len() as usize
}

} // verus!

verus! {

/// `s` without its leading whitespace.
pub fn trim_start_chars(s: &Vec<char>) -> (r: Vec<char>)
    ensures
        r@ == trim_start(s@),
{
    let mut a: usize = 0;
    while a < s.len() && is_whitespace(s[a])
        invariant
            a <= s.len(),
            forall|k: int| 0 <= k < a ==> is_ws(#[trigger] s@[k]),
        decreases s.len() - a,
    {
        a = a + 1;
    }
    proof {
        lemma_lead_ws(s@, a as int);
        assert(s@.skip(a as int) =~= s@.subrange(a as int, s.len() as int));
    }
    slice_vec(s, a, s.len())
}

/// The characters of a string slice of strings.
pub fn chars_of_slice(v: &[String]) -> (r: Vec<Vec<char>>)
    ensures
        views(r@) == strs(v@),
{
    let mut r: Vec<Vec<char>> = Vec::new();
    for i in 0..v.len()
        invariant
            views(r@) == strs(v@).take(i as int),
    {
        let c = chars_of(v[i].as_str());
        proof {
            lemma_views_push(r@, c);
            assert(strs(v@).take(i + 1) =~= strs(v@).take(i as int).push(v@[i as int]@));
        }
        r.push(c);
    }
    assert(strs(v@).take(v.len() as int) =~= strs(v@));
    r
}

/// Whether `x` is among the strings.
pub fn contains_string(v: &[String], x: &str) -> (b: bool)
    ensures
        b == strs(v@).contains(x@),
{
    let xc = chars_of(x);
    let mut i: usize = 0;
    while i < v.len()
        invariant
            i <= v.len(),
            xc@ == x@,
            forall|k: int| 0 <= k < i ==> #[trigger] strs(v@)[k] != x@,
        decreases v.len() - i,
    {
        if chars_eq(&chars_of(v[i].as_str()), &xc) {
            assert(strs(v@)[i as int] == x@);
            return true;
        }
        i = i + 1;
    }
    false
}

/// The lines joined with `'\n'` between them and one after the last, as the
/// configuration files are written back.
pub open spec fn lines_text(ls: Seq<Seq<char>>) -> Seq<char> {
    join_sep(ls, "\n"@) + "\n"@
}

/// The lines written back as text.
pub fn text_of_lines(ls: &Vec<Vec<char>>) -> (r: String)
    ensures
        r@ == lines_text(views(ls@)),
{
    let nl = chars_of("\n");
    let j = join_with(ls, &nl);
    let mut r = string_of(&j);
    r.append("\n");
    r
}

} // verus!

verus! {

/// Whether the sequence holds no `'\n'` and does not end in `'\r'`: a line that reads back
/// unchanged once written with a line break after it.
pub open spec fn plain_line(l: Seq<char>) -> bool {
    &&& forall|k: int| 0 <= k < l.len() ==> #[trigger] l[k] != '\n'
    &&& !(l.len() > 0 && l.last() == '\r')
}

/// No line of `lines(s)` holds a `'\n'`.
pub proof fn lemma_lines_no_newline(s: Seq<char>)
    ensures
        forall|j: int, k: int|
            0 <= j < lines(s).len() && 0 <= k < lines(s)[j].len() ==> #[trigger] lines(s)[j][k]
                != '\n',
    decreases s.len(),
{
    if s.len() > 0 {
        let i = index_of(s, '\n');
        lemma_index_of_bound(s, '\n');
        if i < s.len() {
            let rest = s.skip((i + 1) as int);
            lemma_lines_no_newline(rest);
            let first = strip_cr(s.take(i as int));
            assert forall|j: int, k: int|
                0 <= j < lines(s).len() && 0 <= k < lines(s)[j].len() implies #[trigger] lines(
                s,
            )[j][k] != '\n' by {
                if j == 0 {
                    assert(lines(s)[0] == first);
                    assert(first[k] == s[k]);
                } else {
                    assert(lines(s)[j] == lines(rest)[j - 1]);
                }
            }
        }
    }
}

proof fn lemma_join_front(x: Seq<char>, rest: Seq<Seq<char>>, sep: Seq<char>)
    requires
        rest.len() > 0,
    ensures
        join_sep(seq![x] + rest, sep) == x + sep + join_sep(rest, sep),
    decreases rest.len(),
{
    let xs = seq![x] + rest;
    if rest.len() == 1 {
        assert(xs.drop_last() =~= seq![x]);
        assert(xs.last() == rest[0]);
        assert(join_sep(seq![x], sep) == x);
        assert(join_sep(rest, sep) == rest[0]);
        assert(join_sep(xs, sep) =~= x + sep + join_sep(rest, sep));
    } else {
        lemma_join_front(x, rest.drop_last(), sep);
        assert(xs.drop_last() =~= seq![x] + rest.drop_last());
        assert(xs.last() == rest.last());
        assert(join_sep(xs, sep) =~= x + sep + join_sep(rest, sep));
    }
}

/// Lines that hold no line break and do not end in `'\r'` read back unchanged once
/// written out with a line break after each.
pub proof fn lemma_lines_of_lines_text(xs: Seq<Seq<char>>)
    requires
        xs.len() > 0,
        forall|j: int| 0 <= j < xs.len() ==> plain_line(#[trigger] xs[j]),
    ensures
        lines(lines_text(xs)) == xs,
    decreases xs.len(),
{
    reveal_strlit("\n");
    let x = xs[0];
    let rest = xs.drop_first();
    assert(plain_line(x));
    let t = lines_text(xs);
    let tail = if rest.len() == 0 {
        Seq::<char>::empty()
    } else {
        lines_text(rest)
    };
    if rest.len() == 0 {
        assert(xs =~= seq![x]);
        assert(t =~= x + "\n"@);
    } else {
        assert(xs =~= seq![x] + rest);
        lemma_join_front(x, rest, "\n"@);
        assert(t =~= x + "\n"@ + tail);
    }
    assert(t =~= x + "\n"@ + tail);
    assert forall|k: int| 0 <= k < x.len() implies #[trigger] t[k] != '\n' by {
        assert(t[k] == x[k]);
    }
    assert(t[x.len() as int] == '\n');
    lemma_index_of(t, '\n', x.len() as int);
    assert(t.take(x.len() as int) =~= x);
    assert(t.skip((x.len() + 1) as int) =~= tail);
    if rest.len() == 0 {
        assert(lines(t) =~= seq![x] + lines(Seq::<char>::empty()));
    } else {
        assert forall|j: int| 0 <= j < rest.len() implies plain_line(#[trigger] rest[j]) by {
            assert(rest[j] == xs[j + 1]);
        }
        lemma_lines_of_lines_text(rest);
        assert(lines(t) =~= seq![x] + rest);
    }
}

} // verus!

verus! {

/// A word: non-empty and without whitespace.
pub open spec fn is_word(w: Seq<char>) -> bool {
    w.len() > 0 && forall|k: int| 0 <= k < w.len() ==> !is_ws(#[trigger] w[k])
}

/// Every piece that `words` gives is a word.
pub proof fn lemma_words_are_words(s: Seq<char>)
    ensures
        forall|j: int| 0 <= j < words(s).len() ==> is_word(#[trigger] words(s)[j]),
    decreases s.len(),
{
    lemma_words_unfold(s);
    lemma_lead_ws_bound(s);
    let t = trim_start(s);
    if t.len() > 0 {
        let k = word_len(t);
        lemma_word_len_bound(t);
        let rest = t.skip(k as int);
        lemma_words_are_words(rest);
        let w0 = t.take(k as int);
        assert(is_word(w0)) by {
            assert forall|i: int| 0 <= i < w0.len() implies !is_ws(#[trigger] w0[i]) by {
                assert(w0[i] == t[i]);
            }
        }
        assert forall|j: int| 0 <= j < words(s).len() implies is_word(#[trigger] words(s)[j]) by {
            if j > 0 {
                assert(words(s)[j] == words(rest)[j - 1]);
            }
        }
    }
}

/// `words` looks only at what follows the leading whitespace.
proof fn lemma_words_trim_start(a: Seq<char>, b: Seq<char>)
    requires
        trim_start(a) == trim_start(b),
    ensures
        words(a) == words(b),
{
    lemma_words_unfold(a);
    lemma_words_unfold(b);
}

/// A word is its own only word.
proof fn lemma_words_of_word(w: Seq<char>)
    requires
        is_word(w),
    ensures
        words(w) == seq![w],
{
    lemma_lead_ws(w, 0);
    assert(w.skip(0) =~= w);
    lemma_words_unfold(w);
    lemma_word_len(w, w.len() as int);
    assert(w.take(w.len() as int) =~= w);
    assert(w.skip(w.len() as int) =~= Seq::<char>::empty());
    let e = Seq::<char>::empty();
    lemma_lead_ws(e, 0);
    lemma_words_unfold(e);
    assert(seq![w] + Seq::<Seq<char>>::empty() =~= seq![w]);
}

/// A word followed by a space and more text: that word, then the words of the rest.
proof fn lemma_words_front(w: Seq<char>, r: Seq<char>)
    requires
        is_word(w),
    ensures
        words(w + " "@ + r) == seq![w] + words(r),
{
    reveal_strlit(" ");
    let s = w + " "@ + r;
    lemma_lead_ws(s, 0);
    assert(s.skip(0) =~= s);
    assert forall|k: int| 0 <= k < w.len() implies !is_ws(#[trigger] s[k]) by {
        assert(s[k] == w[k]);
    }
    assert(s[w.len() as int] == ' ');
    lemma_word_len(s, w.len() as int);
    lemma_words_unfold(s);
    assert(s.take(w.len() as int) =~= w);
    let rest = s.skip(w.len() as int);
    assert(rest =~= " "@ + r);
    assert(rest.drop_first() =~= r);
    assert(lead_ws(rest) == 1 + lead_ws(r));
    lemma_lead_ws_bound(r);
    assert forall|i: int| 0 <= i < trim_start(r).len() implies #[trigger] trim_start(rest)[i]
        == trim_start(r)[i] by {
        assert(trim_start(rest)[i] == rest[i + 1 + lead_ws(r)]);
        assert(rest[i + 1 + lead_ws(r)] == r[i + lead_ws(r)]);
    }
    assert(trim_start(rest) =~= trim_start(r));
    lemma_words_trim_start(rest, r);
}

/// Words joined with single spaces split back into the same words.
pub proof fn lemma_words_of_join(ws: Seq<Seq<char>>)
    requires
        forall|j: int| 0 <= j < ws.len() ==> is_word(#[trigger] ws[j]),
    ensures
        words(join_sep(ws, " "@)) == ws,
    decreases ws.len(),
{
    if ws.len() == 0 {
        let e = Seq::<char>::empty();
        lemma_lead_ws(e, 0);
        lemma_words_unfold(e);
        assert(words(e) =~= ws);
    } else if ws.len() == 1 {
        assert(is_word(ws[0]));
        lemma_words_of_word(ws[0]);
        assert(seq![ws[0]] =~= ws);
    } else {
        let rest = ws.drop_first();
        assert(ws =~= seq![ws[0]] + rest);
        lemma_join_front(ws[0], rest, " "@);
        assert forall|j: int| 0 <= j < rest.len() implies is_word(#[trigger] rest[j]) by {
            assert(rest[j] == ws[j + 1]);
        }
        lemma_words_of_join(rest);
        assert(is_word(ws[0]));
        lemma_words_front(ws[0], join_sep(rest, " "@));
    }
}


/// Words joined with single spaces: the text starts with the first word and ends with the
/// last one, and holds no whitespace but those spaces.
pub proof fn lemma_join_words(ws: Seq<Seq<char>>)
    requires
        ws.len() > 0,
        forall|j: int| 0 <= j < ws.len() ==> is_word(#[trigger] ws[j]),
    ensures
        ({
            let t = join_sep(ws, " "@);
            &&& t.len() > 0
            &&& ws[0].is_prefix_of(t)
            &&& t[0] == ws[0][0]
            &&& t.last() == ws.last().last()
            &&& ws.len() == 1 ==> t == ws[0]
            &&& ws.len() > 1 ==> ws[0].len() < t.len() && t[ws[0].len() as int] == ' '
            &&& forall|k: int| 0 <= k < t.len() ==> #[trigger] t[k] == ' ' || !is_ws(t[k])
        }),
    decreases ws.len(),
{
    reveal_strlit(" ");
    let t = join_sep(ws, " "@);
    assert(is_word(ws[0]));
    assert(is_word(ws.last()));
    if ws.len() > 1 {
        let init = ws.drop_last();
        assert forall|j: int| 0 <= j < init.len() implies is_word(#[trigger] init[j]) by {
            assert(init[j] == ws[j]);
        }
        lemma_join_words(init);
        let a = join_sep(init, " "@);
        assert(t == a + " "@ + ws.last());
        assert(init[0] == ws[0]);
        assert forall|k: int| 0 <= k < ws[0].len() implies #[trigger] t[k] == ws[0][k] by {
            assert(t[k] == a[k]);
        }
        assert forall|k: int| 0 <= k < t.len() implies #[trigger] t[k] == ' ' || !is_ws(t[k]) by {
            if k < a.len() {
                assert(t[k] == a[k]);
            } else if k > a.len() {
                assert(t[k] == ws.last()[k - a.len() - 1]);
            }
        }
        assert(t[ws[0].len() as int] == ' ') by {
            if init.len() == 1 {
                assert(a == ws[0]);
            } else {
                assert(t[ws[0].len() as int] == a[ws[0].len() as int]);
            }
        }
    }
}

/// A text that ends in something other than whitespace has words, and its last word ends
/// the text.
pub proof fn lemma_words_last(s: Seq<char>)
    requires
        s.len() > 0,
        !is_ws(s.last()),
    ensures
        words(s).len() > 0,
        words(s).last().len() > 0,
        words(s).last().last() == s.last(),
    decreases s.len(),
{
    lemma_words_unfold(s);
    lemma_lead_ws_bound(s);
    let t = trim_start(s);
    if lead_ws(s) == s.len() {
        assert(is_ws(s[s.len() - 1]));
    }
    assert(t.len() > 0);
    assert(t.last() == s.last());
    let k = word_len(t);
    lemma_word_len_bound(t);
    let rest = t.skip(k as int);
    let w0 = t.take(k as int);
    if k == t.len() {
        assert(rest =~= Seq::<char>::empty());
        lemma_words_unfold(rest);
        lemma_lead_ws(rest, 0);
        assert(words(s) =~= seq![w0]);
        assert(w0.last() == t.last());
    } else {
        assert(rest.last() == s.last());
        lemma_words_last(rest);
        assert(words(s).last() == words(rest).last());
    }
}

/// A text that starts with something other than whitespace has words, and its first word
/// starts the text.
pub proof fn lemma_words_first(s: Seq<char>)
    requires
        s.len() > 0,
        !is_ws(s[0]),
    ensures
        words(s).len() > 0,
        words(s)[0].is_prefix_of(s),
{
    lemma_lead_ws(s, 0);
    assert(s.skip(0) =~= s);
    lemma_words_unfold(s);
}

} // verus!
