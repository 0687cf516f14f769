//! Character-level helpers: Unicode white space, trimming, searching and
//! decimal rendering over sequences of `char`.

use vstd::prelude::*;

verus! {

/// The Unicode `White_Space` property, as `char::is_whitespace` defines it.
pub open spec fn is_ws(c: char) -> bool {
    let u = c as u32;
    ||| (0x09 <= u && u <= 0x0d)
    ||| u == 0x20
    ||| u == 0x85
    ||| u == 0xa0
    ||| u == 0x1680
    ||| (0x2000 <= u && u <= 0x200a)
    ||| u == 0x2028
    ||| u == 0x2029
    ||| u == 0x202f
    ||| u == 0x205f
    ||| u == 0x3000
}

/// Executable form of [`is_ws`].
pub fn is_whitespace(c: char) -> (r: bool)
    ensures
        r == is_ws(c),
{
    let u = c as u32;
    (0x09 <= u && u <= 0x0d) || u == 0x20 || u == 0x85 || u == 0xa0 || u == 0x1680 || (0x2000
        <= u && u <= 0x200a) || u == 0x2028 || u == 0x2029 || u == 0x202f || u == 0x205f || u
        == 0x3000
}

/// Number of white-space characters at the start of `s`.
pub open spec fn ws_prefix(s: Seq<char>) -> nat
    decreases s.len(),
{
    if s.len() > 0 && is_ws(s[0]) {
        1 + ws_prefix(s.drop_first())
    } else {
        0
    }
}

/// Number of white-space characters at the end of `s`.
pub open spec fn ws_suffix(s: Seq<char>) -> nat
    decreases s.len(),
{
    if s.len() > 0 && is_ws(s.last()) {
        1 + ws_suffix(s.drop_last())
    } else {
        0
    }
}

/// `s` without its leading and trailing white space (`str::trim`).
pub open spec fn trim(s: Seq<char>) -> Seq<char> {
    if ws_prefix(s) == s.len() {
        Seq::empty()
    } else {
        s.subrange(ws_prefix(s) as int, s.len() - ws_suffix(s))
    }
}

pub proof fn lemma_ws_prefix(s: Seq<char>)
    ensures
        ws_prefix(s) <= s.len(),
        forall|i: int| 0 <= i < ws_prefix(s) ==> is_ws(#[trigger] s[i]),
        ws_prefix(s) < s.len() ==> !is_ws(s[ws_prefix(s) as int]),
    decreases s.len(),
{
    if s.len() > 0 && is_ws(s[0]) {
        lemma_ws_prefix(s.drop_first());
        assert forall|i: int| 0 <= i < ws_prefix(s) implies is_ws(#[trigger] s[i]) by {
            if i > 0 {
                assert(s[i] == s.drop_first()[i - 1]);
            }
        }
    }
}

pub proof fn lemma_ws_suffix(s: Seq<char>)
    ensures
        ws_suffix(s) <= s.len(),
        forall|i: int| s.len() - ws_suffix(s) <= i < s.len() ==> is_ws(#[trigger] s[i]),
        ws_suffix(s) < s.len() ==> !is_ws(s[s.len() - ws_suffix(s) - 1]),
    decreases s.len(),
{
    if s.len() > 0 && is_ws(s.last()) {
        lemma_ws_suffix(s.drop_last());
        assert forall|i: int| s.len() - ws_suffix(s) <= i < s.len() implies is_ws(
            #[trigger] s[i],
        ) by {
            if i < s.len() - 1 {
                assert(s[i] == s.drop_last()[i]);
            }
        }
    }
}

/// Index of the first non-white-space character (or the length).
fn ws_start(s: &[char]) -> (r: usize)
    ensures
        r == ws_prefix(s@),
{
    proof {
        lemma_ws_prefix(s@);
    }
    let mut i: usize = 0;
    while i < s.len() && is_whitespace(s[i])
        invariant
            i <= s.len(),
            forall|j: int| 0 <= j < i ==> is_ws(#[trigger] s@[j]),
        decreases s.len() - i,
    {
        i = i + 1;
    }
    proof {
        lemma_ws_prefix_exact(s@, i as nat);
    }
    i
}

pub proof fn lemma_ws_prefix_exact(s: Seq<char>, k: nat)
    requires
        k <= s.len(),
        forall|j: int| 0 <= j < k ==> is_ws(#[trigger] s[j]),
        k < s.len() ==> !is_ws(s[k as int]),
    ensures
        ws_prefix(s) == k,
    decreases k,
{
    if k > 0 {
        assert(is_ws(s[0]));
        assert forall|j: int| 0 <= j < k - 1 implies is_ws(#[trigger] s.drop_first()[j]) by {
            assert(s.drop_first()[j] == s[j + 1]);
        }
        if (k - 1) < s.drop_first().len() {
            assert(s.drop_first()[k - 1] == s[k as int]);
        }
        lemma_ws_prefix_exact(s.drop_first(), (k - 1) as nat);
    } else if s.len() > 0 {
        assert(!is_ws(s[0]));
    }
}

pub proof fn lemma_ws_suffix_exact(s: Seq<char>, k: nat)
    requires
        k <= s.len(),
        forall|j: int| s.len() - k <= j < s.len() ==> is_ws(#[trigger] s[j]),
        k < s.len() ==> !is_ws(s[s.len() - k - 1]),
    ensures
        ws_suffix(s) == k,
    decreases k,
{
    if k > 0 {
        assert(is_ws(s[s.len() - 1]));
        let t = s.drop_last();
        assert forall|j: int| t.len() - (k - 1) <= j < t.len() implies is_ws(#[trigger] t[j]) by {
            assert(t[j] == s[j]);
        }
        if (k - 1) < t.len() {
            assert(t[t.len() - (k - 1) - 1] == s[s.len() - k - 1]);
        }
        lemma_ws_suffix_exact(t, (k - 1) as nat);
    } else if s.len() > 0 {
        assert(!is_ws(s[s.len() - 1]));
    }
}

pub proof fn lemma_trim(s: Seq<char>)
    ensures
        trim(s).len() <= s.len(),
        trim(s).len() > 0 ==> ws_prefix(s) + trim(s).len() <= s.len(),
        forall|k: int| 0 <= k < trim(s).len() ==> #[trigger] trim(s)[k] == s[ws_prefix(s) + k],
{
    lemma_ws_prefix(s);
    lemma_ws_suffix(s);
}

/// The bounds `(start, end)` of [`trim`] inside `s`.
pub fn trim_bounds(s: &[char]) -> (r: (usize, usize))
    ensures
        r.0 <= r.1 <= s@.len(),
        s@.subrange(r.0 as int, r.1 as int) == trim(s@),
{
    let start = ws_start(s);
    if start == s.len() {
        return (start, start);
    }
    proof {
        lemma_ws_prefix(s@);
        lemma_ws_suffix(s@);
    }
    let mut end: usize = s.len();
    while end > start && is_whitespace(s[end - 1])
        invariant
            start < s.len(),
            start == ws_prefix(s@),
            !is_ws(s@[start as int]),
            start <= end <= s.len(),
            forall|j: int| end <= j < s.len() ==> is_ws(#[trigger] s@[j]),
        decreases end,
    {
        end = end - 1;
    }
    proof {
        if end == start {
            assert(false);
        }
        lemma_ws_suffix_exact(s@, (s.len() - end) as nat);
    }
    (start, end)
}

/// Trimmed copy of `s`.
pub fn trimmed(s: &[char]) -> (r: Vec<char>)
    ensures
        r@ == trim(s@),
{
    let (a, b) = trim_bounds(s);
    copy_range(s, a, b)
}

/// Copy of `s[a..b]`.
pub fn copy_range(s: &[char], a: usize, b: usize) -> (r: Vec<char>)
    requires
        a <= b <= s@.len(),
    ensures
        r@ == s@.subrange(a as int, b as int),
{
    let mut r: Vec<char> = Vec::new();
    let mut i = a;
    while i < b
        invariant
            a <= i <= b <= s@.len(),
            r@ == s@.subrange(a as int, i as int),
        decreases b - i,
    {
        r.push(s[i]);
        i = i + 1;
    }
    r
}

/// Whether `s` starts with `p`.
pub open spec fn starts_with(s: Seq<char>, p: Seq<char>) -> bool {
    p.len() <= s.len() && s.subrange(0, p.len() as int) == p
}

/// Executable form of [`starts_with`].
pub fn has_prefix(s: &[char], p: &[char]) -> (r: bool)
    ensures
        r == starts_with(s@, p@),
{
    if p.len() > s.len() {
        return false;
    }
    let mut i: usize = 0;
    while i < p.len()
        invariant
            p@.len() <= s@.len(),
            i <= p@.len(),
            forall|j: int| 0 <= j < i ==> s@[j] == p@[j],
        decreases p.len() - i,
    {
        if s[i] != p[i] {
            assert(s@.subrange(0, p@.len() as int)[i as int] != p@[i as int]);
            return false;
        }
        i = i + 1;
    }
    assert(s@.subrange(0, p@.len() as int) =~= p@);
    true
}

/// Whether the two sequences are equal.
pub fn same_chars(a: &[char], b: &[char]) -> (r: bool)
    ensures
        r == (a@ == b@),
{
    if a.len() != b.len() {
        return false;
    }
    let r = has_prefix(a, b);
    proof {
        assert(a@.subrange(0, a@.len() as int) =~= a@);
    }
    r
}

/// Index of the first occurrence of `c` in `s`, if any.
pub open spec fn find(s: Seq<char>, c: char) -> Option<int> {
    if exists|i: int| 0 <= i < s.len() && s[i] == c {
        Some(choose|i: int| 0 <= i < s.len() && s[i] == c && forall|j: int| 0 <= j < i ==> s[j] != c)
    } else {
        None
    }
}

pub proof fn lemma_find(s: Seq<char>, c: char)
    ensures
        find(s, c) matches Some(i) ==> 0 <= i < s.len() && s[i] == c && forall|j: int|
            0 <= j < i ==> s[j] != c,
        find(s, c) is None ==> !s.contains(c),
{
    if exists|i: int| 0 <= i < s.len() && s[i] == c {
        let w = choose|i: int| 0 <= i < s.len() && s[i] == c;
        lemma_first_exists(s, c, w);
    }
}

proof fn lemma_first_exists(s: Seq<char>, c: char, w: int)
    requires
        0 <= w < s.len(),
        s[w] == c,
    ensures
        exists|i: int| 0 <= i < s.len() && s[i] == c && forall|j: int| 0 <= j < i ==> s[j] != c,
    decreases w,
{
    if exists|j: int| 0 <= j < w && s[j] == c {
        let j = choose|j: int| 0 <= j < w && s[j] == c;
        lemma_first_exists(s, c, j);
    } else {
        assert(0 <= w < s.len() && s[w] == c && forall|j: int| 0 <= j < w ==> s[j] != c);
    }
}

/// Executable form of [`find`].
pub fn find_char(s: &[char], c: char) -> (r: Option<usize>)
    ensures
        match r {
            Some(i) => find(s@, c) == Some(i as int) && i < s@.len() && s@[i as int] == c,
            None => find(s@, c) is None,
        },
{
    let mut i: usize = 0;
    while i < s.len()
        invariant
            i <= s@.len(),
            forall|j: int| 0 <= j < i ==> s@[j] != c,
        decreases s.len() - i,
    {
        if s[i] == c {
            proof {
                let w = choose|k: int| 0 <= k < s@.len() && s@[k] == c && forall|j: int| 0 <= j < k ==> s@[j] != c;
                assert(0 <= i < s@.len() && s@[i as int] == c && forall|j: int| 0 <= j < i ==> s@[j] != c);
                if w < i {
                } else if w > i {
                    assert(s@[i as int] != c);
                }
            }
            return Some(i);
        }
        i = i + 1;
    }
    None
}

/// Whether `c` occurs in `s`.
pub fn contains_char(s: &[char], c: char) -> (r: bool)
    ensures
        r == s@.contains(c),
{
    let f = find_char(s, c);
    proof {
        if s@.contains(c) {
            let k = choose|k: int| 0 <= k < s@.len() && s@[k] == c;
            assert(0 <= k < s@.len() && s@[k] == c);
        }
    }
    f.is_some()
}

/// The decimal digit for `d < 10`.
pub open spec fn digit(d: nat) -> char {
    ((d + 48) as u32) as char
}

/// Decimal rendering of `n`, as `Display` for unsigned integers writes it.
pub open spec fn decimal(n: nat) -> Seq<char>
    decreases n,
{
    if n < 10 {
        seq![digit(n)]
    } else {
        decimal(n / 10).push(digit(n % 10))
    }
}

/// Appends the decimal rendering of `n` to `out`.
pub fn push_decimal(out: &mut Vec<char>, n: u64)
    ensures
        final(out)@ == old(out)@ + decimal(n as nat),
    decreases n,
{
    if n >= 10 {
        push_decimal(out, n / 10);
    }
    let d = (n % 10) as u32 + 48;
    let c = char_from_digit(d);
    out.push(c);
    proof {
        if n >= 10 {
            assert(decimal(n as nat) == decimal((n / 10) as nat).push(digit((n % 10) as nat)));
        }
    }
}

fn char_from_digit(d: u32) -> (c: char)
    requires
        48 <= d < 58,
    ensures
        c == (d as char),
        c as u32 == d,
{
    let c = d as u8 as char;
    assert(c as u32 == d);
    c
}

/// `c` converted to ASCII lower case (`char::to_ascii_lowercase`).
pub open spec fn ascii_lower(c: char) -> char {
    if 'A' <= c && c <= 'Z' {
        ((c as u32) + 32) as char
    } else {
        c
    }
}

/// Executable form of [`ascii_lower`].
pub fn to_ascii_lower(c: char) -> (r: char)
    ensures
        r == ascii_lower(c),
{
    if 'A' <= c && c <= 'Z' {
        let u = c as u32 + 32;
        let r = (u as u8) as char;
        assert(r as u32 == u);
        r
    } else {
        c
    }
}

/// `s` with every ASCII letter in lower case (`str::to_ascii_lowercase`).
pub open spec fn lower(s: Seq<char>) -> Seq<char> {
    s.map_values(|c: char| ascii_lower(c))
}

/// Executable form of [`lower`].
pub fn lowered(s: &[char]) -> (r: Vec<char>)
    ensures
        r@ == lower(s@),
{
    let mut r: Vec<char> = Vec::new();
    let mut i: usize = 0;
    while i < s.len()
        invariant
            i <= s@.len(),
            r@ == lower(s@.subrange(0, i as int)),
        decreases s.len() - i,
    {
        r.push(to_ascii_lower(s[i]));
        i = i + 1;
        assert(lower(s@.subrange(0, i as int)) =~= lower(s@.subrange(0, (i - 1) as int)).push(
            ascii_lower(s@[i - 1]),
        ));
    }
    assert(s@.subrange(0, s@.len() as int) =~= s@);
    r
}


/// Whether `n` occurs as a contiguous part of `h` (`str::contains`).
pub open spec fn has_infix(h: Seq<char>, n: Seq<char>) -> bool {
    exists|i: int| 0 <= i && i + n.len() <= h.len() && #[trigger] h.subrange(i, i + n.len()) == n
}

/// Whether `n` occurs in `h` starting at `at`.
fn infix_at(h: &[char], n: &[char], at: usize) -> (r: bool)
    requires
        at + n@.len() <= h@.len(),
    ensures
        r == (h@.subrange(at as int, at + n@.len()) == n@),
{
    let _hl = h.len();
    let mut k: usize = 0;
    while k < n.len()
        invariant
            at + n@.len() <= h@.len(),
            h@.len() <= usize::MAX,
            k <= n@.len(),
            forall|j: int| 0 <= j < k ==> h@[at + j] == n@[j],
        decreases n.len() - k,
    {
        if h[at + k] != n[k] {
            assert(h@.subrange(at as int, at + n@.len())[k as int] != n@[k as int]);
            return false;
        }
        k = k + 1;
    }
    assert(h@.subrange(at as int, at + n@.len()) =~= n@);
    true
}

/// Executable form of [`has_infix`].
pub fn contains_infix(h: &[char], n: &[char]) -> (r: bool)
    ensures
        r == has_infix(h@, n@),
{
    if n.len() > h.len() {
        return false;
    }
    if n.len() == 0 {
        assert(h@.subrange(0, 0 + n@.len() as int) =~= n@);
        return true;
    }
    let hl = h.len();
    let last = hl - n.len();
    let mut at: usize = 0;
    while at <= last
        invariant
            last == h@.len() - n@.len(),
            n@.len() <= h@.len(),
            h@.len() <= usize::MAX,
            n@.len() > 0,
            at <= last + 1,
            forall|i: int| 0 <= i < at ==> #[trigger] h@.subrange(i, i + n@.len()) != n@,
        decreases last + 1 - at,
    {
        if infix_at(h, n, at) {
            return true;
        }
        assert(at < usize::MAX) by {
            assert(h@.len() <= usize::MAX);
        }
        at = at + 1;
    }
    assert forall|i: int| 0 <= i && i + n@.len() <= h@.len() implies #[trigger] h@.subrange(
        i,
        i + n@.len(),
    ) != n@ by {}
    false
}

/// Cutting the trailing white space off does not change what trims to.
pub proof fn lemma_trim_right_cut(s: Seq<char>)
    ensures
        trim(s.subrange(0, s.len() - ws_suffix(s))) == trim(s),
{
    lemma_ws_prefix(s);
    lemma_ws_suffix(s);
    let z = ws_suffix(s);
    let u = s.subrange(0, s.len() - z);
    if ws_prefix(s) == s.len() {
        assert forall|j: int| 0 <= j < u.len() implies is_ws(#[trigger] u[j]) by {
            assert(u[j] == s[j]);
        }
        lemma_ws_prefix_exact(u, u.len());
    } else {
        let p = ws_prefix(s);
        assert(p < s.len() - z) by {
            if p >= s.len() - z {
                assert(is_ws(s[p as int]));
            }
        }
        assert forall|j: int| 0 <= j < p implies is_ws(#[trigger] u[j]) by {
            assert(u[j] == s[j]);
        }
        assert(u[p as int] == s[p as int]);
        lemma_ws_prefix_exact(u, p);
        assert(u[u.len() - 1] == s[s.len() - z - 1]);
        lemma_ws_suffix_exact(u, 0);
        assert(trim(u) =~= trim(s));
    }
}

/// Leading white space does not change what a text trims to.
pub proof fn lemma_trim_ws_left(b: Seq<char>, x: Seq<char>)
    requires
        forall|j: int| 0 <= j < b.len() ==> is_ws(#[trigger] b[j]),
    ensures
        trim(b + x) == trim(x),
{
    let y = b + x;
    lemma_ws_prefix(x);
    lemma_ws_suffix(x);
    if ws_prefix(x) == x.len() {
        assert forall|j: int| 0 <= j < y.len() implies is_ws(#[trigger] y[j]) by {
            if j >= b.len() {
                assert(y[j] == x[j - b.len()]);
            }
        }
        lemma_ws_prefix_exact(y, y.len());
    } else {
        let p = ws_prefix(x);
        let z = ws_suffix(x);
        assert forall|j: int| 0 <= j < b.len() + p implies is_ws(#[trigger] y[j]) by {
            if j >= b.len() {
                assert(y[j] == x[j - b.len()]);
            }
        }
        assert(y[(b.len() + p) as int] == x[p as int]);
        lemma_ws_prefix_exact(y, (b.len() + p) as nat);
        assert forall|j: int| y.len() - z <= j < y.len() implies is_ws(#[trigger] y[j]) by {
            assert(y[j] == x[j - b.len()]);
        }
        assert(y[y.len() - z - 1] == x[x.len() - z - 1]);
        lemma_ws_suffix_exact(y, z);
        assert(trim(y) =~= trim(x));
    }
}

/// The trimmed text of a `key: value` line. With `k` free of `:` and `s`
/// a `:` followed by white space, the trimmed text of `k + s + x` has its
/// first `:` where `s` starts; what comes up to and including that `:`
/// depends on `k` alone; and what follows it trims to `trim(x)`.
pub proof fn lemma_colon_text(k: Seq<char>, s: Seq<char>, x: Seq<char>)
    requires
        forall|j: int| 0 <= j < k.len() ==> k[j] != ':',
        s.len() > 0,
        s[0] == ':',
        forall|j: int| 1 <= j < s.len() ==> is_ws(#[trigger] s[j]),
    ensures
        ({
            let t = trim(k + s + x);
            let w = ws_prefix(k.push(':'));
            &&& w <= k.len()
            &&& t.len() > k.len() - w
            &&& find(t, ':') == Some(k.len() - w)
            &&& t.subrange(0, k.len() - w + 1) == k.push(':').subrange(w as int, k.len() as int + 1)
            &&& trim(t.subrange(k.len() - w + 1, t.len() as int)) == trim(x)
        }),
{
    let tt = k + s + x;
    let m = k.len() as int;
    let kp = k.push(':');
    assert(tt[m] == ':');
    assert(!is_ws(':'));
    lemma_ws_prefix(kp);
    let w = ws_prefix(kp);
    assert(w <= m) by {
        if w > m {
            assert(is_ws(kp[m]));
        }
    }
    assert forall|j: int| 0 <= j < w implies is_ws(#[trigger] tt[j]) by {
        assert(tt[j] == kp[j]);
    }
    assert(tt[w as int] == kp[w as int]);
    lemma_ws_prefix_exact(tt, w);
    lemma_ws_suffix(tt);
    let z = ws_suffix(tt);
    let e = tt.len() - z;
    assert(e > m) by {
        if e <= m {
            assert(is_ws(tt[m]));
        }
    }
    let t = trim(tt);
    assert(t =~= tt.subrange(w as int, e));
    let i0 = m - w;
    assert(t[i0] == ':');
    assert forall|j: int| 0 <= j < i0 implies t[j] != ':' by {
        assert(t[j] == k[w + j]);
    }
    lemma_find(t, ':');
    assert(find(t, ':') == Some(i0)) by {
        let f = find(t, ':')->0;
        if f < i0 {
            assert(t[f] != ':');
        } else if f > i0 {
            assert(t[i0] != ':');
        }
    }
    assert(t.subrange(0, i0 + 1) =~= kp.subrange(w as int, m + 1)) by {
        assert forall|j: int| 0 <= j < i0 + 1 implies #[trigger] t[j] == kp[w + j] by {
            assert(t[j] == tt[w + j]);
        }
    }
    let r = tt.subrange(m + 1, tt.len() as int);
    let bl = s.subrange(1, s.len() as int);
    assert(r =~= bl + x);
    assert forall|j: int| r.len() - z <= j < r.len() implies is_ws(#[trigger] r[j]) by {
        assert(r[j] == tt[m + 1 + j]);
    }
    if z < r.len() {
        assert(r[r.len() - z - 1] == tt[tt.len() - z - 1]);
    }
    lemma_ws_suffix_exact(r, z);
    assert(t.subrange(i0 + 1, t.len() as int) =~= r.subrange(0, r.len() - ws_suffix(r)));
    lemma_trim_right_cut(r);
    assert forall|j: int| 0 <= j < bl.len() implies is_ws(#[trigger] bl[j]) by {
        assert(bl[j] == s[j + 1]);
    }
    lemma_trim_ws_left(bl, x);
}

} // verus!
