//! The project asset catalog: which files of a project are resources of the
//! editor (images, fonts, interfaces, scripts, modules), with the limits of a
//! scan and the order in which the catalog lists them. Walking the directory
//! tree is left to the caller, which asks the catalog at each step.

use vstd::prelude::*;

use crate::codec::{chars_of, string_of};
use crate::text::{contains_infix, has_infix, lower};
use std::path::PathBuf;

verus! {

/// Most entries a catalog holds.
pub const MAX_ASSETS: usize = 20000;

/// Deepest directory level a scan enters (the root is level 0).
pub const MAX_SCAN_DEPTH: usize = 24;

/// The kinds of resources the editor knows.
#[derive(Clone, Copy, Debug, PartialEq, Eq, Structural)]
pub enum AssetKind {
    Image,
    Font,
    Interface,
    Script,
    Module,
}

/// The label shown for a kind.
pub open spec fn kind_label(k: AssetKind) -> Seq<char> {
    match k {
        AssetKind::Image => "Imagem"@,
        AssetKind::Font => "Fonte"@,
        AssetKind::Interface => "OTUI"@,
        AssetKind::Script => "Lua"@,
        AssetKind::Module => "OTMOD"@,
    }
}

/// The position of a kind in [`AssetCatalog::counts`].
pub open spec fn kind_index(k: AssetKind) -> int {
    match k {
        AssetKind::Image => 0,
        AssetKind::Font => 1,
        AssetKind::Interface => 2,
        AssetKind::Script => 3,
        AssetKind::Module => 4,
    }
}

impl AssetKind {
    /// The label shown for the kind.
    pub fn label(self) -> (r: &'static str)
        ensures
            r@ == kind_label(self),
    {
        match self {
            AssetKind::Image => "Imagem",
            AssetKind::Font => "Fonte",
            AssetKind::Interface => "OTUI",
            AssetKind::Script => "Lua",
            AssetKind::Module => "OTMOD",
        }
    }
}

/// The kind of a file by its extension, compared without ASCII case; `None`
/// for a file that is no resource.
pub open spec fn kind_of_extension(e: Seq<char>) -> Option<AssetKind> {
    let l = lower(e);
    if l == "png"@ || l == "jpg"@ || l == "jpeg"@ || l == "bmp"@ {
        Some(AssetKind::Image)
    } else if l == "ttf"@ || l == "otf"@ || l == "woff"@ || l == "font"@ {
        Some(AssetKind::Font)
    } else if l == "otui"@ {
        Some(AssetKind::Interface)
    } else if l == "lua"@ {
        Some(AssetKind::Script)
    } else if l == "otmod"@ {
        Some(AssetKind::Module)
    } else {
        None
    }
}

fn is_text(a: &Vec<char>, b: &str) -> (r: bool)
    ensures
        r == (a@ == b@),
{
    let bc = chars_of(b);
    crate::text::same_chars(a.as_slice(), bc.as_slice())
}

/// The kind of a file with this extension (see [`kind_of_extension`]).
pub fn asset_kind(extension: &str) -> (r: Option<AssetKind>)
    ensures
        r == kind_of_extension(extension@),
{
    let e = chars_of(extension);
    let l = crate::text::lowered(e.as_slice());
    if is_text(&l, "png") || is_text(&l, "jpg") || is_text(&l, "jpeg") || is_text(&l, "bmp") {
        Some(AssetKind::Image)
    } else if is_text(&l, "ttf") || is_text(&l, "otf") || is_text(&l, "woff") || is_text(&l, "font") {
        Some(AssetKind::Font)
    } else if is_text(&l, "otui") {
        Some(AssetKind::Interface)
    } else if is_text(&l, "lua") {
        Some(AssetKind::Script)
    } else if is_text(&l, "otmod") {
        Some(AssetKind::Module)
    } else {
        None
    }
}

/// Whether a file or directory name is hidden (starts with `.`); a scan skips it.
pub fn is_hidden(name: &str) -> (r: bool)
    ensures
        r == (name@.len() > 0 && name@[0] == '.'),
{
    let c = chars_of(name);
    c.len() > 0 && c[0] == '.'
}

/// `s` with every `\` turned into `/`.
pub open spec fn with_slashes(s: Seq<char>) -> Seq<char> {
    s.map_values(|c: char| if c == '\\' { '/' } else { c })
}

/// A relative path written with `/` separators.
pub fn portable_path(s: &str) -> (r: String)
    ensures
        r@ == with_slashes(s@),
{
    let c = chars_of(s);
    let mut out: Vec<char> = Vec::new();
    let mut i: usize = 0;
    while i < c.len()
        invariant
            i <= c@.len(),
            out@ == with_slashes(c@.subrange(0, i as int)),
        decreases c.len() - i,
    {
        let x = if c[i] == '\\' {
            '/'
        } else {
            c[i]
        };
        out.push(x);
        i = i + 1;
        proof {
            assert(with_slashes(c@.subrange(0, i as int)) =~= with_slashes(c@.subrange(0, i - 1)).push(x));
        }
    }
    proof {
        assert(c@.subrange(0, c@.len() as int) =~= c@);
    }
    string_of(out.as_slice())
}

/// A resource found by a scan.
#[derive(Debug)]
pub struct AssetEntry {
    pub path: PathBuf,
    pub relative: String,
    pub kind: AssetKind,
    pub bytes: u64,
}

/// The resources of a project, and whether a limit cut the scan short.
pub struct AssetCatalog {
    pub entries: Vec<AssetEntry>,
    pub truncated: bool,
}

/// Number of entries of the kind.
pub open spec fn kind_count(s: Seq<AssetEntry>, k: AssetKind) -> nat
    decreases s.len(),
{
    if s.len() == 0 {
        0
    } else {
        kind_count(s.drop_last(), k) + if s.last().kind == k {
            1nat
        } else {
            0nat
        }
    }
}

proof fn lemma_kind_count(s: Seq<AssetEntry>, k: AssetKind)
    ensures
        kind_count(s, k) <= s.len(),
    decreases s.len(),
{
    if s.len() > 0 {
        lemma_kind_count(s.drop_last(), k);
    }
}

/// `a` comes strictly before `b` in the order of their characters' code
/// points (the order of `str` comparison).
pub open spec fn text_lt(a: Seq<char>, b: Seq<char>) -> bool
    decreases a.len(),
{
    if a.len() == 0 {
        b.len() > 0
    } else if b.len() == 0 {
        false
    } else if a[0] != b[0] {
        a[0] < b[0]
    } else {
        text_lt(a.drop_first(), b.drop_first())
    }
}

/// Executable form of [`text_lt`].
fn less_text(a: &[char], b: &[char]) -> (r: bool)
    ensures
        r == text_lt(a@, b@),
{
    let mut i: usize = 0;
    proof {
        assert(a@.subrange(0, a@.len() as int) =~= a@);
        assert(b@.subrange(0, b@.len() as int) =~= b@);
    }
    while i < a.len() && i < b.len() && a[i] == b[i]
        invariant
            i <= a@.len(),
            i <= b@.len(),
            text_lt(a@.subrange(i as int, a@.len() as int), b@.subrange(i as int, b@.len() as int))
                == text_lt(a@, b@),
        decreases a.len() - i,
    {
        proof {
            assert(a@.subrange(i as int, a@.len() as int).drop_first() =~= a@.subrange(i + 1, a@.len() as int));
            assert(b@.subrange(i as int, b@.len() as int).drop_first() =~= b@.subrange(i + 1, b@.len() as int));
        }
        i = i + 1;
    }
    proof {
        assert(a@.subrange(0, a@.len() as int) =~= a@);
        assert(b@.subrange(0, b@.len() as int) =~= b@);
    }
    if i == a.len() {
        i < b.len()
    } else if i == b.len() {
        false
    } else {
        a[i] < b[i]
    }
}

/// Entries listed by relative path: none comes after one it precedes.
pub open spec fn sorted_by_relative(s: Seq<AssetEntry>) -> bool {
    sorted_range(s, 0, s.len() as int)
}

proof fn lemma_lt_irrefl(a: Seq<char>)
    ensures
        !text_lt(a, a),
    decreases a.len(),
{
    if a.len() > 0 {
        lemma_lt_irrefl(a.drop_first());
    }
}

proof fn lemma_lt_trans(a: Seq<char>, b: Seq<char>, c: Seq<char>)
    requires
        text_lt(a, b),
        text_lt(b, c),
    ensures
        text_lt(a, c),
    decreases a.len(),
{
    if a.len() > 0 && b.len() > 0 && c.len() > 0 && a[0] == b[0] && b[0] == c[0] {
        lemma_lt_trans(a.drop_first(), b.drop_first(), c.drop_first());
    }
}

proof fn lemma_lt_total(a: Seq<char>, b: Seq<char>)
    ensures
        text_lt(a, b) || text_lt(b, a) || a == b,
    decreases a.len(),
{
    if a.len() > 0 && b.len() > 0 {
        if a[0] == b[0] {
            lemma_lt_total(a.drop_first(), b.drop_first());
            if a.drop_first() == b.drop_first() {
                assert(a =~= seq![a[0]] + a.drop_first());
                assert(b =~= seq![b[0]] + b.drop_first());
            }
        }
    } else if a.len() == 0 && b.len() == 0 {
        assert(a =~= b);
    }
}

proof fn lemma_lt_asym(a: Seq<char>, b: Seq<char>)
    requires
        text_lt(a, b),
    ensures
        !text_lt(b, a),
{
    if text_lt(b, a) {
        lemma_lt_trans(a, b, a);
        lemma_lt_irrefl(a);
    }
}

proof fn lemma_swap_multiset(s: Seq<AssetEntry>, j: int)
    requires
        0 < j < s.len(),
    ensures
        s.update(j - 1, s[j]).update(j, s[j - 1]).to_multiset() == s.to_multiset(),
{
    let t = s.update(j - 1, s[j]).update(j, s[j - 1]);
    let a = s.subrange(0, j - 1);
    let b = s.subrange(j + 1, s.len() as int);
    assert(s =~= a + seq![s[j - 1], s[j]] + b);
    assert(t =~= a + seq![s[j], s[j - 1]] + b);
    vstd::seq_lib::lemma_multiset_commutative(a + seq![s[j - 1], s[j]], b);
    vstd::seq_lib::lemma_multiset_commutative(a, seq![s[j - 1], s[j]]);
    vstd::seq_lib::lemma_multiset_commutative(a + seq![s[j], s[j - 1]], b);
    vstd::seq_lib::lemma_multiset_commutative(a, seq![s[j], s[j - 1]]);
    vstd::seq_lib::lemma_multiset_commutative(seq![s[j - 1]], seq![s[j]]);
    vstd::seq_lib::lemma_multiset_commutative(seq![s[j]], seq![s[j - 1]]);
    assert(seq![s[j - 1]] + seq![s[j]] =~= seq![s[j - 1], s[j]]);
    assert(seq![s[j]] + seq![s[j - 1]] =~= seq![s[j], s[j - 1]]);
    assert(seq![s[j - 1]].to_multiset().add(seq![s[j]].to_multiset()) =~= seq![s[j]].to_multiset().add(
        seq![s[j - 1]].to_multiset(),
    ));
}

/// The entries `a..b` are listed by relative path.
pub open spec fn sorted_range(s: Seq<AssetEntry>, a: int, b: int) -> bool {
    forall|p: int, q: int| a <= p < q < b ==> !text_lt(#[trigger] s[q].relative@, #[trigger] s[p].relative@)
}

proof fn lemma_le_trans(x: Seq<char>, y: Seq<char>, z: Seq<char>)
    requires
        !text_lt(y, x),
        !text_lt(z, y),
    ensures
        !text_lt(z, x),
{
    if text_lt(z, x) {
        lemma_lt_total(x, y);
        if text_lt(x, y) {
            lemma_lt_trans(z, x, y);
        }
    }
}

proof fn lemma_lt_le(x: Seq<char>, y: Seq<char>)
    requires
        text_lt(x, y),
    ensures
        !text_lt(y, x),
{
    lemma_lt_asym(x, y);
}

proof fn lemma_sink_step(s: Seq<AssetEntry>, j: int, i: int)
    requires
        0 < j <= i < s.len(),
        sorted_range(s, 0, j),
        sorted_range(s, j, i + 1),
        j < i ==> !text_lt(s[j + 1].relative@, s[j - 1].relative@),
        text_lt(s[j].relative@, s[j - 1].relative@),
    ensures
        ({
            let t = s.update(j - 1, s[j]).update(j, s[j - 1]);
            &&& sorted_range(t, 0, j - 1)
            &&& sorted_range(t, j - 1, i + 1)
            &&& 0 < j - 1 < i ==> !text_lt(t[j].relative@, t[j - 2].relative@)
        }),
{
    let t = s.update(j - 1, s[j]).update(j, s[j - 1]);
    lemma_lt_le(s[j].relative@, s[j - 1].relative@);
    assert forall|p: int, q: int| j - 1 <= p < q < i + 1 implies !text_lt(#[trigger] t[q].relative@, #[trigger] t[p].relative@) by {
        if p == j - 1 {
            if q == j {
            } else {
                assert(t[q] == s[q]);
                assert(!text_lt(s[q].relative@, s[j].relative@));
            }
        } else {
            if p == j {
                assert(t[q] == s[q]);
                if q > j + 1 {
                    assert(!text_lt(s[q].relative@, s[j + 1].relative@));
                    lemma_le_trans(s[j - 1].relative@, s[j + 1].relative@, s[q].relative@);
                }
            } else {
                assert(t[p] == s[p] && t[q] == s[q]);
            }
        }
    }
    assert forall|p: int, q: int| 0 <= p < q < j - 1 implies !text_lt(#[trigger] t[q].relative@, #[trigger] t[p].relative@) by {
        assert(t[p] == s[p] && t[q] == s[q]);
    }
    if 0 < j - 1 {
        assert(!text_lt(s[j - 1].relative@, s[j - 2].relative@));
    }
}

proof fn lemma_sink_done(s: Seq<AssetEntry>, j: int, i: int)
    requires
        0 <= j <= i < s.len(),
        sorted_range(s, 0, j),
        sorted_range(s, j, i + 1),
        j > 0 ==> !text_lt(s[j].relative@, s[j - 1].relative@),
    ensures
        sorted_range(s, 0, i + 1),
{
    assert forall|p: int, q: int| 0 <= p < q < i + 1 implies !text_lt(#[trigger] s[q].relative@, #[trigger] s[p].relative@) by {
        if p < j && j <= q {
            if p < j - 1 {
                assert(!text_lt(s[j - 1].relative@, s[p].relative@));
                lemma_le_trans(s[p].relative@, s[j - 1].relative@, s[j].relative@);
            }
            if q > j {
                assert(!text_lt(s[q].relative@, s[j].relative@));
                lemma_le_trans(s[p].relative@, s[j].relative@, s[q].relative@);
            }
        }
    }
}

/// `p` gives, for each entry of `b`, the position in `a` it comes from: one
/// entry for one entry, keeping the order of entries with equal relative
/// paths (a stable rearrangement).
pub open spec fn stable_arrangement(a: Seq<AssetEntry>, b: Seq<AssetEntry>, p: Seq<int>) -> bool {
    &&& a.len() == b.len()
    &&& p.len() == b.len()
    &&& forall|k: int| 0 <= k < b.len() ==> 0 <= #[trigger] p[k] < a.len() && b[k] == a[p[k]]
    &&& forall|k: int, l: int| 0 <= k < l < b.len() ==> #[trigger] p[k] != #[trigger] p[l]
    &&& forall|k: int, l: int|
        0 <= k < l < b.len() && b[k].relative@ == b[l].relative@ ==> #[trigger] p[k] < #[trigger] p[l]
}

proof fn lemma_arrangement_swap(a: Seq<AssetEntry>, s: Seq<AssetEntry>, p: Seq<int>, j: int)
    requires
        stable_arrangement(a, s, p),
        0 < j < s.len(),
        text_lt(s[j].relative@, s[j - 1].relative@),
    ensures
        stable_arrangement(
            a,
            s.update(j - 1, s[j]).update(j, s[j - 1]),
            p.update(j - 1, p[j]).update(j, p[j - 1]),
        ),
{
    let t = s.update(j - 1, s[j]).update(j, s[j - 1]);
    let q = p.update(j - 1, p[j]).update(j, p[j - 1]);
    lemma_lt_irrefl(s[j].relative@);
    assert(s[j].relative@ != s[j - 1].relative@);
    assert forall|k: int| 0 <= k < t.len() implies 0 <= #[trigger] q[k] < a.len() && t[k] == a[q[k]] by {
        if k == j - 1 {
            assert(q[k] == p[j]);
        } else if k == j {
            assert(q[k] == p[j - 1]);
        } else {
            assert(q[k] == p[k] && t[k] == s[k]);
        }
    }
    assert forall|k: int, l: int| 0 <= k < l < t.len() implies #[trigger] q[k] != #[trigger] q[l] by {
        let sk = if k == j - 1 { j } else if k == j { j - 1 } else { k };
        let sl = if l == j - 1 { j } else if l == j { j - 1 } else { l };
        assert(q[k] == p[sk] && q[l] == p[sl]);
        assert(sk != sl);
        if sk < sl {
            assert(p[sk] != p[sl]);
        } else {
            assert(p[sl] != p[sk]);
        }
    }
    assert forall|k: int, l: int|
        0 <= k < l < t.len() && t[k].relative@ == t[l].relative@ implies #[trigger] q[k] < #[trigger] q[l] by {
        let sk = if k == j - 1 { j } else if k == j { j - 1 } else { k };
        let sl = if l == j - 1 { j } else if l == j { j - 1 } else { l };
        assert(q[k] == p[sk] && q[l] == p[sl]);
        assert(t[k] == s[sk] && t[l] == s[sl]);
        if k == j - 1 && l == j {
            assert(false);
        }
        assert(sk < sl);
    }
}

/// Whether entry `j` comes strictly before entry `j - 1`.
fn goes_before(entries: &Vec<AssetEntry>, j: usize) -> (r: bool)
    requires
        0 < j < entries@.len(),
    ensures
        r == text_lt(entries@[j as int].relative@, entries@[j - 1].relative@),
{
    let a = chars_of(entries[j].relative.as_str());
    let b = chars_of(entries[j - 1].relative.as_str());
    less_text(a.as_slice(), b.as_slice())
}

impl AssetCatalog {
    /// An empty catalog.
    pub fn new() -> (r: AssetCatalog)
        ensures
            r.entries@.len() == 0,
            !r.truncated,
    {
        AssetCatalog { entries: Vec::new(), truncated: false }
    }

    /// Whether a scan enters a directory at `depth`: not beyond the deepest
    /// level nor once the catalog is full; a directory left out marks the
    /// catalog truncated.
    pub fn enter(&mut self, depth: usize) -> (r: bool)
        ensures
            r == (depth <= MAX_SCAN_DEPTH && old(self).entries@.len() < MAX_ASSETS),
            final(self).entries@ == old(self).entries@,
            final(self).truncated == (old(self).truncated || !r),
    {
        if depth > MAX_SCAN_DEPTH || self.entries.len() >= MAX_ASSETS {
            self.truncated = true;
            false
        } else {
            true
        }
    }

    /// Whether another entry fits; when none does, the catalog is marked
    /// truncated and the scan stops.
    pub fn has_room(&mut self) -> (r: bool)
        ensures
            r == (old(self).entries@.len() < MAX_ASSETS),
            final(self).entries@ == old(self).entries@,
            final(self).truncated == (old(self).truncated || !r),
    {
        if self.entries.len() >= MAX_ASSETS {
            self.truncated = true;
            false
        } else {
            true
        }
    }

    /// Records a file met by the scan (once [`AssetCatalog::has_room`] said
    /// there is room); it is kept when its extension names a kind, with its
    /// relative path written with `/`. Whether it was kept.
    pub fn add_file(&mut self, path: PathBuf, relative: &str, extension: &str, bytes: u64) -> (r: bool)
        requires
            old(self).entries@.len() < MAX_ASSETS,
        ensures
            final(self).entries@.len() <= MAX_ASSETS,
            final(self).truncated == old(self).truncated,
            r == kind_of_extension(extension@) is Some,
            r ==> final(self).entries@.len() == old(self).entries@.len() + 1
                && final(self).entries@.drop_last() == old(self).entries@
                && final(self).entries@.last().path == path
                && final(self).entries@.last().relative@ == with_slashes(relative@)
                && Some(final(self).entries@.last().kind) == kind_of_extension(extension@)
                && final(self).entries@.last().bytes == bytes,
            !r ==> final(self).entries@ == old(self).entries@,
    {
        match asset_kind(extension) {
            Some(kind) => {
                let relative = portable_path(relative);
                self.entries.push(AssetEntry { path, relative, kind, bytes });
                proof {
                    assert(self.entries@.drop_last() =~= old(self).entries@);
                }
                true
            },
            None => false,
        }
    }

    /// Lists the entries by relative path (the order of `str` comparison),
    /// keeping the same entries; entries with equal paths keep their order.
    pub fn finish(&mut self)
        ensures
            final(self).truncated == old(self).truncated,
            final(self).entries@.to_multiset() == old(self).entries@.to_multiset(),
            sorted_by_relative(final(self).entries@),
            exists|p: Seq<int>| stable_arrangement(old(self).entries@, final(self).entries@, p),
    {
        let n = self.entries.len();
        let ghost mut perm = Seq::new(n as nat, |k: int| k);
        proof {
            assert(stable_arrangement(old(self).entries@, self.entries@, perm));
        }
        if n == 0 {
            return;
        }
        let mut i: usize = 1;
        while i < n
            invariant
                1 <= i <= n,
                n == self.entries@.len(),
                self.truncated == old(self).truncated,
                self.entries@.to_multiset() == old(self).entries@.to_multiset(),
                sorted_range(self.entries@, 0, i as int),
                stable_arrangement(old(self).entries@, self.entries@, perm),
            decreases n - i,
        {
            let mut j = i;
            while j > 0 && goes_before(&self.entries, j)
                invariant
                    0 <= j <= i < n,
                    n == self.entries@.len(),
                    self.truncated == old(self).truncated,
                    self.entries@.to_multiset() == old(self).entries@.to_multiset(),
                    sorted_range(self.entries@, 0, j as int),
                    sorted_range(self.entries@, j as int, i + 1),
                    0 < j < i ==> !text_lt(self.entries@[j + 1].relative@, self.entries@[j - 1].relative@),
                    stable_arrangement(old(self).entries@, self.entries@, perm),
                decreases j,
            {
                let ghost s = self.entries@;
                let x = self.entries.remove(j);
                self.entries.insert(j - 1, x);
                proof {
                    assert(self.entries@ =~= s.update(j - 1, s[j as int]).update(j as int, s[j - 1]));
                    lemma_swap_multiset(s, j as int);
                    lemma_sink_step(s, j as int, i as int);
                    lemma_arrangement_swap(old(self).entries@, s, perm, j as int);
                    perm = perm.update(j - 1, perm[j as int]).update(j as int, perm[j - 1]);
                }
                j = j - 1;
            }
            proof {
                lemma_sink_done(self.entries@, j as int, i as int);
            }
            i = i + 1;
        }
    }

    /// Number of entries of each kind, in the order of [`kind_index`].
    pub fn counts(&self) -> (r: [usize; 5])
        ensures
            forall|k: AssetKind| #[trigger] r@[kind_index(k)] == kind_count(self.entries@, k),
    {
        let mut c0: usize = 0;
        let mut c1: usize = 0;
        let mut c2: usize = 0;
        let mut c3: usize = 0;
        let mut c4: usize = 0;
        let mut i: usize = 0;
        while i < self.entries.len()
            invariant
                i <= self.entries@.len(),
                c0 == kind_count(self.entries@.subrange(0, i as int), AssetKind::Image),
                c1 == kind_count(self.entries@.subrange(0, i as int), AssetKind::Font),
                c2 == kind_count(self.entries@.subrange(0, i as int), AssetKind::Interface),
                c3 == kind_count(self.entries@.subrange(0, i as int), AssetKind::Script),
                c4 == kind_count(self.entries@.subrange(0, i as int), AssetKind::Module),
            decreases self.entries.len() - i,
        {
            proof {
                let t = self.entries@.subrange(0, i + 1);
                assert(t.drop_last() =~= self.entries@.subrange(0, i as int));
                lemma_kind_count(self.entries@.subrange(0, i as int), AssetKind::Image);
                lemma_kind_count(self.entries@.subrange(0, i as int), AssetKind::Font);
                lemma_kind_count(self.entries@.subrange(0, i as int), AssetKind::Interface);
                lemma_kind_count(self.entries@.subrange(0, i as int), AssetKind::Script);
                lemma_kind_count(self.entries@.subrange(0, i as int), AssetKind::Module);
            }
            match self.entries[i].kind {
                AssetKind::Image => c0 = c0 + 1,
                AssetKind::Font => c1 = c1 + 1,
                AssetKind::Interface => c2 = c2 + 1,
                AssetKind::Script => c3 = c3 + 1,
                AssetKind::Module => c4 = c4 + 1,
            }
            i = i + 1;
        }
        proof {
            assert(self.entries@.subrange(0, self.entries@.len() as int) =~= self.entries@);
        }
        [c0, c1, c2, c3, c4]
    }
}

impl Default for AssetCatalog {
    fn default() -> (r: AssetCatalog)
        ensures
            r.entries@.len() == 0,
            !r.truncated,
    {
        AssetCatalog::new()
    }
}

/// Whether an entry shows under the filter: an empty filter shows every
/// entry; else its relative path or its kind's label contains the filter,
/// ASCII case aside.
pub open spec fn entry_shown(relative: Seq<char>, kind: AssetKind, filter: Seq<char>) -> bool {
    let needle = lower(filter);
    needle.len() == 0 || has_infix(lower(relative), needle) || has_infix(lower(kind_label(kind)), needle)
}

/// Whether the entry shows under the filter (see [`entry_shown`]).
pub fn asset_matches(entry: &AssetEntry, filter: &str) -> (r: bool)
    ensures
        r == entry_shown(entry.relative@, entry.kind, filter@),
{
    let f = chars_of(filter);
    let needle = crate::text::lowered(f.as_slice());
    if needle.len() == 0 {
        return true;
    }
    let rel = chars_of(entry.relative.as_str());
    let rel_low = crate::text::lowered(rel.as_slice());
    if contains_infix(rel_low.as_slice(), needle.as_slice()) {
        return true;
    }
    let label = chars_of(entry.kind.label());
    let label_low = crate::text::lowered(label.as_slice());
    contains_infix(label_low.as_slice(), needle.as_slice())
}

/// What a double click on a file of the project tree does.
#[derive(Clone, Copy, Debug, PartialEq, Eq, Structural)]
pub enum FileAction {
    /// Shows the image.
    ShowImage,
    /// Opens the file as a document.
    Open,
    /// Nothing.
    Ignore,
}

/// The action for a file of the project tree by its extension (ASCII case
/// aside).
pub open spec fn file_action_of(e: Seq<char>) -> FileAction {
    let l = lower(e);
    if l == "png"@ || l == "jpg"@ || l == "jpeg"@ {
        FileAction::ShowImage
    } else if l == "otui"@ || l == "lua"@ || l == "otmod"@ || l == "html"@ || l == "css"@ || l == "txt"@ {
        FileAction::Open
    } else {
        FileAction::Ignore
    }
}

/// The action for a file of the project tree (see [`file_action_of`]).
pub fn file_action(extension: &str) -> (r: FileAction)
    ensures
        r == file_action_of(extension@),
{
    let e = chars_of(extension);
    let l = crate::text::lowered(e.as_slice());
    if is_text(&l, "png") || is_text(&l, "jpg") || is_text(&l, "jpeg") {
        FileAction::ShowImage
    } else if is_text(&l, "otui") || is_text(&l, "lua") || is_text(&l, "otmod") || is_text(&l, "html")
        || is_text(&l, "css") || is_text(&l, "txt") {
        FileAction::Open
    } else {
        FileAction::Ignore
    }
}

/// Which files are resources, by extension in any ASCII case: `png`, `jpg`,
/// `jpeg` and `bmp` are images; `ttf`, `otf`, `woff` and `font` are fonts;
/// `otui` is an interface file, `lua` a script, `otmod` a module; every
/// other extension is no resource. Extensions that differ only in ASCII
/// case are of the same kind.
pub proof fn law_asset_kinds(e: Seq<char>, f: Seq<char>)
    ensures
        lower(e) == "png"@ || lower(e) == "jpg"@ || lower(e) == "jpeg"@ || lower(e) == "bmp"@ ==> kind_of_extension(e) == Some(AssetKind::Image),
        lower(e) == "ttf"@ || lower(e) == "otf"@ || lower(e) == "woff"@ || lower(e) == "font"@ ==> kind_of_extension(e) == Some(AssetKind::Font),
        lower(e) == "otui"@ ==> kind_of_extension(e) == Some(AssetKind::Interface),
        lower(e) == "lua"@ ==> kind_of_extension(e) == Some(AssetKind::Script),
        lower(e) == "otmod"@ ==> kind_of_extension(e) == Some(AssetKind::Module),
        lower(e) != "png"@ && lower(e) != "jpg"@ && lower(e) != "jpeg"@ && lower(e) != "bmp"@ && lower(e) != "ttf"@ && lower(e) != "otf"@ && lower(e) != "woff"@ && lower(e) != "font"@ && lower(e) != "otui"@ && lower(e) != "lua"@ && lower(e) != "otmod"@ ==> kind_of_extension(e) is None,
        lower(e) == lower(f) ==> kind_of_extension(e) == kind_of_extension(f),
{
    reveal_strlit("png");
    reveal_strlit("jpg");
    reveal_strlit("jpeg");
    reveal_strlit("bmp");
    reveal_strlit("ttf");
    reveal_strlit("otf");
    reveal_strlit("woff");
    reveal_strlit("font");
    reveal_strlit("otui");
    reveal_strlit("lua");
    reveal_strlit("otmod");
    assert("png"@[0] != "jpg"@[0]);
    assert("png"@.len() != "jpeg"@.len());
    assert("png"@[0] != "bmp"@[0]);
    assert("png"@[0] != "ttf"@[0]);
    assert("png"@[0] != "otf"@[0]);
    assert("png"@.len() != "woff"@.len());
    assert("png"@.len() != "font"@.len());
    assert("png"@.len() != "otui"@.len());
    assert("png"@[0] != "lua"@[0]);
    assert("png"@.len() != "otmod"@.len());
    assert("jpg"@.len() != "jpeg"@.len());
    assert("jpg"@[0] != "bmp"@[0]);
    assert("jpg"@[0] != "ttf"@[0]);
    assert("jpg"@[0] != "otf"@[0]);
    assert("jpg"@.len() != "woff"@.len());
    assert("jpg"@.len() != "font"@.len());
    assert("jpg"@.len() != "otui"@.len());
    assert("jpg"@[0] != "lua"@[0]);
    assert("jpg"@.len() != "otmod"@.len());
    assert("jpeg"@.len() != "bmp"@.len());
    assert("jpeg"@.len() != "ttf"@.len());
    assert("jpeg"@.len() != "otf"@.len());
    assert("jpeg"@[0] != "woff"@[0]);
    assert("jpeg"@[0] != "font"@[0]);
    assert("jpeg"@[0] != "otui"@[0]);
    assert("jpeg"@.len() != "lua"@.len());
    assert("jpeg"@.len() != "otmod"@.len());
    assert("bmp"@[0] != "ttf"@[0]);
    assert("bmp"@[0] != "otf"@[0]);
    assert("bmp"@.len() != "woff"@.len());
    assert("bmp"@.len() != "font"@.len());
    assert("bmp"@.len() != "otui"@.len());
    assert("bmp"@[0] != "lua"@[0]);
    assert("bmp"@.len() != "otmod"@.len());
    assert("ttf"@[0] != "otf"@[0]);
    assert("ttf"@.len() != "woff"@.len());
    assert("ttf"@.len() != "font"@.len());
    assert("ttf"@.len() != "otui"@.len());
    assert("ttf"@[0] != "lua"@[0]);
    assert("ttf"@.len() != "otmod"@.len());
    assert("otf"@.len() != "woff"@.len());
    assert("otf"@.len() != "font"@.len());
    assert("otf"@.len() != "otui"@.len());
    assert("otf"@[0] != "lua"@[0]);
    assert("otf"@.len() != "otmod"@.len());
    assert("woff"@[0] != "font"@[0]);
    assert("woff"@[0] != "otui"@[0]);
    assert("woff"@.len() != "lua"@.len());
    assert("woff"@.len() != "otmod"@.len());
    assert("font"@[0] != "otui"@[0]);
    assert("font"@.len() != "lua"@.len());
    assert("font"@.len() != "otmod"@.len());
    assert("otui"@.len() != "lua"@.len());
    assert("otui"@.len() != "otmod"@.len());
    assert("lua"@.len() != "otmod"@.len());
}

/// What opening a file in the resource list does, by extension in any ASCII
/// case: `png`, `jpg` and `jpeg` are shown as images; `otui`, `lua`,
/// `otmod`, `html`, `css` and `txt` are opened as text; anything else is
/// ignored.
pub proof fn law_file_actions(e: Seq<char>)
    ensures
        lower(e) == "png"@ || lower(e) == "jpg"@ || lower(e) == "jpeg"@ ==> file_action_of(e) == FileAction::ShowImage,
        lower(e) == "otui"@ || lower(e) == "lua"@ || lower(e) == "otmod"@ || lower(e) == "html"@ || lower(e) == "css"@ || lower(e) == "txt"@ ==> file_action_of(e) == FileAction::Open,
        lower(e) != "png"@ && lower(e) != "jpg"@ && lower(e) != "jpeg"@ && lower(e) != "otui"@ && lower(e) != "lua"@ && lower(e) != "otmod"@ && lower(e) != "html"@ && lower(e) != "css"@ && lower(e) != "txt"@ ==> file_action_of(e) == FileAction::Ignore,
{
    reveal_strlit("png");
    reveal_strlit("jpg");
    reveal_strlit("jpeg");
    reveal_strlit("otui");
    reveal_strlit("lua");
    reveal_strlit("otmod");
    reveal_strlit("html");
    reveal_strlit("css");
    reveal_strlit("txt");
    assert("png"@[0] != "jpg"@[0]);
    assert("png"@.len() != "jpeg"@.len());
    assert("png"@.len() != "otui"@.len());
    assert("png"@[0] != "lua"@[0]);
    assert("png"@.len() != "otmod"@.len());
    assert("png"@.len() != "html"@.len());
    assert("png"@[0] != "css"@[0]);
    assert("png"@[0] != "txt"@[0]);
    assert("jpg"@.len() != "jpeg"@.len());
    assert("jpg"@.len() != "otui"@.len());
    assert("jpg"@[0] != "lua"@[0]);
    assert("jpg"@.len() != "otmod"@.len());
    assert("jpg"@.len() != "html"@.len());
    assert("jpg"@[0] != "css"@[0]);
    assert("jpg"@[0] != "txt"@[0]);
    assert("jpeg"@[0] != "otui"@[0]);
    assert("jpeg"@.len() != "lua"@.len());
    assert("jpeg"@.len() != "otmod"@.len());
    assert("jpeg"@[0] != "html"@[0]);
    assert("jpeg"@.len() != "css"@.len());
    assert("jpeg"@.len() != "txt"@.len());
    assert("otui"@.len() != "lua"@.len());
    assert("otui"@.len() != "otmod"@.len());
    assert("otui"@[0] != "html"@[0]);
    assert("otui"@.len() != "css"@.len());
    assert("otui"@.len() != "txt"@.len());
    assert("lua"@.len() != "otmod"@.len());
    assert("lua"@.len() != "html"@.len());
    assert("lua"@[0] != "css"@[0]);
    assert("lua"@[0] != "txt"@[0]);
    assert("otmod"@.len() != "html"@.len());
    assert("otmod"@.len() != "css"@.len());
    assert("otmod"@.len() != "txt"@.len());
    assert("html"@.len() != "css"@.len());
    assert("html"@.len() != "txt"@.len());
    assert("css"@[0] != "txt"@[0]);
}

/// The labels shown for the kinds.
pub proof fn law_kind_labels()
    ensures
        kind_label(AssetKind::Image) == seq!['I', 'm', 'a', 'g', 'e', 'm'],
        kind_label(AssetKind::Font) == seq!['F', 'o', 'n', 't', 'e'],
        kind_label(AssetKind::Interface) == seq!['O', 'T', 'U', 'I'],
        kind_label(AssetKind::Script) == seq!['L', 'u', 'a'],
        kind_label(AssetKind::Module) == seq!['O', 'T', 'M', 'O', 'D'],
{
    reveal_strlit("Imagem");
    reveal_strlit("Fonte");
    reveal_strlit("OTUI");
    reveal_strlit("Lua");
    reveal_strlit("OTMOD");
    assert("Imagem"@ =~= seq!['I', 'm', 'a', 'g', 'e', 'm']);
    assert("Fonte"@ =~= seq!['F', 'o', 'n', 't', 'e']);
    assert("OTUI"@ =~= seq!['O', 'T', 'U', 'I']);
    assert("Lua"@ =~= seq!['L', 'u', 'a']);
    assert("OTMOD"@ =~= seq!['O', 'T', 'M', 'O', 'D']);
}

/// The order of paths in the catalog is the order of their characters'
/// code points: `a` comes before `b` exactly when `a` is a proper prefix of
/// `b`, or at the first position where they differ `a` has the smaller
/// character.
pub proof fn law_path_order(a: Seq<char>, b: Seq<char>)
    ensures
        text_lt(a, b) <==> ((a.len() < b.len() && b.subrange(0, a.len() as int) == a) || exists|i: int|
            #![trigger a.subrange(0, i)]
            0 <= i < a.len() && i < b.len() && a.subrange(0, i) == b.subrange(0, i) && a[i] < b[i]),
    decreases a.len(),
{
    if a.len() == 0 {
        assert(b.subrange(0, 0) =~= a);
    } else if b.len() == 0 {
    } else if a[0] != b[0] {
        if a[0] < b[0] {
            assert(a.subrange(0, 0) =~= b.subrange(0, 0));
        }
        if a.len() < b.len() && b.subrange(0, a.len() as int) == a {
            assert(b.subrange(0, a.len() as int)[0] == b[0]);
        }
        if exists|i: int| 0 <= i < a.len() && i < b.len() && a.subrange(0, i) == b.subrange(0, i) && a[i] < b[i] {
            let i = choose|i: int| 0 <= i < a.len() && i < b.len() && a.subrange(0, i) == b.subrange(0, i) && a[i] < b[i];
            if i > 0 {
                assert(a.subrange(0, i)[0] == b.subrange(0, i)[0]);
            }
        }
    } else {
        let a1 = a.drop_first();
        let b1 = b.drop_first();
        law_path_order(a1, b1);
        if a1.len() < b1.len() && b1.subrange(0, a1.len() as int) == a1 {
            assert(b.subrange(0, a.len() as int) =~= a) by {
                assert forall|k: int| 0 <= k < a.len() implies b.subrange(0, a.len() as int)[k] == a[k] by {
                    if k > 0 {
                        assert(b1.subrange(0, a1.len() as int)[k - 1] == a1[k - 1]);
                    }
                }
            }
        }
        if a.len() < b.len() && b.subrange(0, a.len() as int) == a {
            assert(b1.subrange(0, a1.len() as int) =~= a1);
        }
        if exists|i: int| 0 <= i < a1.len() && i < b1.len() && a1.subrange(0, i) == b1.subrange(0, i) && a1[i] < b1[i] {
            let i = choose|i: int| 0 <= i < a1.len() && i < b1.len() && a1.subrange(0, i) == b1.subrange(0, i) && a1[i] < b1[i];
            assert(a.subrange(0, i + 1) =~= b.subrange(0, i + 1)) by {
                assert forall|k: int| 0 <= k < i + 1 implies a[k] == b[k] by {
                    if k > 0 {
                        assert(a1.subrange(0, i)[k - 1] == b1.subrange(0, i)[k - 1]);
                    }
                }
            }
            assert(a[i + 1] < b[i + 1]);
        }
        if exists|i: int| 0 <= i < a.len() && i < b.len() && a.subrange(0, i) == b.subrange(0, i) && a[i] < b[i] {
            let i = choose|i: int| 0 <= i < a.len() && i < b.len() && a.subrange(0, i) == b.subrange(0, i) && a[i] < b[i];
            assert(i > 0);
            assert(a1.subrange(0, i - 1) =~= b1.subrange(0, i - 1)) by {
                assert forall|k: int| 0 <= k < i - 1 implies a1[k] == b1[k] by {
                    assert(a.subrange(0, i)[k + 1] == b.subrange(0, i)[k + 1]);
                }
            }
            assert(a1[i - 1] < b1[i - 1]);
        }
    }
}

/// A sorted catalog lists no path after one that comes before it.
pub proof fn law_sorted_catalog(s: Seq<AssetEntry>)
    ensures
        sorted_by_relative(s) <==> forall|p: int, q: int|
            0 <= p < q < s.len() ==> !text_lt(#[trigger] s[q].relative@, #[trigger] s[p].relative@),
{
}

/// The resource filter, without ASCII case: an empty filter shows every
/// entry; an entry whose path or kind label holds the filter is shown; an
/// entry whose lower-cased path and kind label both lack the lower-cased,
/// non-empty filter is hidden.
pub proof fn law_resource_filter(relative: Seq<char>, kind: AssetKind, filter: Seq<char>)
    ensures
        filter.len() == 0 ==> entry_shown(relative, kind, filter),
        has_infix(relative, filter) ==> entry_shown(relative, kind, filter),
        has_infix(kind_label(kind), filter) ==> entry_shown(relative, kind, filter),
        lower(filter).len() > 0 && !has_infix(lower(relative), lower(filter)) && !has_infix(
            lower(kind_label(kind)),
            lower(filter),
        ) ==> !entry_shown(relative, kind, filter),
{
    if has_infix(relative, filter) {
        lemma_lower_infix(relative, filter);
    }
    if has_infix(kind_label(kind), filter) {
        lemma_lower_infix(kind_label(kind), filter);
    }
}

proof fn lemma_lower_infix(h: Seq<char>, n: Seq<char>)
    requires
        has_infix(h, n),
    ensures
        has_infix(lower(h), lower(n)),
{
    let i = choose|i: int| 0 <= i && i + n.len() <= h.len() && #[trigger] h.subrange(i, i + n.len()) == n;
    assert(lower(h).subrange(i, i + n.len()) =~= lower(n)) by {
        assert forall|k: int| 0 <= k < n.len() implies lower(h).subrange(i, i + n.len())[k] == lower(n)[k] by {
            assert(h[i + k] == h.subrange(i, i + n.len())[k]);
        }
    }
}

} // verus!
