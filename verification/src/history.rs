//! Undo/redo history of a document. Each step keeps only the bytes that
//! changed: the common prefix and suffix of the before and after contents are
//! left out. At most 150 steps and 32 MiB of changed bytes are kept.

use vstd::prelude::*;
use std::collections::VecDeque;

use crate::document::{
    content, edits_outcome, has_bom, law_parse_roundtrip, law_reparse_own_bytes, lemma_edits_keep_kind,
    lines_bytes, lines_canonical, parse_refusal, reparsed, Document, DocumentView, Edit,
};

verus! {

/// Most steps kept.
pub const MAX_STEPS: usize = 150;

/// Most changed bytes kept, over all steps.
pub const MAX_HISTORY_BYTES: usize = 32 * 1024 * 1024;

/// One step: at byte `at`, `old` was replaced by `new`.
struct Change {
    at: usize,
    old: Vec<u8>,
    new: Vec<u8>,
    label: String,
}

/// A step: at byte `at`, `old` was replaced by `new`, under a label.
pub struct ChangeView {
    pub at: nat,
    pub old: Seq<u8>,
    pub new: Seq<u8>,
    pub label: Seq<char>,
}

impl View for Change {
    type V = ChangeView;

    closed spec fn view(&self) -> ChangeView {
        ChangeView { at: self.at as nat, old: self.old@, new: self.new@, label: self.label@ }
    }
}

/// The undo and redo stacks of a document.
pub struct History {
    undo: VecDeque<Change>,
    redo: Vec<Change>,
    bytes: usize,
}

/// The steps to undo (oldest first) and to redo (most recently undone last).
pub struct HistoryView {
    pub undo: Seq<ChangeView>,
    pub redo: Seq<ChangeView>,
}

impl View for History {
    type V = HistoryView;

    closed spec fn view(&self) -> HistoryView {
        HistoryView {
            undo: self.undo@.map_values(|c: Change| c@),
            redo: self.redo@.map_values(|c: Change| c@),
        }
    }
}

/// Bytes held by a step.
pub open spec fn change_size(c: ChangeView) -> nat {
    c.old.len() + c.new.len()
}

/// Bytes held by the steps.
pub open spec fn changes_size(s: Seq<ChangeView>) -> nat
    decreases s.len(),
{
    if s.len() == 0 {
        0
    } else {
        changes_size(s.drop_last()) + change_size(s.last())
    }
}

impl HistoryView {
    /// Bounds that every history keeps.
    pub open spec fn wf(self) -> bool {
        &&& self.undo.len() + self.redo.len() <= MAX_STEPS
        &&& changes_size(self.undo) + changes_size(self.redo) <= MAX_HISTORY_BYTES
    }
}

/// Length of the common prefix of `a` and `b`.
pub open spec fn common_prefix(a: Seq<u8>, b: Seq<u8>) -> nat
    decreases a.len(),
{
    if a.len() > 0 && b.len() > 0 && a[0] == b[0] {
        1 + common_prefix(a.drop_first(), b.drop_first())
    } else {
        0
    }
}

/// Length of the common suffix of `a` and `b`.
pub open spec fn common_suffix(a: Seq<u8>, b: Seq<u8>) -> nat
    decreases a.len(),
{
    if a.len() > 0 && b.len() > 0 && a.last() == b.last() {
        1 + common_suffix(a.drop_last(), b.drop_last())
    } else {
        0
    }
}

/// The step from `before` to `after`: the bytes between their common prefix
/// and their common suffix (the suffix taken after the prefix).
pub open spec fn change_between(before: Seq<u8>, after: Seq<u8>, label: Seq<char>) -> ChangeView {
    let p = common_prefix(before, after);
    let s = common_suffix(before.subrange(p as int, before.len() as int), after.subrange(p as int, after.len() as int));
    ChangeView {
        at: p,
        old: before.subrange(p as int, before.len() - s),
        new: after.subrange(p as int, after.len() - s),
        label,
    }
}

/// Drops the oldest steps until at most 150 steps and 32 MiB remain.
pub open spec fn trimmed_undo(undo: Seq<ChangeView>) -> Seq<ChangeView>
    decreases undo.len(),
{
    if undo.len() > 0 && (undo.len() > MAX_STEPS || changes_size(undo) > MAX_HISTORY_BYTES) {
        trimmed_undo(undo.drop_first())
    } else {
        undo
    }
}

/// The history after recording a step: the redo stack is cleared.
pub open spec fn recorded(h: HistoryView, c: ChangeView) -> HistoryView {
    HistoryView { undo: trimmed_undo(h.undo.push(c)), redo: Seq::empty() }
}

/// `b` with `len` bytes at `at` replaced by `ins`.
pub open spec fn splice(b: Seq<u8>, at: int, len: int, ins: Seq<u8>) -> Seq<u8> {
    b.subrange(0, at) + ins + b.subrange(at + len, b.len() as int)
}

/// The content that undoing the last step gives back.
pub open spec fn undone(h: HistoryView, cur: Seq<u8>) -> Seq<u8> {
    let c = h.undo.last();
    splice(cur, c.at as int, c.new.len() as int, c.old)
}

/// The content that redoing the last undone step gives back.
pub open spec fn redone(h: HistoryView, cur: Seq<u8>) -> Seq<u8> {
    let c = h.redo.last();
    splice(cur, c.at as int, c.old.len() as int, c.new)
}


pub proof fn lemma_common_prefix(a: Seq<u8>, b: Seq<u8>)
    ensures
        common_prefix(a, b) <= a.len(),
        common_prefix(a, b) <= b.len(),
        a.subrange(0, common_prefix(a, b) as int) == b.subrange(0, common_prefix(a, b) as int),
        common_prefix(a, b) < a.len() && common_prefix(a, b) < b.len() ==> a[common_prefix(a, b) as int]
            != b[common_prefix(a, b) as int],
    decreases a.len(),
{
    if a.len() > 0 && b.len() > 0 && a[0] == b[0] {
        lemma_common_prefix(a.drop_first(), b.drop_first());
        let p = common_prefix(a, b) as int;
        assert(a.subrange(0, p) =~= seq![a[0]] + a.drop_first().subrange(0, p - 1));
        assert(b.subrange(0, p) =~= seq![b[0]] + b.drop_first().subrange(0, p - 1));
    } else {
        assert(a.subrange(0, 0) =~= b.subrange(0, 0));
    }
}

pub proof fn lemma_common_suffix(a: Seq<u8>, b: Seq<u8>)
    ensures
        common_suffix(a, b) <= a.len(),
        common_suffix(a, b) <= b.len(),
        a.subrange(a.len() - common_suffix(a, b), a.len() as int) == b.subrange(
            b.len() - common_suffix(a, b),
            b.len() as int,
        ),
        common_suffix(a, b) < a.len() && common_suffix(a, b) < b.len() ==> a[a.len() - common_suffix(a, b) - 1]
            != b[b.len() - common_suffix(a, b) - 1],
    decreases a.len(),
{
    if a.len() > 0 && b.len() > 0 && a.last() == b.last() {
        lemma_common_suffix(a.drop_last(), b.drop_last());
        let s = common_suffix(a, b) as int;
        assert(a.subrange(a.len() - s, a.len() as int) =~= a.drop_last().subrange(
            a.len() - s,
            a.len() - 1,
        ).push(a.last()));
        assert(b.subrange(b.len() - s, b.len() as int) =~= b.drop_last().subrange(
            b.len() - s,
            b.len() - 1,
        ).push(b.last()));
    } else {
        assert(a.subrange(a.len() as int, a.len() as int) =~= b.subrange(b.len() as int, b.len() as int));
    }
}

proof fn lemma_common_prefix_exact(a: Seq<u8>, b: Seq<u8>, k: nat)
    requires
        k <= a.len(),
        k <= b.len(),
        forall|j: int| 0 <= j < k ==> #[trigger] a[j] == b[j],
        k < a.len() && k < b.len() ==> a[k as int] != b[k as int],
    ensures
        common_prefix(a, b) == k,
    decreases k,
{
    if k > 0 {
        assert(a[0] == b[0]);
        assert forall|j: int| 0 <= j < k - 1 implies #[trigger] a.drop_first()[j] == b.drop_first()[j] by {
            assert(a[j + 1] == b[j + 1]);
        }
        lemma_common_prefix_exact(a.drop_first(), b.drop_first(), (k - 1) as nat);
    }
}

proof fn lemma_common_suffix_exact(a: Seq<u8>, b: Seq<u8>, k: nat)
    requires
        k <= a.len(),
        k <= b.len(),
        forall|j: int| 0 <= j < k ==> #[trigger] a[a.len() - 1 - j] == b[b.len() - 1 - j],
        k < a.len() && k < b.len() ==> a[a.len() - 1 - k] != b[b.len() - 1 - k],
    ensures
        common_suffix(a, b) == k,
    decreases k,
{
    if k > 0 {
        assert(a[a.len() - 1 - 0] == b[b.len() - 1 - 0]);
        let a1 = a.drop_last();
        let b1 = b.drop_last();
        assert forall|j: int| 0 <= j < k - 1 implies #[trigger] a1[a1.len() - 1 - j] == b1[b1.len() - 1 - j] by {
            assert(a[a.len() - 1 - (j + 1)] == b[b.len() - 1 - (j + 1)]);
        }
        if k - 1 < a1.len() && k - 1 < b1.len() {
            assert(a1[a1.len() - 1 - (k - 1)] == a[a.len() - 1 - k]);
            assert(b1[b1.len() - 1 - (k - 1)] == b[b.len() - 1 - k]);
        }
        lemma_common_suffix_exact(a1, b1, (k - 1) as nat);
    }
}

/// Undoing the step from `before` to `after` on `after` gives `before`
/// back, and redoing it on `before` gives `after` back.
#[verifier::spinoff_prover]
pub proof fn lemma_change_between(before: Seq<u8>, after: Seq<u8>, label: Seq<char>)
    ensures
        ({
            let c = change_between(before, after, label);
            &&& splice(after, c.at as int, c.new.len() as int, c.old) == before
            &&& splice(before, c.at as int, c.old.len() as int, c.new) == after
            &&& c.at + c.new.len() <= after.len()
            &&& c.at + c.old.len() <= before.len()
            &&& change_size(c) <= before.len() + after.len()
        }),
{
    let p = common_prefix(before, after) as int;
    lemma_common_prefix(before, after);
    let x = before.subrange(p, before.len() as int);
    let y = after.subrange(p, after.len() as int);
    let s = common_suffix(x, y) as int;
    lemma_common_suffix(x, y);
    let c = change_between(before, after, label);
    let bs = before.subrange(before.len() - s, before.len() as int);
    let as_ = after.subrange(after.len() - s, after.len() as int);
    assert(x.subrange(x.len() - s, x.len() as int) =~= bs);
    assert(y.subrange(y.len() - s, y.len() as int) =~= as_);
    assert(bs == as_);
    let bp = before.subrange(0, p);
    let ap = after.subrange(0, p);
    assert(bp == ap);
    assert(c.old == before.subrange(p, before.len() - s));
    assert(c.new == after.subrange(p, after.len() - s));
    assert(before =~= bp + c.old + bs);
    assert(after =~= ap + c.new + as_);
    assert(splice(after, p, c.new.len() as int, c.old) =~= ap + c.old + as_);
    assert(splice(before, p, c.old.len() as int, c.new) =~= bp + c.new + bs);
}

pub proof fn lemma_changes_size_front(s: Seq<ChangeView>)
    requires
        s.len() > 0,
    ensures
        changes_size(s) == change_size(s[0]) + changes_size(s.drop_first()),
    decreases s.len(),
{
    if s.len() > 1 {
        lemma_changes_size_front(s.drop_last());
        assert(s.drop_last().drop_first() =~= s.drop_first().drop_last());
        assert(s.drop_first().last() == s.last());
    } else {
        assert(s.drop_first() =~= Seq::<ChangeView>::empty());
        assert(s.drop_last() =~= Seq::<ChangeView>::empty());
    }
}

/// Trimming keeps a non-empty tail, and keeps the newest step when it alone
/// fits in the budget.
pub proof fn lemma_trimmed_undo(s: Seq<ChangeView>)
    requires
        s.len() > 0,
        change_size(s.last()) <= MAX_HISTORY_BYTES,
    ensures
        trimmed_undo(s).len() > 0,
        trimmed_undo(s).last() == s.last(),
        trimmed_undo(s).len() <= MAX_STEPS,
        changes_size(trimmed_undo(s)) <= MAX_HISTORY_BYTES,
    decreases s.len(),
{
    if s.len() > MAX_STEPS || changes_size(s) > MAX_HISTORY_BYTES {
        if s.len() == 1 {
            assert(s.drop_last() =~= Seq::<ChangeView>::empty());
            assert(changes_size(s.drop_last()) == 0);
            assert(changes_size(s) == change_size(s.last()));
        }
        assert(s.len() > 1);
        lemma_trimmed_undo(s.drop_first());
        assert(s.drop_first().last() == s.last());
    }
}

impl History {
    /// The history keeps its bounds and counts its bytes.
    pub closed spec fn inv(&self) -> bool {
        &&& self@.wf()
        &&& self.bytes == changes_size(self@.undo) + changes_size(self@.redo)
    }

    /// An empty history.
    pub fn new() -> (h: History)
        ensures
            h.inv(),
            h@.undo.len() == 0,
            h@.redo.len() == 0,
    {
        let h = History { undo: VecDeque::new(), redo: Vec::new(), bytes: 0 };
        proof {
            assert(h@.undo =~= Seq::<ChangeView>::empty());
            assert(h@.redo =~= Seq::<ChangeView>::empty());
        }
        h
    }
}

impl Default for History {
    fn default() -> (h: History)
        ensures
            h.inv(),
            h@.undo.len() == 0,
            h@.redo.len() == 0,
    {
        History::new()
    }
}

fn same_bytes(a: &Vec<u8>, b: &Vec<u8>) -> (r: bool)
    ensures
        r == (a@ == b@),
{
    if a.len() != b.len() {
        return false;
    }
    let mut i: usize = 0;
    while i < a.len()
        invariant
            a@.len() == b@.len(),
            i <= a@.len(),
            forall|j: int| 0 <= j < i ==> a@[j] == b@[j],
        decreases a.len() - i,
    {
        if a[i] != b[i] {
            return false;
        }
        i = i + 1;
    }
    assert(a@ =~= b@);
    true
}

fn copy_bytes(b: &Vec<u8>, from: usize, to: usize) -> (r: Vec<u8>)
    requires
        from <= to <= b@.len(),
    ensures
        r@ == b@.subrange(from as int, to as int),
{
    let mut r: Vec<u8> = Vec::new();
    let mut i = from;
    while i < to
        invariant
            from <= i <= to <= b@.len(),
            r@ == b@.subrange(from as int, i as int),
        decreases to - i,
    {
        r.push(b[i]);
        i = i + 1;
        proof {
            assert(b@.subrange(from as int, i as int) =~= b@.subrange(from as int, i - 1).push(b@[i - 1]));
        }
    }
    r
}

fn prefix_len(a: &Vec<u8>, b: &Vec<u8>) -> (r: usize)
    ensures
        r == common_prefix(a@, b@),
{
    let mut i: usize = 0;
    while i < a.len() && i < b.len() && a[i] == b[i]
        invariant
            i <= a@.len(),
            i <= b@.len(),
            forall|j: int| 0 <= j < i ==> #[trigger] a@[j] == b@[j],
        decreases a.len() - i,
    {
        i = i + 1;
    }
    proof {
        lemma_common_prefix_exact(a@, b@, i as nat);
    }
    i
}

fn suffix_len(a: &Vec<u8>, b: &Vec<u8>, from: usize) -> (r: usize)
    requires
        from <= a@.len(),
        from <= b@.len(),
    ensures
        r == common_suffix(a@.subrange(from as int, a@.len() as int), b@.subrange(from as int, b@.len() as int)),
{
    let ghost x = a@.subrange(from as int, a@.len() as int);
    let ghost y = b@.subrange(from as int, b@.len() as int);
    let la = a.len() - from;
    let lb = b.len() - from;
    let mut k: usize = 0;
    while k < la && k < lb && a[a.len() - 1 - k] == b[b.len() - 1 - k]
        invariant
            x == a@.subrange(from as int, a@.len() as int),
            y == b@.subrange(from as int, b@.len() as int),
            la == x.len(),
            lb == y.len(),
            a@.len() == from + la,
            b@.len() == from + lb,
            k <= la,
            k <= lb,
            forall|j: int| 0 <= j < k ==> #[trigger] x[x.len() - 1 - j] == y[y.len() - 1 - j],
        decreases la - k,
    {
        assert(x[x.len() - 1 - k] == a@[a@.len() - 1 - k]);
        assert(y[y.len() - 1 - k] == b@[b@.len() - 1 - k]);
        k = k + 1;
    }
    proof {
        if k < la && k < lb {
            assert(x[x.len() - 1 - k] == a@[a@.len() - 1 - k]);
            assert(y[y.len() - 1 - k] == b@[b@.len() - 1 - k]);
        }
        lemma_common_suffix_exact(x, y, k as nat);
    }
    k
}

/// `b` with `len` bytes at `at` replaced by `ins`.
fn spliced(b: &Vec<u8>, at: usize, len: usize, ins: &Vec<u8>) -> (r: Vec<u8>)
    requires
        at + len <= b@.len(),
    ensures
        r@ == splice(b@, at as int, len as int, ins@),
{
    let bl = b.len();
    let mut r = copy_bytes(b, 0, at);
    let mut i: usize = 0;
    let ghost start = r@;
    while i < ins.len()
        invariant
            i <= ins@.len(),
            r@ == start + ins@.subrange(0, i as int),
        decreases ins.len() - i,
    {
        r.push(ins[i]);
        i = i + 1;
        proof {
            assert(ins@.subrange(0, i as int) =~= ins@.subrange(0, i - 1).push(ins@[i - 1]));
        }
    }
    let tail = copy_bytes(b, at + len, bl);
    let mut j: usize = 0;
    let ghost mid = r@;
    while j < tail.len()
        invariant
            j <= tail@.len(),
            r@ == mid + tail@.subrange(0, j as int),
        decreases tail.len() - j,
    {
        r.push(tail[j]);
        j = j + 1;
        proof {
            assert(tail@.subrange(0, j as int) =~= tail@.subrange(0, j - 1).push(tail@[j - 1]));
        }
    }
    proof {
        assert(ins@.subrange(0, ins@.len() as int) =~= ins@);
        assert(tail@.subrange(0, tail@.len() as int) =~= tail@);
        assert(r@ =~= splice(b@, at as int, len as int, ins@));
    }
    r
}


/// The last step to undo fits in the current content.
pub open spec fn undo_fits(h: HistoryView, cur: Seq<u8>) -> bool {
    h.undo.len() > 0 ==> h.undo.last().at + h.undo.last().new.len() <= cur.len()
}

/// The last step to redo fits in the current content.
pub open spec fn redo_fits(h: HistoryView, cur: Seq<u8>) -> bool {
    h.redo.len() > 0 ==> h.redo.last().at + h.redo.last().old.len() <= cur.len()
}

impl History {
    /// Drops the redo stack.
    fn clear_redo(&mut self)
        requires
            old(self).inv(),
        ensures
            final(self).bytes == changes_size(old(self)@.undo),
            final(self)@ == (HistoryView { redo: Seq::empty(), ..old(self)@ }),
            final(self).undo == old(self).undo,
    {
        while self.redo.len() > 0
            invariant
                self.undo == old(self).undo,
                self.bytes == changes_size(self@.undo) + changes_size(self@.redo),
            decreases self.redo.len(),
        {
            let ghost before = self@.redo;
            let c = self.redo.pop().unwrap();
            proof {
                assert(self@.redo =~= before.drop_last());
                assert(before.last() == c@);
            }
            self.bytes = self.bytes - (c.old.len() + c.new.len());
        }
        proof {
            assert(self@.redo =~= Seq::<ChangeView>::empty());
        }
    }

    /// Pushes a step and drops the oldest ones beyond the bounds.
    fn push_trimmed(&mut self, c: Change)
        requires
            old(self)@.redo.len() == 0,
            old(self).bytes == changes_size(old(self)@.undo),
            old(self).bytes <= MAX_HISTORY_BYTES,
            change_size(c@) <= MAX_HISTORY_BYTES,
        ensures
            final(self)@ == (HistoryView { undo: trimmed_undo(old(self)@.undo.push(c@)), redo: Seq::empty() }),
            final(self).inv(),
    {
        let ghost pushed = self@.undo.push(c@);
        self.bytes = self.bytes + (c.old.len() + c.new.len());
        self.undo.push_back(c);
        proof {
            assert(self@.undo =~= pushed);
            assert(pushed.drop_last() =~= old(self)@.undo);
            lemma_trimmed_undo(pushed);
        }
        while self.undo.len() > MAX_STEPS || self.bytes > MAX_HISTORY_BYTES
            invariant
                trimmed_undo(self@.undo) == trimmed_undo(pushed),
                self@.redo.len() == 0,
                self.bytes == changes_size(self@.undo),
            ensures
                self@.undo == trimmed_undo(pushed),
                self@.redo.len() == 0,
                self.bytes == changes_size(self@.undo),
            decreases self.undo.len(),
        {
            let ghost cur = self@.undo;
            match self.undo.pop_front() {
                Some(old_c) => {
                    proof {
                        assert(self@.undo =~= cur.drop_first());
                        lemma_changes_size_front(cur);
                        assert(cur[0] == old_c@);
                    }
                    self.bytes = self.bytes - (old_c.old.len() + old_c.new.len());
                },
                None => {
                    proof {
                        assert(cur.len() == 0);
                    }
                    break;
                },
            }
        }
        proof {
            assert(self@.redo =~= Seq::<ChangeView>::empty());
        }
    }

    /// Applies the edits to the document, as one step, and records the
    /// change, if any. A failed edit leaves both unchanged; edits that leave
    /// the bytes as they were record nothing.
    #[verifier::rlimit(40)]
    pub fn apply(&mut self, d: &mut Document, label: &str, edits: &[Edit]) -> (r: Result<(), String>)
        requires
            old(self).inv(),
            old(d)@.wf(),
        ensures
            final(self).inv(),
            final(d)@.wf(),
            final(d).path_value() == old(d).path_value(),
            match edits_outcome(old(d)@, edits@) {
                Err(m) => r matches Err(e) && e@ == m && final(d)@ == old(d)@ && final(self)@ == old(self)@,
                Ok(nv) => r is Ok && if content(nv) == content(old(d)@) {
                    final(d)@ == old(d)@ && final(self)@ == old(self)@
                } else {
                    final(d)@ == nv && final(self)@ == recorded(
                        old(self)@,
                        change_between(content(old(d)@), content(nv), label@),
                    )
                },
            },
    {
        let before = d.bytes();
        let mut next = d.duplicate();
        match next.perform_all(edits) {
            Ok(_) => {},
            Err(e) => return Err(e),
        }
        let after = next.bytes();
        if same_bytes(&before, &after) {
            return Ok(());
        }
        self.clear_redo();
        let at = prefix_len(&before, &after);
        proof {
            lemma_common_prefix(before@, after@);
        }
        let suffix = suffix_len(&before, &after, at);
        proof {
            lemma_common_suffix(before@.subrange(at as int, before@.len() as int), after@.subrange(at as int, after@.len() as int));
        }
        let c = Change {
            at,
            old: copy_bytes(&before, at, before.len() - suffix),
            new: copy_bytes(&after, at, after.len() - suffix),
            label: String::from_str(label),
        };
        let ghost cv = change_between(before@, after@, label@);
        proof {
            assert(c@ == cv);
            lemma_change_between(before@, after@, label@);
        }
        self.push_trimmed(c);
        d.adopt(next);
        Ok(())
    }
}


impl History {
    /// Whether `undo` can run on this document (its last step fits).
    pub fn can_undo(&self, d: &Document) -> (r: bool)
        ensures
            r == undo_fits(self@, content(d@)),
    {
        if self.undo.len() == 0 {
            return true;
        }
        let c = &self.undo[self.undo.len() - 1];
        let b = d.bytes();
        proof {
            assert(self@.undo.last() == c@);
        }
        c.at <= b.len() && c.new.len() <= b.len() - c.at
    }

    /// Whether `redo` can run on this document (its last step fits).
    pub fn can_redo(&self, d: &Document) -> (r: bool)
        ensures
            r == redo_fits(self@, content(d@)),
    {
        if self.redo.len() == 0 {
            return true;
        }
        let c = &self.redo[self.redo.len() - 1];
        let b = d.bytes();
        proof {
            assert(self@.redo.last() == c@);
        }
        c.at <= b.len() && c.old.len() <= b.len() - c.at
    }

    /// Undoes the last step: its old bytes go back in place of its new ones.
    pub fn undo(&mut self, d: &mut Document) -> (r: Result<(), String>)
        requires
            old(self).inv(),
            old(d)@.wf(),
            undo_fits(old(self)@, content(old(d)@)),
        ensures
            final(self).inv(),
            final(d)@.wf(),
            final(d).path_value() == old(d).path_value(),
            if old(self)@.undo.len() == 0 {
                r is Ok && final(d)@ == old(d)@ && final(self)@ == old(self)@
            } else {
                match reparsed(old(d)@, undone(old(self)@, content(old(d)@))) {
                    Ok(nv) => r is Ok && final(d)@ == nv && final(self)@ == (HistoryView {
                        undo: old(self)@.undo.drop_last(),
                        redo: old(self)@.redo.push(old(self)@.undo.last()),
                    }),
                    Err(m) => r matches Err(e) && e@ == m && final(d)@ == old(d)@ && final(self)@
                        == old(self)@,
                }
            },
    {
        if self.undo.len() > 0 {
            let n = self.undo.len();
            let b = d.bytes();
            let nb = {
                let c = &self.undo[n - 1];
                proof {
                    assert(self@.undo.last() == c@);
                }
                spliced(&b, c.at, c.new.len(), &c.old)
            };
            match d.replace_bytes(nb.as_slice()) {
                Ok(_) => {},
                Err(e) => return Err(e),
            }
            let ghost hv = self@;
            let c = self.undo.pop_back().unwrap();
            self.redo.push(c);
            proof {
                assert(self@.undo =~= hv.undo.drop_last());
                assert(self@.redo =~= hv.redo.push(hv.undo.last()));
                assert(changes_size(hv.undo) == changes_size(hv.undo.drop_last()) + change_size(hv.undo.last()));
                assert(self@.redo.drop_last() =~= hv.redo);
            }
        }
        Ok(())
    }

    /// Redoes the last undone step.
    pub fn redo(&mut self, d: &mut Document) -> (r: Result<(), String>)
        requires
            old(self).inv(),
            old(d)@.wf(),
            redo_fits(old(self)@, content(old(d)@)),
        ensures
            final(self).inv(),
            final(d)@.wf(),
            final(d).path_value() == old(d).path_value(),
            if old(self)@.redo.len() == 0 {
                r is Ok && final(d)@ == old(d)@ && final(self)@ == old(self)@
            } else {
                match reparsed(old(d)@, redone(old(self)@, content(old(d)@))) {
                    Ok(nv) => r is Ok && final(d)@ == nv && final(self)@ == (HistoryView {
                        undo: old(self)@.undo.push(old(self)@.redo.last()),
                        redo: old(self)@.redo.drop_last(),
                    }),
                    Err(m) => r matches Err(e) && e@ == m && final(d)@ == old(d)@ && final(self)@
                        == old(self)@,
                }
            },
    {
        if self.redo.len() > 0 {
            let n = self.redo.len();
            let b = d.bytes();
            let nb = {
                let c = &self.redo[n - 1];
                proof {
                    assert(self@.redo.last() == c@);
                }
                spliced(&b, c.at, c.old.len(), &c.new)
            };
            match d.replace_bytes(nb.as_slice()) {
                Ok(_) => {},
                Err(e) => return Err(e),
            }
            let ghost hv = self@;
            let c = self.redo.pop().unwrap();
            self.undo.push_back(c);
            proof {
                assert(self@.redo =~= hv.redo.drop_last());
                assert(self@.undo =~= hv.undo.push(hv.redo.last()));
                assert(changes_size(hv.redo) == changes_size(hv.redo.drop_last()) + change_size(hv.redo.last()));
                assert(self@.undo.drop_last() =~= hv.undo);
            }
        }
        Ok(())
    }

    /// The labels of the last (up to) 20 steps to undo, newest first.
    pub fn labels(&self) -> (r: Vec<&str>)
        ensures
            r@.len() == if self@.undo.len() < 20 {
                self@.undo.len()
            } else {
                20
            },
            forall|i: int| 0 <= i < r@.len() ==> (#[trigger] r@[i])@ == self@.undo[self@.undo.len() - 1 - i].label,
    {
        let mut out: Vec<&str> = Vec::new();
        let n = self.undo.len();
        let mut i: usize = 0;
        while i < n && i < 20
            invariant
                n == self@.undo.len(),
                i <= n,
                i <= 20,
                out@.len() == i,
                forall|j: int| 0 <= j < i ==> (#[trigger] out@[j])@ == self@.undo[n - 1 - j].label,
            decreases n - i,
        {
            let c = &self.undo[n - 1 - i];
            proof {
                assert(self@.undo[n - 1 - i] == c@);
            }
            out.push(c.label.as_str());
            i = i + 1;
        }
        out
    }
}


/// Undo gives back what an edit replaced, and redo gives back the edit:
/// once an edit that changed the bytes of a document is recorded, undoing
/// the last step on the edited bytes yields the bytes from before the edit
/// (which parse exactly when the bytes from before parse, into a document
/// with those bytes), and redoing it on those bytes yields the edited bytes.
pub proof fn law_undo_redo(h: HistoryView, d: DocumentView, es: Seq<Edit>, label: Seq<char>)
    requires
        h.wf(),
        d.wf(),
        edits_outcome(d, es) is Ok,
        edits_outcome(d, es)->Ok_0.wf(),
        content(edits_outcome(d, es)->Ok_0) != content(d),
    ensures
        ({
            let d1 = edits_outcome(d, es)->Ok_0;
            let h1 = recorded(h, change_between(content(d), content(d1), label));
            let h2 = HistoryView { undo: h1.undo.drop_last(), redo: h1.redo.push(h1.undo.last()) };
            &&& h1.wf()
            &&& h1.undo.len() > 0
            &&& undo_fits(h1, content(d1))
            &&& undone(h1, content(d1)) == content(d)
            &&& (parse_refusal(content(d)) is None <==> reparsed(d1, content(d)) is Ok)
            &&& (reparsed(d1, content(d)) matches Ok(d2) ==> content(d2) == content(d))
            &&& h2.wf()
            &&& redo_fits(h2, content(d))
            &&& redone(h2, content(d)) == content(d1)
        }),
{
    let d1 = edits_outcome(d, es)->Ok_0;
    let c = change_between(content(d), content(d1), label);
    lemma_change_between(content(d), content(d1), label);
    let pushed = h.undo.push(c);
    assert(pushed.last() == c);
    lemma_trimmed_undo(pushed);
    let h1 = recorded(h, c);
    assert(changes_size(h1.redo) == 0);
    let h2 = HistoryView { undo: h1.undo.drop_last(), redo: h1.redo.push(h1.undo.last()) };
    assert(h1.redo.push(h1.undo.last()).drop_last() =~= h1.redo);
    assert(changes_size(h2.redo) == change_size(c));
    assert(changes_size(h1.undo) == changes_size(h1.undo.drop_last()) + change_size(c));
    if parse_refusal(content(d)) is None {
        law_parse_roundtrip(content(d), d1.is_otui);
    }
}

/// Every history keeps at most 150 steps and 32 MiB of changed bytes.
pub proof fn law_history_bounds(h: &History)
    requires
        h.inv(),
    ensures
        h@.undo.len() + h@.redo.len() <= MAX_STEPS,
        changes_size(h@.undo) + changes_size(h@.redo) <= MAX_HISTORY_BYTES,
{
}

/// Undo gives back the document: once an edit that changed the bytes of a
/// UTF-8 document is recorded, undoing it on the edited document re-reads
/// the bytes from before, and that gives back the document from before
/// itself (its lines, byte order mark, encoding, nodes and issues; only the
/// bytes last saved are those of the edited document). This holds when the
/// bytes from before parse, and the document's lines are as reading its
/// bytes gives them (as for every document read from bytes).
pub proof fn law_undo_restores_document(h: HistoryView, d: DocumentView, es: Seq<Edit>, label: Seq<char>)
    requires
        h.wf(),
        d.wf(),
        d.utf8,
        lines_canonical(d.lines),
        d.bom || !has_bom(lines_bytes(d.lines)),
        parse_refusal(content(d)) is None,
        edits_outcome(d, es) is Ok,
        edits_outcome(d, es)->Ok_0.wf(),
        content(edits_outcome(d, es)->Ok_0) != content(d),
    ensures
        ({
            let d1 = edits_outcome(d, es)->Ok_0;
            let h1 = recorded(h, change_between(content(d), content(d1), label));
            &&& h1.undo.len() > 0
            &&& undo_fits(h1, content(d1))
            &&& reparsed(d1, undone(h1, content(d1))) == Ok::<DocumentView, Seq<char>>(
                DocumentView { saved: d1.saved, ..d },
            )
        }),
{
    law_undo_redo(h, d, es, label);
    lemma_edits_keep_kind(d, es);
    law_reparse_own_bytes(d, edits_outcome(d, es)->Ok_0);
}

} // verus!
