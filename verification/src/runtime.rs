//! The style sheet model: `.otui` style files define variables (`&name:
//! value`) and styles (`Name < Base` with properties and `$state:` rules);
//! a widget's effective properties come from its style chain, its own
//! properties and the state blocks that match its visual state.

use vstd::prelude::*;

use crate::codec::{chars_of, string_of};
use crate::text::{contains_infix, find, find_char, has_infix, is_whitespace, is_ws, lemma_find, lower, lowered, trim, trimmed};
use crate::document::{prop_views, Document, NodeView, Property, PropertyView, MAX_BYTES};
use crate::layout::{strip_quotes, unquoted};
use crate::text_map::TextMap;

verus! {

/// The interaction state a widget is drawn in.
#[derive(Clone, Copy, Debug, PartialEq, Eq, Structural)]
pub struct VisualState {
    pub hovered: bool,
    pub pressed: bool,
    pub disabled: bool,
    pub checked: bool,
    pub on: bool,
    pub focused: bool,
    pub dragging: bool,
}

/// The state with every flag off.
pub open spec fn idle_state() -> VisualState {
    VisualState {
        hovered: false,
        pressed: false,
        disabled: false,
        checked: false,
        on: false,
        focused: false,
        dragging: false,
    }
}

impl Default for VisualState {
    fn default() -> (r: VisualState)
        ensures
            r == idle_state(),
    {
        VisualState {
            hovered: false,
            pressed: false,
            disabled: false,
            checked: false,
            on: false,
            focused: false,
            dragging: false,
        }
    }
}

/// The flag that a state condition name reads (unknown names read `false`).
pub open spec fn state_flag(name: Seq<char>, s: VisualState) -> bool {
    if name == "hover"@ || name == "hovered"@ {
        s.hovered
    } else if name == "pressed"@ {
        s.pressed
    } else if name == "disabled"@ {
        s.disabled
    } else if name == "checked"@ {
        s.checked
    } else if name == "on"@ {
        s.on
    } else if name == "focus"@ || name == "focused"@ {
        s.focused
    } else if name == "dragging"@ {
        s.dragging
    } else {
        false
    }
}

/// The views of a list of conditions.
pub open spec fn cond_views(s: Seq<(String, bool)>) -> Seq<(Seq<char>, bool)> {
    s.map_values(|c: (String, bool)| (c.0@, c.1))
}

/// Every condition holds in the state.
pub open spec fn conditions_hold(conds: Seq<(Seq<char>, bool)>, s: VisualState) -> bool {
    forall|i: int| 0 <= i < conds.len() ==> state_flag(#[trigger] conds[i].0, s) == conds[i].1
}

fn eq_text(a: &Vec<char>, b: &str) -> (r: bool)
    ensures
        r == (a@ == b@),
{
    let bc = chars_of(b);
    crate::text::same_chars(a, &bc)
}

fn flag_of(name: &String, s: VisualState) -> (r: bool)
    ensures
        r == state_flag(name@, s),
{
    let n = chars_of(name.as_str());
    if eq_text(&n, "hover") || eq_text(&n, "hovered") {
        s.hovered
    } else if eq_text(&n, "pressed") {
        s.pressed
    } else if eq_text(&n, "disabled") {
        s.disabled
    } else if eq_text(&n, "checked") {
        s.checked
    } else if eq_text(&n, "on") {
        s.on
    } else if eq_text(&n, "focus") || eq_text(&n, "focused") {
        s.focused
    } else if eq_text(&n, "dragging") {
        s.dragging
    } else {
        false
    }
}

/// Whether every condition holds in the state.
fn state_matches(conditions: &Vec<(String, bool)>, state: VisualState) -> (r: bool)
    ensures
        r == conditions_hold(cond_views(conditions@), state),
{
    let ghost cv = cond_views(conditions@);
    let mut i: usize = 0;
    while i < conditions.len()
        invariant
            i <= conditions@.len(),
            cv == cond_views(conditions@),
            forall|j: int| 0 <= j < i ==> state_flag(#[trigger] cv[j].0, state) == cv[j].1,
        decreases conditions.len() - i,
    {
        let c = &conditions[i];
        if flag_of(&c.0, state) != c.1 {
            assert(state_flag(cv[i as int].0, state) != cv[i as int].1);
            return false;
        }
        i = i + 1;
    }
    true
}

/// `s` without all its leading `c`.
pub open spec fn strip_all(s: Seq<char>, c: char) -> Seq<char>
    decreases s.len(),
{
    if s.len() > 0 && s[0] == c {
        strip_all(s.drop_first(), c)
    } else {
        s
    }
}

fn strip_leading(s: &[char], c: char) -> (r: usize)
    ensures
        r <= s@.len(),
        s@.subrange(r as int, s@.len() as int) == strip_all(s@, c),
{
    let mut i: usize = 0;
    proof {
        assert(s@.subrange(0, s@.len() as int) =~= s@);
    }
    while i < s.len() && s[i] == c
        invariant
            i <= s@.len(),
            strip_all(s@.subrange(i as int, s@.len() as int), c) == strip_all(s@, c),
        decreases s.len() - i,
    {
        proof {
            assert(s@.subrange(i as int, s@.len() as int).drop_first() =~= s@.subrange(i + 1, s@.len() as int));
        }
        i = i + 1;
    }
    proof {
        assert(s@.subrange(0, s@.len() as int) =~= s@);
    }
    i
}

/// The white-space separated words of `s` (`str::split_whitespace`).
pub open spec fn words(s: Seq<char>) -> Seq<Seq<char>>
    decreases s.len(),
{
    if s.len() == 0 {
        Seq::empty()
    } else if is_ws(s[0]) {
        words(s.drop_first())
    } else {
        let w = word_len(s);
        proof {
            lemma_word_len(s);
        }
        seq![s.subrange(0, w as int)] + words(s.subrange(w as int, s.len() as int))
    }
}

/// Length of the run of non-white-space characters at the start of `s`.
pub open spec fn word_len(s: Seq<char>) -> nat
    decreases s.len(),
{
    if s.len() > 0 && !is_ws(s[0]) {
        1 + word_len(s.drop_first())
    } else {
        0
    }
}

pub proof fn lemma_word_len(s: Seq<char>)
    ensures
        word_len(s) <= s.len(),
        s.len() > 0 && !is_ws(s[0]) ==> word_len(s) > 0,
    decreases s.len(),
{
    if s.len() > 0 && !is_ws(s[0]) {
        lemma_word_len(s.drop_first());
    }
}

/// A state condition: its lower-case name (without leading `$` and `!`),
/// and whether the state must hold (`false` when it was written `!name`).
pub open spec fn condition_of(w: Seq<char>) -> (Seq<char>, bool) {
    (lower(strip_all(strip_all(w, '$'), '!')), !(w.len() > 0 && w[0] == '!'))
}

/// The conditions of a `$a !b` state header (without its trailing `:`).
pub open spec fn conditions_of(s: Seq<char>) -> Seq<(Seq<char>, bool)> {
    words(s).map_values(|w: Seq<char>| condition_of(w))
}

fn condition_from(w: &[char]) -> (r: (String, bool))
    ensures
        (r.0@, r.1) == condition_of(w@),
{
    let a = strip_leading(w, '$');
    let rest = crate::text::copy_range(w, a, w.len());
    let b = strip_leading(&rest, '!');
    let name = crate::text::copy_range(&rest, b, rest.len());
    let low = lowered(&name);
    let enabled = !(w.len() > 0 && w[0] == '!');
    (string_of(&low), enabled)
}

/// The conditions of the words of `s`, appended to `out`.
fn push_conditions(s: &[char], out: &mut Vec<(String, bool)>)
    ensures
        cond_views(final(out)@) == cond_views(old(out)@) + conditions_of(s@),
{
    let ghost start = cond_views(out@);
    let mut i: usize = 0;
    proof {
        assert(s@.subrange(0, s@.len() as int) =~= s@);
    }
    while i < s.len()
        invariant
            i <= s@.len(),
            cond_views(out@) + conditions_of(s@.subrange(i as int, s@.len() as int))
                == start + conditions_of(s@),
        decreases s.len() - i,
    {
        let ghost rest = s@.subrange(i as int, s@.len() as int);
        if is_whitespace(s[i]) {
            proof {
                assert(rest.drop_first() =~= s@.subrange(i + 1, s@.len() as int));
                assert(words(rest) == words(rest.drop_first()));
            }
            i = i + 1;
        } else {
            let mut j = i;
            while j < s.len() && !is_whitespace(s[j])
                invariant
                    i <= j <= s@.len(),
                    rest == s@.subrange(i as int, s@.len() as int),
                    word_len(s@.subrange(j as int, s@.len() as int)) + (j - i) == word_len(rest),
                decreases s.len() - j,
            {
                proof {
                    assert(s@.subrange(j as int, s@.len() as int).drop_first() =~= s@.subrange(j + 1, s@.len() as int));
                }
                j = j + 1;
            }
            proof {
                assert(word_len(s@.subrange(j as int, s@.len() as int)) == 0);
                lemma_word_len(rest);
            }
            let w = crate::text::copy_range(s, i, j);
            let c = condition_from(&w);
            let ghost before = out@;
            out.push(c);
            proof {
                let wl = word_len(rest) as int;
                assert(w@ =~= rest.subrange(0, wl));
                assert(rest.subrange(wl, rest.len() as int) =~= s@.subrange(j as int, s@.len() as int));
                assert(words(rest) == seq![rest.subrange(0, wl)] + words(s@.subrange(j as int, s@.len() as int)));
                assert(conditions_of(rest) =~= seq![condition_of(w@)] + conditions_of(s@.subrange(j as int, s@.len() as int)));
                assert(cond_views(out@) =~= cond_views(before).push((c.0@, c.1)));
            }
            i = j;
        }
    }
    proof {
        assert(s@.subrange(i as int, s@.len() as int) =~= Seq::<char>::empty());
        assert(conditions_of(Seq::<char>::empty()) =~= Seq::<(Seq<char>, bool)>::empty());
    }
}

/// `s` without all its trailing `c`.
pub open spec fn strip_end_all(s: Seq<char>, c: char) -> Seq<char>
    decreases s.len(),
{
    if s.len() > 0 && s.last() == c {
        strip_end_all(s.drop_last(), c)
    } else {
        s
    }
}

/// The conditions of a state block named like `$hover !disabled:`.
fn parse_conditions(name: &str) -> (r: Vec<(String, bool)>)
    ensures
        cond_views(r@) == conditions_of(strip_end_all(name@, ':')),
{
    let c = chars_of(name);
    let mut e = c.len();
    proof {
        assert(c@.subrange(0, c@.len() as int) =~= c@);
    }
    while e > 0 && c[e - 1] == ':'
        invariant
            e <= c@.len(),
            strip_end_all(c@.subrange(0, e as int), ':') == strip_end_all(c@, ':'),
        decreases e,
    {
        proof {
            assert(c@.subrange(0, e as int).drop_last() =~= c@.subrange(0, e - 1));
        }
        e = e - 1;
    }
    proof {
        assert(c@.subrange(0, c@.len() as int) =~= c@);
    }
    let head = crate::text::copy_range(&c, 0, e);
    let mut out: Vec<(String, bool)> = Vec::new();
    proof {
        assert(cond_views(out@) =~= Seq::<(Seq<char>, bool)>::empty());
    }
    push_conditions(&head, &mut out);
    proof {
        assert(Seq::<(Seq<char>, bool)>::empty() + conditions_of(head@) =~= conditions_of(head@));
    }
    out
}

/// Number of leading spaces of `s`.
pub open spec fn lead(s: Seq<char>) -> nat
    decreases s.len(),
{
    if s.len() > 0 && s[0] == ' ' {
        1 + lead(s.drop_first())
    } else {
        0
    }
}

fn leading_spaces(s: &[char]) -> (r: usize)
    ensures
        r == lead(s@),
{
    let mut i: usize = 0;
    proof {
        assert(s@.subrange(0, s@.len() as int) =~= s@);
    }
    while i < s.len() && s[i] == ' '
        invariant
            i <= s@.len(),
            lead(s@.subrange(i as int, s@.len() as int)) + i == lead(s@),
        decreases s.len() - i,
    {
        proof {
            assert(s@.subrange(i as int, s@.len() as int).drop_first() =~= s@.subrange(i + 1, s@.len() as int));
        }
        i = i + 1;
    }
    proof {
        assert(s@.subrange(0, s@.len() as int) =~= s@);
    }
    i
}

/// Whether a node name defines a style (`Name < Base`).
pub fn is_style_definition(name: &str) -> (r: bool)
    ensures
        r == name@.contains('<'),
{
    let c = chars_of(name);
    crate::text::contains_char(&c, '<')
}

/// The state selected in the editor's state menu; an unknown name keeps the
/// pointer's hover and press flags.
pub open spec fn visual_state_of(name: Seq<char>, hovered: bool, pressed: bool) -> VisualState {
    let s = VisualState { hovered, pressed, ..idle_state() };
    if name == "Normal"@ {
        idle_state()
    } else if name == "Hover"@ {
        VisualState { hovered: true, ..s }
    } else if name == "Pressionado"@ {
        VisualState { pressed: true, ..s }
    } else if name == "Desabilitado"@ {
        VisualState { disabled: true, ..s }
    } else if name == "Marcado"@ {
        VisualState { checked: true, ..s }
    } else if name == "Ligado"@ {
        VisualState { on: true, ..s }
    } else if name == "Foco"@ {
        VisualState { focused: true, ..s }
    } else {
        s
    }
}

/// The visual state for a state-menu entry and the pointer's flags.
pub fn visual_state(name: &str, hovered: bool, pressed: bool) -> (r: VisualState)
    ensures
        r == visual_state_of(name@, hovered, pressed),
{
    let n = chars_of(name);
    let mut state = VisualState { hovered, pressed, ..VisualState::default() };
    if eq_text(&n, "Normal") {
        state = VisualState::default();
    } else if eq_text(&n, "Hover") {
        state.hovered = true;
    } else if eq_text(&n, "Pressionado") {
        state.pressed = true;
    } else if eq_text(&n, "Desabilitado") {
        state.disabled = true;
    } else if eq_text(&n, "Marcado") {
        state.checked = true;
    } else if eq_text(&n, "Ligado") {
        state.on = true;
    } else if eq_text(&n, "Foco") {
        state.focused = true;
    }
    state
}

/// `l` without one trailing carriage return.
pub open spec fn strip_cr(l: Seq<char>) -> Seq<char> {
    if l.len() > 0 && l.last() == '\r' {
        l.drop_last()
    } else {
        l
    }
}

/// The lines of a text as `str::lines` yields them: split at each `\n`, a
/// `\r` before the `\n` dropped, no empty line after a final `\n`.
pub open spec fn text_lines(s: Seq<char>) -> Seq<Seq<char>>
    decreases s.len(),
{
    if s.len() == 0 {
        Seq::empty()
    } else {
        match find(s, '\n') {
            Some(i) => {
                proof {
                    lemma_find(s, '\n');
                }
                seq![strip_cr(s.subrange(0, i))] + text_lines(s.subrange(i + 1, s.len() as int))
            },
            None => seq![s],
        }
    }
}

/// The views of a list of lines.
pub open spec fn line_views(s: Seq<Vec<char>>) -> Seq<Seq<char>> {
    s.map_values(|l: Vec<char>| l@)
}

proof fn lemma_find_first(s: Seq<char>, c: char, i: int)
    requires
        0 <= i < s.len(),
        s[i] == c,
        forall|j: int| 0 <= j < i ==> s[j] != c,
    ensures
        find(s, c) == Some(i),
{
    lemma_find(s, c);
    let f = find(s, c)->0;
    if f < i {
    } else if f > i {
    }
}

proof fn lemma_find_absent(s: Seq<char>, c: char)
    requires
        forall|j: int| 0 <= j < s.len() ==> s[j] != c,
    ensures
        find(s, c) is None,
{
    lemma_find(s, c);
}

proof fn lemma_lines_last(rest: Seq<char>)
    requires
        rest.len() > 0,
        forall|j: int| 0 <= j < rest.len() ==> rest[j] != '\n',
    ensures
        text_lines(rest) == seq![rest],
{
    lemma_find_absent(rest, '\n');
    reveal(text_lines);
}

proof fn lemma_lines_empty()
    ensures
        text_lines(Seq::<char>::empty()) == Seq::<Seq<char>>::empty(),
{
    reveal(text_lines);
}

proof fn lemma_lines_step(rest: Seq<char>, i: int)
    requires
        0 <= i < rest.len(),
        rest[i] == '\n',
        forall|j: int| 0 <= j < i ==> rest[j] != '\n',
    ensures
        text_lines(rest) == seq![strip_cr(rest.subrange(0, i))] + text_lines(
            rest.subrange(i + 1, rest.len() as int),
        ),
{
    lemma_find_first(rest, '\n', i);
    reveal(text_lines);
}

/// The first `\n` at or after `p`, or the end.
fn next_newline(s: &[char], p: usize) -> (q: usize)
    requires
        p <= s@.len(),
    ensures
        p <= q <= s@.len(),
        forall|j: int| p <= j < q ==> s@[j] != '\n',
        q < s@.len() ==> s@[q as int] == '\n',
{
    let mut q = p;
    while q < s.len() && s[q] != '\n'
        invariant
            p <= q <= s@.len(),
            forall|j: int| p <= j < q ==> s@[j] != '\n',
        decreases s.len() - q,
    {
        q = q + 1;
    }
    q
}

/// The line `s[p..q]`, without a final `\r` when `strip` is set.
fn line_at(s: &[char], p: usize, q: usize, strip: bool) -> (r: Vec<char>)
    requires
        p <= q <= s@.len(),
    ensures
        r@ == (if strip { strip_cr(s@.subrange(p as int, q as int)) } else { s@.subrange(p as int, q as int) }),
{
    let mut e = q;
    if strip && e > p && s[e - 1] == '\r' {
        e = e - 1;
    }
    let r = crate::text::copy_range(s, p, e);
    proof {
        if strip {
            assert(r@ =~= strip_cr(s@.subrange(p as int, q as int)));
        }
    }
    r
}

/// The lines of `s[p..]` are the line that `next_newline` ends at `q`,
/// followed by the lines after it.
proof fn lemma_split_step(s: Seq<char>, p: int, q: int, line: Seq<char>)
    requires
        0 <= p < s.len(),
        p <= q <= s.len(),
        forall|j: int| p <= j < q ==> s[j] != '\n',
        q < s.len() ==> s[q] == '\n',
        line == (if q < s.len() { strip_cr(s.subrange(p, q)) } else { s.subrange(p, q) }),
    ensures
        text_lines(s.subrange(p, s.len() as int)) == seq![line] + text_lines(
            s.subrange(if q < s.len() { q + 1 } else { q }, s.len() as int),
        ),
{
    let rest = s.subrange(p, s.len() as int);
    if q == s.len() {
        lemma_lines_last(rest);
        assert(line =~= rest);
        assert(s.subrange(q, s.len() as int) =~= Seq::<char>::empty());
        lemma_lines_empty();
        assert(seq![line] + Seq::<Seq<char>>::empty() =~= seq![line]);
    } else {
        lemma_lines_step(rest, q - p);
        assert(rest.subrange(0, q - p) =~= s.subrange(p, q));
        assert(rest.subrange(q - p + 1, rest.len() as int) =~= s.subrange(q + 1, s.len() as int));
    }
}

proof fn lemma_push_line(a: Seq<Seq<char>>, l: Seq<char>, t: Seq<Seq<char>>)
    ensures
        a.push(l) + t == a + (seq![l] + t),
{
    assert(a.push(l) + t =~= a + (seq![l] + t));
}

/// The lines of `s` (`str::lines`).
#[verifier::spinoff_prover]
fn split_lines(s: &[char]) -> (r: Vec<Vec<char>>)
    ensures
        line_views(r@) == text_lines(s@),
{
    let mut out: Vec<Vec<char>> = Vec::new();
    let mut p: usize = 0;
    proof {
        assert(s@.subrange(0, s@.len() as int) =~= s@);
        assert(line_views(out@) =~= Seq::<Seq<char>>::empty());
        assert(Seq::<Seq<char>>::empty() + text_lines(s@) =~= text_lines(s@));
    }
    while p < s.len()
        invariant
            p <= s@.len(),
            line_views(out@) + text_lines(s@.subrange(p as int, s@.len() as int)) == text_lines(s@),
        decreases s.len() - p,
    {
        let q = next_newline(s, p);
        let last = q == s.len();
        let line = line_at(s, p, q, !last);
        let next = if last { q } else { q + 1 };
        let ghost before = line_views(out@);
        proof {
            lemma_split_step(s@, p as int, q as int, line@);
            lemma_push_line(before, line@, text_lines(s@.subrange(next as int, s@.len() as int)));
        }
        out.push(line);
        proof {
            assert(line_views(out@) =~= before.push(line@));
        }
        p = next;
    }
    proof {
        assert(s@.subrange(p as int, s@.len() as int) =~= Seq::<char>::empty());
        lemma_lines_empty();
        assert(line_views(out@) + Seq::<Seq<char>>::empty() =~= line_views(out@));
    }
    out
}

/// Characters that end a `$name` reference.
pub open spec fn is_stop(c: char) -> bool {
    is_ws(c) || c == ',' || c == ')'
}

/// Length of the run of characters at the start of `s` that end no reference.
pub open spec fn run_len(s: Seq<char>) -> nat
    decreases s.len(),
{
    if s.len() > 0 && !is_stop(s[0]) {
        1 + run_len(s.drop_first())
    } else {
        0
    }
}

pub proof fn lemma_run_len(s: Seq<char>)
    ensures
        run_len(s) <= s.len(),
        forall|j: int| 0 <= j < run_len(s) ==> !is_stop(#[trigger] s[j]),
        run_len(s) < s.len() ==> is_stop(s[run_len(s) as int]),
    decreases s.len(),
{
    if s.len() > 0 && !is_stop(s[0]) {
        lemma_run_len(s.drop_first());
        assert forall|j: int| 0 <= j < run_len(s) implies !is_stop(#[trigger] s[j]) by {
            if j > 0 {
                assert(s[j] == s.drop_first()[j - 1]);
            }
        }
    }
}

/// The variable that a `$name` reference reads: the one defined as `&name`.
pub open spec fn variable_key(reference: Seq<char>) -> Seq<char> {
    seq!['&'] + reference.drop_first()
}

/// One substitution: the first `$name` reference replaced by its variable's
/// value; `None` when there is no reference or its variable is undefined.
pub open spec fn expand_once(vars: Map<Seq<char>, Seq<char>>, s: Seq<char>) -> Option<Seq<char>> {
    match find(s, '$') {
        Some(start) => {
            let end = start + run_len(s.subrange(start, s.len() as int));
            let key = variable_key(s.subrange(start, end));
            if vars.contains_key(key) {
                Some(s.subrange(0, start) + vars[key] + s.subrange(end, s.len() as int))
            } else {
                None
            }
        },
        None => None,
    }
}

/// At most `n` substitutions, stopping at the first that cannot be made.
pub open spec fn expand_n(vars: Map<Seq<char>, Seq<char>>, s: Seq<char>, n: nat) -> Seq<char>
    decreases n,
{
    if n == 0 {
        s
    } else {
        match expand_once(vars, s) {
            Some(t) => expand_n(vars, t, (n - 1) as nat),
            None => s,
        }
    }
}

/// A value with its variable references expanded (at most eight of them).
pub open spec fn expand(vars: Map<Seq<char>, Seq<char>>, s: Seq<char>) -> Seq<char> {
    expand_n(vars, s, 8)
}

/// End of the reference that starts at `start`.
fn reference_end(s: &[char], start: usize) -> (end: usize)
    requires
        start < s@.len(),
    ensures
        end == start + run_len(s@.subrange(start as int, s@.len() as int)),
        end <= s@.len(),
{
    let ghost tail = s@.subrange(start as int, s@.len() as int);
    let mut end = start;
    while end < s.len() && !(is_whitespace(s[end]) || s[end] == ',' || s[end] == ')')
        invariant
            start <= end <= s@.len(),
            tail == s@.subrange(start as int, s@.len() as int),
            run_len(s@.subrange(end as int, s@.len() as int)) + (end - start) == run_len(tail),
        decreases s.len() - end,
    {
        proof {
            assert(s@.subrange(end as int, s@.len() as int).drop_first() =~= s@.subrange(end + 1, s@.len() as int));
        }
        end = end + 1;
    }
    proof {
        assert(run_len(s@.subrange(end as int, s@.len() as int)) == 0);
    }
    end
}

/// The variable name `&name` for the reference `s[start..end]`.
fn variable_name(s: &[char], start: usize, end: usize) -> (r: String)
    requires
        start < end <= s@.len(),
    ensures
        r@ == variable_key(s@.subrange(start as int, end as int)),
{
    let mut key: Vec<char> = Vec::new();
    key.push('&');
    let mut i = start + 1;
    while i < end
        invariant
            start < end <= s@.len(),
            start + 1 <= i <= end,
            key@ == seq!['&'] + s@.subrange(start + 1, i as int),
        decreases end - i,
    {
        key.push(s[i]);
        i = i + 1;
        proof {
            assert(key@ =~= seq!['&'] + s@.subrange(start + 1, i as int));
        }
    }
    proof {
        assert(key@ =~= variable_key(s@.subrange(start as int, end as int)));
    }
    string_of(key.as_slice())
}

/// `s[..start] + repl + s[end..]`.
fn splice(s: &[char], start: usize, end: usize, repl: &[char]) -> (t: Vec<char>)
    requires
        start <= end <= s@.len(),
    ensures
        t@ == s@.subrange(0, start as int) + repl@ + s@.subrange(end as int, s@.len() as int),
{
    let mut t = crate::text::copy_range(s, 0, start);
    let mut j: usize = 0;
    while j < repl.len()
        invariant
            start <= end <= s@.len(),
            j <= repl@.len(),
            t@ == s@.subrange(0, start as int) + repl@.subrange(0, j as int),
        decreases repl.len() - j,
    {
        t.push(repl[j]);
        j = j + 1;
        proof {
            assert(t@ =~= s@.subrange(0, start as int) + repl@.subrange(0, j as int));
        }
    }
    let mut k = end;
    proof {
        assert(repl@.subrange(0, repl@.len() as int) =~= repl@);
        assert(t@ =~= s@.subrange(0, start as int) + repl@ + s@.subrange(end as int, k as int));
    }
    while k < s.len()
        invariant
            end <= k <= s@.len(),
            t@ == s@.subrange(0, start as int) + repl@ + s@.subrange(end as int, k as int),
        decreases s.len() - k,
    {
        t.push(s[k]);
        k = k + 1;
        proof {
            assert(t@ =~= s@.subrange(0, start as int) + repl@ + s@.subrange(end as int, k as int));
        }
    }
    t
}

/// Executable form of [`expand_once`].
fn expand_step(vars: &TextMap, s: &Vec<char>) -> (r: Option<Vec<char>>)
    requires
        vars.wf(),
    ensures
        match r {
            Some(t) => expand_once(vars@, s@) == Some(t@),
            None => expand_once(vars@, s@) is None,
        },
{
    let start = match find_char(s.as_slice(), '$') {
        Some(i) => i,
        None => {
            return None;
        },
    };
    let end = reference_end(s.as_slice(), start);
    proof {
        let tail = s@.subrange(start as int, s@.len() as int);
        assert(tail[0] == '$');
        assert(!is_stop(tail[0]));
        assert(end > start);
    }
    let name = variable_name(s.as_slice(), start, end);
    match vars.get(&name) {
        Some(value) => {
            let repl = chars_of(value.as_str());
            Some(splice(s.as_slice(), start, end, repl.as_slice()))
        },
        None => None,
    }
}

/// Executable form of [`expand`].
fn expand_with(vars: &TextMap, value: &[char]) -> (r: Vec<char>)
    requires
        vars.wf(),
    ensures
        r@ == expand(vars@, value@),
{
    let mut cur = crate::text::copy_range(value, 0, value.len());
    proof {
        assert(cur@ =~= value@);
    }
    let mut n: usize = 0;
    while n < 8
        invariant
            n <= 8,
            vars.wf(),
            expand_n(vars@, cur@, (8 - n) as nat) == expand(vars@, value@),
        decreases 8 - n,
    {
        match expand_step(vars, &cur) {
            Some(next) => {
                cur = next;
                n = n + 1;
            },
            None => {
                return cur;
            },
        }
    }
    cur
}

/// A state rule of a style: the conditions under which it applies and the
/// properties it sets then.
pub struct RuleView {
    pub conditions: Seq<(Seq<char>, bool)>,
    pub properties: Map<Seq<char>, Seq<char>>,
}

/// A style: its base style, its properties and its state rules, in order.
pub struct StyleView {
    pub base: Option<Seq<char>>,
    pub properties: Map<Seq<char>, Seq<char>>,
    pub states: Seq<RuleView>,
}

/// What a style book holds: the variables and the styles by name, with the
/// count of files read and the warnings gathered while reading them.
pub struct StyleBookView {
    pub variables: Map<Seq<char>, Seq<char>>,
    pub styles: Map<Seq<char>, StyleView>,
    pub files: usize,
    pub warnings: Seq<Seq<char>>,
}

#[derive(Clone, Debug)]
struct StateRule {
    conditions: Vec<(String, bool)>,
    properties: TextMap,
}

#[derive(Clone, Debug)]
struct Style {
    base: Option<String>,
    properties: TextMap,
    states: Vec<StateRule>,
}

impl View for StateRule {
    type V = RuleView;

    closed spec fn view(&self) -> RuleView {
        RuleView { conditions: cond_views(self.conditions@), properties: self.properties@ }
    }
}

spec fn rule_views(s: Seq<StateRule>) -> Seq<RuleView> {
    s.map_values(|r: StateRule| r@)
}

spec fn opt_view(o: Option<String>) -> Option<Seq<char>> {
    match o {
        Some(b) => Some(b@),
        None => None,
    }
}

impl View for Style {
    type V = StyleView;

    closed spec fn view(&self) -> StyleView {
        StyleView {
            base: opt_view(self.base),
            properties: self.properties@,
            states: rule_views(self.states@),
        }
    }
}

spec fn style_wf(st: Style) -> bool {
    &&& st.properties.wf()
    &&& forall|i: int| 0 <= i < st.states@.len() ==> (#[trigger] st.states@[i]).properties.wf()
}

/// The map of a list of named styles (a later entry wins).
spec fn style_map(s: Seq<(String, Style)>) -> Map<Seq<char>, StyleView>
    decreases s.len(),
{
    if s.len() == 0 {
        Map::empty()
    } else {
        style_map(s.drop_last()).insert(s.last().0@, s.last().1@)
    }
}

spec fn distinct_names(s: Seq<(String, Style)>) -> bool {
    forall|i: int, j: int| 0 <= i < j < s.len() ==> (#[trigger] s[i]).0@ != (#[trigger] s[j]).0@
}

proof fn lemma_style_map(s: Seq<(String, Style)>)
    requires
        distinct_names(s),
    ensures
        forall|i: int| 0 <= i < s.len() ==> #[trigger] style_map(s).contains_key(s[i].0@)
            && style_map(s)[s[i].0@] == s[i].1@,
        forall|k: Seq<char>| #[trigger] style_map(s).contains_key(k) ==> exists|i: int|
            0 <= i < s.len() && s[i].0@ == k,
        style_map(s).dom().finite(),
        style_map(s).dom().len() == s.len(),
    decreases s.len(),
{
    if s.len() > 0 {
        let t = s.drop_last();
        assert(distinct_names(t)) by {
            assert forall|i: int, j: int| 0 <= i < j < t.len() implies (#[trigger] t[i]).0@ != (#[trigger] t[j]).0@ by {
                assert(t[i] == s[i] && t[j] == s[j]);
            }
        }
        lemma_style_map(t);
        assert forall|i: int| 0 <= i < s.len() implies #[trigger] style_map(s).contains_key(s[i].0@)
            && style_map(s)[s[i].0@] == s[i].1@ by {
            if i < s.len() - 1 {
                assert(s[i] == t[i]);
                assert(style_map(t).contains_key(t[i].0@));
                assert(s[i].0@ != s[s.len() - 1].0@);
            }
        }
        assert forall|k: Seq<char>| #[trigger] style_map(s).contains_key(k) implies exists|i: int|
            0 <= i < s.len() && s[i].0@ == k by {
            if k != s.last().0@ {
                assert(style_map(t).contains_key(k));
                let i = choose|i: int| 0 <= i < t.len() && t[i].0@ == k;
                assert(s[i] == t[i]);
            } else {
                assert(s[s.len() - 1].0@ == k);
            }
        }
        assert(!style_map(t).contains_key(s.last().0@)) by {
            if style_map(t).contains_key(s.last().0@) {
                let i = choose|i: int| 0 <= i < t.len() && t[i].0@ == s.last().0@;
                assert(s[i] == t[i]);
            }
        }
    }
}

/// A list with the same names, in the same order, as another.
spec fn same_names(a: Seq<(String, Style)>, b: Seq<(String, Style)>) -> bool {
    &&& a.len() == b.len()
    &&& forall|i: int| 0 <= i < a.len() ==> (#[trigger] a[i]).0@ == b[i].0@
}

proof fn lemma_same_names(a: Seq<(String, Style)>, b: Seq<(String, Style)>)
    requires
        distinct_names(a),
        same_names(a, b),
    ensures
        distinct_names(b),
        style_map(b).dom() == style_map(a).dom(),
        forall|i: int| 0 <= i < b.len() ==> style_map(b)[#[trigger] b[i].0@] == b[i].1@,
{
    assert(distinct_names(b)) by {
        assert forall|i: int, j: int| 0 <= i < j < b.len() implies (#[trigger] b[i]).0@ != (#[trigger] b[j]).0@ by {
            assert(a[i].0@ == b[i].0@ && a[j].0@ == b[j].0@);
        }
    }
    lemma_style_map(a);
    lemma_style_map(b);
    assert forall|i: int| 0 <= i < b.len() implies style_map(b)[#[trigger] b[i].0@] == b[i].1@ by {
        assert(style_map(b).contains_key(b[i].0@));
    }
    assert(style_map(b).dom() =~= style_map(a).dom()) by {
        assert forall|k: Seq<char>| style_map(b).dom().contains(k) <==> style_map(a).dom().contains(k) by {
            if style_map(b).contains_key(k) {
                let i = choose|i: int| 0 <= i < b.len() && b[i].0@ == k;
                assert(style_map(a).contains_key(a[i].0@));
            }
            if style_map(a).contains_key(k) {
                let i = choose|i: int| 0 <= i < a.len() && a[i].0@ == k;
                assert(style_map(b).contains_key(b[i].0@));
            }
        }
    }
}

proof fn lemma_style_map_update(s: Seq<(String, Style)>, i: int, e: (String, Style))
    requires
        distinct_names(s),
        0 <= i < s.len(),
        e.0@ == s[i].0@,
    ensures
        distinct_names(s.update(i, e)),
        style_map(s.update(i, e)) == style_map(s).insert(e.0@, e.1@),
{
    let u = s.update(i, e);
    assert(same_names(s, u)) by {
        assert forall|j: int| 0 <= j < s.len() implies (#[trigger] s[j]).0@ == u[j].0@ by {}
    }
    lemma_same_names(s, u);
    lemma_style_map(s);
    lemma_style_map(u);
    assert(style_map(u) =~= style_map(s).insert(e.0@, e.1@)) by {
        assert forall|k: Seq<char>| #[trigger] style_map(u).contains_key(k) implies style_map(u)[k]
            == style_map(s).insert(e.0@, e.1@)[k] by {
            let j = choose|j: int| 0 <= j < u.len() && u[j].0@ == k;
            if j != i {
                assert(u[j] == s[j]);
                assert(s[j].0@ != s[i].0@);
            }
        }
    }
}

impl StyleBook {
    /// The book's invariant: variable and style names are unique.
    pub closed spec fn wf(&self) -> bool {
        &&& self.variables.wf()
        &&& distinct_names(self.styles@)
        &&& forall|i: int| 0 <= i < self.styles@.len() ==> style_wf(#[trigger] self.styles@[i].1)
    }
}

impl View for StyleBook {
    type V = StyleBookView;

    closed spec fn view(&self) -> StyleBookView {
        StyleBookView {
            variables: self.variables@,
            styles: style_map(self.styles@),
            files: self.files,
            warnings: self.warnings@.map_values(|w: String| w@),
        }
    }
}

/// The style sheets read so far.
#[derive(Clone, Debug)]
pub struct StyleBook {
    variables: TextMap,
    styles: Vec<(String, Style)>,
    pub files: usize,
    pub warnings: Vec<String>,
}

/// A book with nothing in it.
pub open spec fn empty_book() -> StyleBookView {
    StyleBookView {
        variables: Map::empty(),
        styles: Map::empty(),
        files: 0,
        warnings: Seq::empty(),
    }
}

impl Default for StyleBook {
    fn default() -> (r: StyleBook)
        ensures
            r.wf(),
            r@ == empty_book(),
    {
        let r = StyleBook { variables: TextMap::new(), styles: Vec::new(), files: 0, warnings: Vec::new() };
        proof {
            assert(r@.warnings =~= Seq::<Seq<char>>::empty());
            assert(style_map(r.styles@) =~= Map::<Seq<char>, StyleView>::empty());
        }
        r
    }
}

impl StyleBook {
    /// Whether no style has been read.
    pub fn is_empty(&self) -> (r: bool)
        requires
            self.wf(),
        ensures
            r == (self@.styles.dom().len() == 0),
    {
        proof {
            lemma_style_map(self.styles@);
        }
        self.styles.len() == 0
    }

    /// Number of styles.
    pub fn style_count(&self) -> (r: usize)
        requires
            self.wf(),
        ensures
            r == self@.styles.dom().len(),
    {
        proof {
            lemma_style_map(self.styles@);
        }
        self.styles.len()
    }

    /// Sets the style of the name, replacing a style of that name.
    fn insert_style(&mut self, name: String, style: Style)
        requires
            old(self).wf(),
            style_wf(style),
        ensures
            final(self).wf(),
            final(self)@ == (StyleBookView { styles: old(self)@.styles.insert(name@, style@), ..old(self)@ }),
    {
        let ghost s = self.styles@;
        let ghost o = *self;
        let mut i: usize = 0;
        while i < self.styles.len()
            invariant
                *self == o,
                o == *old(self),
                o.wf(),
                style_wf(style),
                self.styles@ == s,
                i <= s.len(),
                forall|j: int| 0 <= j < i ==> s[j].0@ != name@,
            decreases self.styles.len() - i,
        {
            if self.styles[i].0 == name {
                let mut e = (name, style);
                let ghost ev = e;
                self.styles.set_and_swap(i, &mut e);
                proof {
                    lemma_style_map_update(s, i as int, ev);
                    assert forall|j: int| 0 <= j < self.styles@.len() implies style_wf(#[trigger] self.styles@[j].1) by {
                        if j != i {
                            assert(self.styles@[j] == s[j]);
                        }
                    }
                }
                return;
            }
            i = i + 1;
        }
        let ghost ev = (name, style);
        self.styles.push((name, style));
        proof {
            lemma_style_map(s);
            assert(self.styles@.drop_last() =~= s);
            assert(distinct_names(self.styles@)) by {
                assert forall|a: int, b: int| 0 <= a < b < self.styles@.len() implies (#[trigger] self.styles@[a]).0@ != (#[trigger] self.styles@[b]).0@ by {
                    if b == s.len() {
                    } else {
                        assert(self.styles@[a] == s[a] && self.styles@[b] == s[b]);
                    }
                }
            }
            assert forall|j: int| 0 <= j < self.styles@.len() implies style_wf(#[trigger] self.styles@[j].1) by {
                if j < s.len() {
                    assert(self.styles@[j] == s[j]);
                }
            }
        }
    }
}

/// `t` split at the first `c` (`str::split_once`).
pub open spec fn split_at_char(t: Seq<char>, c: char) -> Option<(Seq<char>, Seq<char>)> {
    match find(t, c) {
        Some(p) => Some((t.subrange(0, p), t.subrange(p + 1, t.len() as int))),
        None => None,
    }
}

/// The trimmed key and value of a `key: value` text.
pub open spec fn entry_of(t: Seq<char>) -> Option<(Seq<char>, Seq<char>)> {
    match split_at_char(t, ':') {
        Some(p) => Some((trim(p.0), trim(p.1))),
        None => None,
    }
}

/// A property line's entry, its value with variables expanded.
pub open spec fn property_entry(vars: Map<Seq<char>, Seq<char>>, t: Seq<char>) -> Option<(Seq<char>, Seq<char>)> {
    match entry_of(t) {
        Some(e) => Some((e.0, expand(vars, e.1))),
        None => None,
    }
}

/// `m` with the entry set, if there is one.
pub open spec fn put(m: Map<Seq<char>, Seq<char>>, e: Option<(Seq<char>, Seq<char>)>) -> Map<Seq<char>, Seq<char>> {
    match e {
        Some(kv) => m.insert(kv.0, kv.1),
        None => m,
    }
}

/// The first line at or after `j` indented by two spaces or less (or the end):
/// where a state rule's body ends.
pub open spec fn rule_end(lines: Seq<Seq<char>>, j: int) -> int
    decreases lines.len() - j,
{
    if 0 <= j < lines.len() && lead(lines[j]) > 2 {
        rule_end(lines, j + 1)
    } else {
        j
    }
}

pub proof fn lemma_rule_end(lines: Seq<Seq<char>>, j: int)
    requires
        0 <= j <= lines.len(),
    ensures
        j <= rule_end(lines, j) <= lines.len(),
        forall|m: int| j <= m < rule_end(lines, j) ==> lead(#[trigger] lines[m]) > 2,
        rule_end(lines, j) < lines.len() ==> lead(lines[rule_end(lines, j)]) <= 2,
    decreases lines.len() - j,
{
    if j < lines.len() && lead(lines[j]) > 2 {
        lemma_rule_end(lines, j + 1);
    }
}

/// The properties set by the lines `j..end` of a state rule: those indented
/// by exactly four spaces.
pub open spec fn rule_props(
    lines: Seq<Seq<char>>,
    j: int,
    end: int,
    vars: Map<Seq<char>, Seq<char>>,
    m: Map<Seq<char>, Seq<char>>,
) -> Map<Seq<char>, Seq<char>>
    decreases end - j,
{
    if 0 <= j < end && end <= lines.len() {
        let m2 = if lead(lines[j]) == 4 {
            put(m, property_entry(vars, trim(lines[j])))
        } else {
            m
        };
        rule_props(lines, j + 1, end, vars, m2)
    } else {
        m
    }
}

/// The first line at or after `j` that is neither blank nor indented (or the
/// end): where a style's body ends.
pub open spec fn body_end(lines: Seq<Seq<char>>, j: int) -> int
    decreases lines.len() - j,
{
    if 0 <= j < lines.len() && (trim(lines[j]).len() == 0 || lead(lines[j]) > 0) {
        body_end(lines, j + 1)
    } else {
        j
    }
}

pub proof fn lemma_body_end(lines: Seq<Seq<char>>, j: int)
    requires
        0 <= j <= lines.len(),
    ensures
        j <= body_end(lines, j) <= lines.len(),
        forall|m: int| j <= m < body_end(lines, j) ==> trim(#[trigger] lines[m]).len() == 0 || lead(lines[m]) > 0,
        body_end(lines, j) < lines.len() ==> trim(lines[body_end(lines, j)]).len() > 0 && lead(
            lines[body_end(lines, j)],
        ) == 0,
    decreases lines.len() - j,
{
    if j < lines.len() && (trim(lines[j]).len() == 0 || lead(lines[j]) > 0) {
        lemma_body_end(lines, j + 1);
    }
}

/// A `$state ...:` line indented by two spaces.
pub open spec fn is_rule_header(line: Seq<char>) -> bool {
    let v = trim(line);
    &&& lead(line) == 2
    &&& v.len() > 0
    &&& v[0] == '$'
    &&& v.last() == ':'
}

/// One item of a style body at line `k`: a state rule (which takes the lines
/// indented deeper than two spaces after it) or a property line indented by
/// two spaces; other lines are skipped. Gives the next line and the style.
pub open spec fn body_step(lines: Seq<Seq<char>>, k: int, vars: Map<Seq<char>, Seq<char>>, st: StyleView) -> (int, StyleView) {
    let line = lines[k];
    if is_rule_header(line) {
        let re = rule_end(lines, k + 1);
        let rule = RuleView {
            conditions: conditions_of(trim(line).drop_last()),
            properties: rule_props(lines, k + 1, re, vars, Map::empty()),
        };
        (re, StyleView { states: st.states.push(rule), ..st })
    } else if lead(line) == 2 {
        (k + 1, StyleView { properties: put(st.properties, property_entry(vars, trim(line))), ..st })
    } else {
        (k + 1, st)
    }
}

pub proof fn lemma_body_step(lines: Seq<Seq<char>>, k: int, vars: Map<Seq<char>, Seq<char>>, st: StyleView)
    requires
        0 <= k < lines.len(),
    ensures
        k < body_step(lines, k, vars, st).0 <= lines.len(),
{
    lemma_rule_end(lines, k + 1);
}

/// The style that the lines `k..end` of a style body build from `st`.
pub open spec fn style_body(lines: Seq<Seq<char>>, k: int, end: int, vars: Map<Seq<char>, Seq<char>>, st: StyleView) -> StyleView
    decreases lines.len() - k,
{
    if 0 <= k < end && end <= lines.len() {
        let next = body_step(lines, k, vars, st);
        proof {
            lemma_body_step(lines, k, vars, st);
        }
        style_body(lines, next.0, end, vars, next.1)
    } else {
        st
    }
}

/// A style with the given base (none when blank) and nothing else.
pub open spec fn new_style(base: Seq<char>) -> StyleView {
    StyleView {
        base: if base.len() == 0 { None } else { Some(base) },
        properties: Map::empty(),
        states: Seq::empty(),
    }
}

/// One top-level item at line `i`: a variable (`&name: value` at column 0),
/// a style (`Name < Base` at column 0, with its body), or a skipped line.
/// Gives the next line, the variables and the styles.
pub open spec fn parse_step(
    lines: Seq<Seq<char>>,
    i: int,
    vars: Map<Seq<char>, Seq<char>>,
    styles: Map<Seq<char>, StyleView>,
) -> (int, Map<Seq<char>, Seq<char>>, Map<Seq<char>, StyleView>) {
    let raw = lines[i];
    let t = trim(raw);
    if lead(raw) == 0 && t.len() > 0 && t[0] == '&' {
        (i + 1, put(vars, entry_of(t)), styles)
    } else if lead(raw) != 0 || t.len() == 0 || (t.len() >= 2 && t[0] == '/' && t[1] == '/') {
        (i + 1, vars, styles)
    } else {
        match split_at_char(t, '<') {
            Some(parts) => {
                if trim(parts.0).len() == 0 {
                    (i + 1, vars, styles)
                } else {
                    let end = body_end(lines, i + 1);
                    let st = style_body(lines, i + 1, end, vars, new_style(trim(parts.1)));
                    (end, vars, styles.insert(trim(parts.0), st))
                }
            },
            None => (i + 1, vars, styles),
        }
    }
}

pub proof fn lemma_parse_step(
    lines: Seq<Seq<char>>,
    i: int,
    vars: Map<Seq<char>, Seq<char>>,
    styles: Map<Seq<char>, StyleView>,
)
    requires
        0 <= i < lines.len(),
    ensures
        i < parse_step(lines, i, vars, styles).0 <= lines.len(),
{
    lemma_body_end(lines, i + 1);
}

/// The variables and styles after reading the lines from `i` on.
pub open spec fn parse_lines(
    lines: Seq<Seq<char>>,
    i: int,
    vars: Map<Seq<char>, Seq<char>>,
    styles: Map<Seq<char>, StyleView>,
) -> (Map<Seq<char>, Seq<char>>, Map<Seq<char>, StyleView>)
    decreases lines.len() - i,
{
    if 0 <= i < lines.len() {
        let next = parse_step(lines, i, vars, styles);
        proof {
            lemma_parse_step(lines, i, vars, styles);
        }
        parse_lines(lines, next.0, next.1, next.2)
    } else {
        (vars, styles)
    }
}

/// Every value of `m` with its variables expanded.
pub open spec fn expand_map(vars: Map<Seq<char>, Seq<char>>, m: Map<Seq<char>, Seq<char>>) -> Map<Seq<char>, Seq<char>> {
    Map::new(|k: Seq<char>| m.contains_key(k), |k: Seq<char>| expand(vars, m[k]))
}

/// The rules with their values expanded.
pub open spec fn expand_rules(vars: Map<Seq<char>, Seq<char>>, rules: Seq<RuleView>) -> Seq<RuleView> {
    rules.map_values(|r: RuleView| RuleView { conditions: r.conditions, properties: expand_map(vars, r.properties) })
}

/// The style with its values expanded.
pub open spec fn expand_style(vars: Map<Seq<char>, Seq<char>>, st: StyleView) -> StyleView {
    StyleView { base: st.base, properties: expand_map(vars, st.properties), states: expand_rules(vars, st.states) }
}

/// Every style with its values expanded.
pub open spec fn expand_styles(vars: Map<Seq<char>, Seq<char>>, styles: Map<Seq<char>, StyleView>) -> Map<Seq<char>, StyleView> {
    Map::new(|k: Seq<char>| styles.contains_key(k), |k: Seq<char>| expand_style(vars, styles[k]))
}

/// The book after reading a style sheet: its lines add variables and styles,
/// then every style value is expanded once more with all variables known.
pub open spec fn parsed(book: StyleBookView, text: Seq<char>) -> StyleBookView {
    let r = parse_lines(text_lines(text), 0, book.variables, book.styles);
    StyleBookView { variables: r.0, styles: expand_styles(r.0, r.1), ..book }
}

/// Executable form of [`split_at_char`].
fn split_exec(t: &[char], c: char) -> (r: Option<(Vec<char>, Vec<char>)>)
    ensures
        match r {
            Some(p) => split_at_char(t@, c) == Some((p.0@, p.1@)),
            None => split_at_char(t@, c) is None,
        },
{
    let n = t.len();
    match find_char(t, c) {
        Some(p) => Some((crate::text::copy_range(t, 0, p), crate::text::copy_range(t, p + 1, n))),
        None => None,
    }
}

/// Executable form of [`entry_of`].
fn entry_exec(t: &[char]) -> (r: Option<(Vec<char>, Vec<char>)>)
    ensures
        match r {
            Some(e) => entry_of(t@) == Some((e.0@, e.1@)),
            None => entry_of(t@) is None,
        },
{
    match split_exec(t, ':') {
        Some(p) => Some((trimmed(p.0.as_slice()), trimmed(p.1.as_slice()))),
        None => None,
    }
}

/// Sets the property of the line `t` (trimmed) in `m`, its value expanded.
fn put_property(m: &mut TextMap, vars: &TextMap, t: &[char])
    requires
        old(m).wf(),
        vars.wf(),
    ensures
        final(m).wf(),
        final(m)@ == put(old(m)@, property_entry(vars@, t@)),
{
    match entry_exec(t) {
        Some(e) => {
            let v = expand_with(vars, e.1.as_slice());
            m.insert(string_of(e.0.as_slice()), string_of(v.as_slice()));
        },
        None => {},
    }
}

/// A state rule whose header is line `k`: the line where its body ends, and
/// the rule.
fn parse_rule(lines: &Vec<Vec<char>>, k: usize, vars: &TextMap) -> (r: (usize, StateRule))
    requires
        k < lines@.len(),
        vars.wf(),
        is_rule_header(line_views(lines@)[k as int]),
    ensures
        r.0 == rule_end(line_views(lines@), k + 1),
        r.1.properties.wf(),
        r.1@ == (RuleView {
            conditions: conditions_of(trim(line_views(lines@)[k as int]).drop_last()),
            properties: rule_props(line_views(lines@), k + 1, r.0 as int, vars@, Map::empty()),
        }),
{
    let ghost lv = line_views(lines@);
    let _n = lines.len();
    let v = trimmed(lines[k].as_slice());
    let head = crate::text::copy_range(v.as_slice(), 0, v.len() - 1);
    proof {
        assert(head@ =~= trim(lv[k as int]).drop_last());
    }
    let mut conditions: Vec<(String, bool)> = Vec::new();
    proof {
        assert(cond_views(conditions@) =~= Seq::<(Seq<char>, bool)>::empty());
    }
    push_conditions(head.as_slice(), &mut conditions);
    proof {
        assert(Seq::<(Seq<char>, bool)>::empty() + conditions_of(head@) =~= conditions_of(head@));
    }
    let mut props = TextMap::new();
    let ghost re = rule_end(lv, k + 1);
    proof {
        lemma_rule_end(lv, k + 1);
    }
    let mut j = k + 1;
    while j < lines.len() && leading_spaces(lines[j].as_slice()) > 2
        invariant
            lv == line_views(lines@),
            k + 1 <= j <= re <= lv.len(),
            rule_end(lv, j as int) == re,
            props.wf(),
            vars.wf(),
            rule_props(lv, j as int, re, vars@, props@) == rule_props(lv, k + 1, re, vars@, Map::empty()),
        decreases lines.len() - j,
    {
        proof {
            lemma_rule_end(lv, j + 1);
        }
        if leading_spaces(lines[j].as_slice()) == 4 {
            let t = trimmed(lines[j].as_slice());
            put_property(&mut props, vars, t.as_slice());
        }
        j = j + 1;
    }
    (j, StateRule { conditions, properties: props })
}

/// One item of a style body at line `k` (see [`body_step`]), applied to `st`.
fn body_step_exec(lines: &Vec<Vec<char>>, k: usize, vars: &TextMap, st: &mut Style) -> (next: usize)
    requires
        k < lines@.len(),
        vars.wf(),
        style_wf(*old(st)),
    ensures
        style_wf(*final(st)),
        (next as int, final(st)@) == body_step(line_views(lines@), k as int, vars@, old(st)@),
{
    let ghost lv = line_views(lines@);
    let _n = lines.len();
    let level = leading_spaces(lines[k].as_slice());
    let v = trimmed(lines[k].as_slice());
    if level == 2 && v.len() > 0 && v[0] == '$' && v[v.len() - 1] == ':' {
        let (re, rule) = parse_rule(lines, k, vars);
        let ghost before = st.states@;
        st.states.push(rule);
        proof {
            assert(rule_views(st.states@) =~= rule_views(before).push(rule@));
            assert forall|i: int| 0 <= i < st.states@.len() implies (#[trigger] st.states@[i]).properties.wf() by {
                if i < before.len() {
                    assert(st.states@[i] == before[i]);
                }
            }
        }
        re
    } else if level == 2 {
        put_property(&mut st.properties, vars, v.as_slice());
        k + 1
    } else {
        k + 1
    }
}

/// Whether the line is blank or indented.
fn is_body_line(line: &[char]) -> (r: bool)
    ensures
        r == (trim(line@).len() == 0 || lead(line@) > 0),
{
    trimmed(line).len() == 0 || leading_spaces(line) > 0
}

/// The first line at or after `j` that is neither blank nor indented.
fn find_body_end(lines: &Vec<Vec<char>>, j: usize) -> (r: usize)
    requires
        j <= lines@.len(),
    ensures
        r == body_end(line_views(lines@), j as int),
{
    let ghost lv = line_views(lines@);
    let mut k = j;
    while k < lines.len() && is_body_line(lines[k].as_slice())
        invariant
            lv == line_views(lines@),
            j <= k <= lines@.len(),
            body_end(lv, k as int) == body_end(lv, j as int),
        decreases lines.len() - k,
    {
        k = k + 1;
    }
    k
}

/// The style that the lines `start..end` build from `st`.
fn parse_style_body(lines: &Vec<Vec<char>>, start: usize, end: usize, vars: &TextMap, st: Style) -> (r: Style)
    requires
        start <= end <= lines@.len(),
        vars.wf(),
        style_wf(st),
    ensures
        style_wf(r),
        r@ == style_body(line_views(lines@), start as int, end as int, vars@, st@),
{
    let ghost lv = line_views(lines@);
    let ghost st0 = st@;
    let mut st = st;
    let mut k = start;
    while k < end
        invariant
            lv == line_views(lines@),
            start <= k <= lines@.len(),
            end <= lines@.len(),
            vars.wf(),
            style_wf(st),
            style_body(lv, k as int, end as int, vars@, st@) == style_body(lv, start as int, end as int, vars@, st0),
        decreases lines.len() - k,
    {
        proof {
            lemma_body_step(lv, k as int, vars@, st@);
        }
        k = body_step_exec(lines, k, vars, &mut st);
    }
    st
}

/// Every value of `m` with its variables expanded.
fn expand_values(m: &mut TextMap, vars: &TextMap)
    requires
        old(m).wf(),
        vars.wf(),
    ensures
        final(m).wf(),
        final(m)@ == expand_map(vars@, old(m)@),
{
    let ghost m0 = *m;
    let ghost keys = m0.key_list();
    proof {
        m0.lemma_keys();
    }
    let mut i: usize = 0;
    while i < m.len()
        invariant
            m.wf(),
            vars.wf(),
            m0.wf(),
            keys == m0.key_list(),
            m.key_list() == keys,
            i <= keys.len(),
            m@.dom() == m0@.dom(),
            forall|j: int| 0 <= j < keys.len() ==> m0@.contains_key(#[trigger] keys[j]),
            forall|a: int, b: int| 0 <= a < b < keys.len() ==> #[trigger] keys[a] != #[trigger] keys[b],
            forall|k: Seq<char>| #[trigger] m0@.contains_key(k) ==> keys.contains(k),
            forall|k: Seq<char>|
                #[trigger] m@.contains_key(k) ==> m@[k] == (if keys.subrange(0, i as int).contains(k) {
                    expand(vars@, m0@[k])
                } else {
                    m0@[k]
                }),
        decreases m.key_list().len() - i,
    {
        let ghost ki = keys[i as int];
        let (_k, v) = m.entry(i);
        let vc = chars_of(v.as_str());
        let nv = expand_with(vars, vc.as_slice());
        proof {
            assert(!keys.subrange(0, i as int).contains(ki)) by {
                if keys.subrange(0, i as int).contains(ki) {
                    let a = choose|a: int| 0 <= a < i && #[trigger] keys.subrange(0, i as int)[a] == ki;
                    assert(keys[a] == keys.subrange(0, i as int)[a]);
                }
            }
            assert(m@[ki] == m0@[ki]);
        }
        m.set_value(i, string_of(nv.as_slice()));
        proof {
            assert forall|k: Seq<char>| #[trigger] m@.contains_key(k) implies m@[k] == (if keys.subrange(0, i + 1).contains(k) {
                expand(vars@, m0@[k])
            } else {
                m0@[k]
            }) by {
                if k == ki {
                    assert(keys.subrange(0, i + 1)[i as int] == ki);
                } else {
                    assert(keys.subrange(0, i + 1).contains(k) == keys.subrange(0, i as int).contains(k)) by {
                        if keys.subrange(0, i + 1).contains(k) {
                            let a = choose|a: int| 0 <= a < i + 1 && #[trigger] keys.subrange(0, i + 1)[a] == k;
                            assert(keys.subrange(0, i as int)[a] == k);
                        }
                        if keys.subrange(0, i as int).contains(k) {
                            let a = choose|a: int| 0 <= a < i && #[trigger] keys.subrange(0, i as int)[a] == k;
                            assert(keys.subrange(0, i + 1)[a] == k);
                        }
                    }
                }
            }
            assert(m@.dom() =~= m0@.dom());
        }
        i = i + 1;
    }
    proof {
        assert(keys.subrange(0, i as int) =~= keys);
        assert(m@ =~= expand_map(vars@, m0@));
    }
}

/// The style with its values expanded.
fn expand_style_exec(st: &mut Style, vars: &TextMap)
    requires
        style_wf(*old(st)),
        vars.wf(),
    ensures
        style_wf(*final(st)),
        final(st)@ == expand_style(vars@, old(st)@),
{
    let ghost s0 = *st;
    expand_values(&mut st.properties, vars);
    let mut j: usize = 0;
    while j < st.states.len()
        invariant
            vars.wf(),
            style_wf(s0),
            st.properties.wf(),
            st.properties@ == expand_map(vars@, s0.properties@),
            st.base == s0.base,
            st.states@.len() == s0.states@.len(),
            j <= st.states@.len(),
            forall|i: int| 0 <= i < st.states@.len() ==> (#[trigger] st.states@[i]).properties.wf(),
            forall|i: int| 0 <= i < j ==> (#[trigger] st.states@[i])@ == (RuleView {
                conditions: s0.states@[i]@.conditions,
                properties: expand_map(vars@, s0.states@[i]@.properties),
            }),
            forall|i: int| j <= i < st.states@.len() ==> #[trigger] st.states@[i] == s0.states@[i],
        decreases st.states.len() - j,
    {
        let mut rule = StateRule { conditions: Vec::new(), properties: TextMap::new() };
        st.states.set_and_swap(j, &mut rule);
        expand_values(&mut rule.properties, vars);
        st.states.set_and_swap(j, &mut rule);
        j = j + 1;
    }
    proof {
        assert(rule_views(st.states@) =~= expand_rules(vars@, rule_views(s0.states@)));
    }
}

impl StyleBook {
    /// Expands every style value with the book's variables.
    fn expand_all(&mut self)
        requires
            old(self).wf(),
        ensures
            final(self).wf(),
            final(self)@ == (StyleBookView { styles: expand_styles(old(self)@.variables, old(self)@.styles), ..old(self)@ }),
    {
        let ghost s0 = self.styles@;
        let mut i: usize = 0;
        while i < self.styles.len()
            invariant
                self.variables == old(self).variables,
                self.files == old(self).files,
                self.warnings == old(self).warnings,
                old(self).wf(),
                s0 == old(self).styles@,
                self.variables.wf(),
                same_names(s0, self.styles@),
                i <= s0.len(),
                forall|j: int| 0 <= j < s0.len() ==> style_wf(#[trigger] self.styles@[j].1),
                forall|j: int| 0 <= j < i ==> (#[trigger] self.styles@[j]).1@ == expand_style(self.variables@, s0[j].1@),
                forall|j: int| i <= j < s0.len() ==> #[trigger] self.styles@[j] == s0[j],
            decreases self.styles.len() - i,
        {
            let mut e = (String::new(), Style { base: None, properties: TextMap::new(), states: Vec::new() });
            self.styles.set_and_swap(i, &mut e);
            expand_style_exec(&mut e.1, &self.variables);
            self.styles.set_and_swap(i, &mut e);
            i = i + 1;
        }
        proof {
            lemma_same_names(s0, self.styles@);
            lemma_style_map(s0);
            let vars = self.variables@;
            assert(style_map(self.styles@) =~= expand_styles(vars, style_map(s0))) by {
                assert forall|k: Seq<char>| #[trigger] style_map(self.styles@).contains_key(k) implies style_map(self.styles@)[k]
                    == expand_styles(vars, style_map(s0))[k] by {
                    lemma_style_map(self.styles@);
                    let j = choose|j: int| 0 <= j < self.styles@.len() && self.styles@[j].0@ == k;
                    assert(s0[j].0@ == k);
                    assert(style_map(s0)[s0[j].0@] == s0[j].1@);
                }
            }
            assert(self@.warnings =~= old(self)@.warnings);
        }
    }

    /// One top-level item at line `i` (see [`parse_step`]); gives the next line.
    fn parse_step_exec(&mut self, lines: &Vec<Vec<char>>, i: usize) -> (next: usize)
        requires
            old(self).wf(),
            i < lines@.len(),
        ensures
            final(self).wf(),
            final(self)@.files == old(self)@.files,
            final(self)@.warnings == old(self)@.warnings,
            (next as int, final(self)@.variables, final(self)@.styles) == parse_step(
                line_views(lines@),
                i as int,
                old(self)@.variables,
                old(self)@.styles,
            ),
    {
        let ghost lv = line_views(lines@);
        let _n = lines.len();
        let ind = leading_spaces(lines[i].as_slice());
        let t = trimmed(lines[i].as_slice());
        if ind == 0 && t.len() > 0 && t[0] == '&' {
            match entry_exec(t.as_slice()) {
                Some(e) => {
                    self.variables.insert(string_of(e.0.as_slice()), string_of(e.1.as_slice()));
                },
                None => {},
            }
            return i + 1;
        }
        if ind != 0 || t.len() == 0 || (t.len() >= 2 && t[0] == '/' && t[1] == '/') {
            return i + 1;
        }
        match split_exec(t.as_slice(), '<') {
            Some(parts) => {
                let name = trimmed(parts.0.as_slice());
                if name.len() == 0 {
                    return i + 1;
                }
                let b = trimmed(parts.1.as_slice());
                let base = if b.len() == 0 {
                    None
                } else {
                    Some(string_of(b.as_slice()))
                };
                let st0 = Style { base, properties: TextMap::new(), states: Vec::new() };
                proof {
                    assert(rule_views(st0.states@) =~= Seq::<RuleView>::empty());
                    assert(st0@ == new_style(b@));
                }
                let end = find_body_end(lines, i + 1);
                proof {
                    lemma_body_end(lv, i + 1);
                }
                let st = parse_style_body(lines, i + 1, end, &self.variables, st0);
                self.insert_style(string_of(name.as_slice()), st);
                end
            },
            None => i + 1,
        }
    }

    /// Reads a style sheet: its variables and styles are added to the book
    /// (a style replaces one of the same name), then every style value is
    /// expanded with the variables known so far.
    pub fn parse(&mut self, text: &str)
        requires
            old(self).wf(),
        ensures
            final(self).wf(),
            final(self)@ == parsed(old(self)@, text@),
    {
        let chars = chars_of(text);
        let lines = split_lines(chars.as_slice());
        let ghost lv = line_views(lines@);
        let mut i: usize = 0;
        while i < lines.len()
            invariant
                self.wf(),
                lv == line_views(lines@),
                lv == text_lines(text@),
                i <= lines@.len(),
                parse_lines(lv, i as int, self@.variables, self@.styles) == parse_lines(
                    lv,
                    0,
                    old(self)@.variables,
                    old(self)@.styles,
                ),
                self@.files == old(self)@.files,
                self@.warnings == old(self)@.warnings,
            decreases lines.len() - i,
        {
            proof {
                lemma_parse_step(lv, i as int, self@.variables, self@.styles);
            }
            i = self.parse_step_exec(&lines, i);
        }
        self.expand_all();
    }
}

/// The name a node's kind refers to: its name before the first `<`, trimmed.
pub open spec fn kind_of(name: Seq<char>) -> Seq<char> {
    match find(name, '<') {
        Some(p) => trim(name.subrange(0, p)),
        None => trim(name),
    }
}

/// `out` with the properties from the `k`-th on set, values expanded; block
/// properties are skipped, and with `skip_events` also those whose key starts
/// with `@`.
pub open spec fn props_from(
    vars: Map<Seq<char>, Seq<char>>,
    props: Seq<PropertyView>,
    k: int,
    skip_events: bool,
    out: Map<Seq<char>, Seq<char>>,
) -> Map<Seq<char>, Seq<char>>
    decreases props.len() - k,
{
    if 0 <= k < props.len() {
        let p = props[k];
        let out2 = if !p.block && !(skip_events && p.key.len() > 0 && p.key[0] == '@') {
            out.insert(p.key, expand(vars, p.value))
        } else {
            out
        };
        props_from(vars, props, k + 1, skip_events, out2)
    } else {
        out
    }
}

/// `out` with the properties of the state blocks directly under node `p`
/// (from node `j` on) whose conditions hold in the state.
pub open spec fn children_from(
    vars: Map<Seq<char>, Seq<char>>,
    nodes: Seq<NodeView>,
    p: usize,
    state: VisualState,
    j: int,
    out: Map<Seq<char>, Seq<char>>,
) -> Map<Seq<char>, Seq<char>>
    decreases nodes.len() - j,
{
    if 0 <= j < nodes.len() {
        let c = nodes[j];
        let out2 = if c.parent == Some(p) && !c.widget && conditions_hold(
            conditions_of(strip_end_all(c.name, ':')),
            state,
        ) {
            props_from(vars, c.properties, 0, false, out)
        } else {
            out
        };
        children_from(vars, nodes, p, state, j + 1, out2)
    } else {
        out
    }
}

/// The first root node from `j` on that defines the style `name`
/// (`name < Base`).
pub open spec fn definition_from(nodes: Seq<NodeView>, name: Seq<char>, j: int) -> Option<int>
    decreases nodes.len() - j,
{
    if 0 <= j < nodes.len() {
        if nodes[j].parent is None && (match split_at_char(nodes[j].name, '<') {
            Some(parts) => trim(parts.0) == name,
            None => false,
        }) {
            Some(j)
        } else {
            definition_from(nodes, name, j + 1)
        }
    } else {
        None
    }
}

/// `out` with the rules from the `k`-th on applied: each whose conditions
/// hold sets its properties.
pub open spec fn rules_from(rules: Seq<RuleView>, state: VisualState, k: int, out: Map<Seq<char>, Seq<char>>) -> Map<Seq<char>, Seq<char>>
    decreases rules.len() - k,
{
    if 0 <= k < rules.len() {
        let out2 = if conditions_hold(rules[k].conditions, state) {
            out.union_prefer_right(rules[k].properties)
        } else {
            out
        };
        rules_from(rules, state, k + 1, out2)
    } else {
        out
    }
}

/// Most styles a chain of bases is followed through.
pub open spec fn max_depth() -> nat {
    64
}

/// `out` with the style `name` of the book applied: its base first, then its
/// properties, then its rules that hold. A name already being resolved (in
/// `visiting`), an unknown name or a chain deeper than the limit adds nothing.
pub open spec fn book_named(
    styles: Map<Seq<char>, StyleView>,
    name: Seq<char>,
    state: VisualState,
    out: Map<Seq<char>, Seq<char>>,
    visiting: Seq<Seq<char>>,
    depth: nat,
) -> Map<Seq<char>, Seq<char>>
    decreases max_depth() - depth,
{
    if depth < max_depth() && !visiting.contains(name) && styles.contains_key(name) {
        let st = styles[name];
        let o1 = match st.base {
            Some(b) => book_named(styles, b, state, out, visiting.push(name), depth + 1),
            None => out,
        };
        rules_from(st.states, state, 0, o1.union_prefer_right(st.properties))
    } else {
        out
    }
}

/// The mark a document style name takes while it is being resolved.
pub open spec fn document_tag(name: Seq<char>) -> Seq<char> {
    "document:"@ + name
}

/// `out` with the style `name` applied, as the document defines it (its base
/// first, then its properties, then its state blocks that hold), or else as
/// the book does.
pub open spec fn doc_named(
    book: StyleBookView,
    nodes: Seq<NodeView>,
    name: Seq<char>,
    state: VisualState,
    out: Map<Seq<char>, Seq<char>>,
    visiting: Seq<Seq<char>>,
    depth: nat,
) -> Map<Seq<char>, Seq<char>>
    decreases max_depth() - depth,
{
    if depth < max_depth() && !visiting.contains(document_tag(name)) {
        let v2 = visiting.push(document_tag(name));
        match definition_from(nodes, name, 0) {
            Some(idx) => {
                let base = match split_at_char(nodes[idx].name, '<') {
                    Some(parts) => trim(parts.1),
                    None => Seq::empty(),
                };
                let o1 = if base.len() > 0 {
                    doc_named(book, nodes, base, state, out, v2, depth + 1)
                } else {
                    out
                };
                let o2 = props_from(book.variables, nodes[idx].properties, 0, false, o1);
                children_from(book.variables, nodes, idx as usize, state, 0, o2)
            },
            None => book_named(book.styles, name, state, out, v2, depth),
        }
    } else {
        out
    }
}

/// The effective properties of node `node` in the state: its kind's style
/// chain, then its own properties (event handlers aside), then its state
/// blocks that hold. Nothing for a node that does not exist.
pub open spec fn resolved(book: StyleBookView, nodes: Seq<NodeView>, node: int, state: VisualState) -> Map<Seq<char>, Seq<char>> {
    if 0 <= node < nodes.len() {
        let w = nodes[node];
        let m1 = doc_named(book, nodes, kind_of(w.name), state, Map::empty(), Seq::empty(), 0);
        let m2 = props_from(book.variables, w.properties, 0, true, m1);
        children_from(book.variables, nodes, node as usize, state, 0, m2)
    } else {
        Map::empty()
    }
}

/// The views of a list of strings.
pub open spec fn text_views(s: Seq<String>) -> Seq<Seq<char>> {
    s.map_values(|x: String| x@)
}

fn contains_text(v: &Vec<String>, x: &String) -> (r: bool)
    ensures
        r == text_views(v@).contains(x@),
{
    let mut i: usize = 0;
    while i < v.len()
        invariant
            i <= v@.len(),
            forall|j: int| 0 <= j < i ==> v@[j]@ != x@,
        decreases v.len() - i,
    {
        if v[i] == *x {
            proof {
                assert(text_views(v@)[i as int] == x@);
            }
            return true;
        }
        i = i + 1;
    }
    proof {
        if text_views(v@).contains(x@) {
            let j = choose|j: int| 0 <= j < text_views(v@).len() && text_views(v@)[j] == x@;
            assert(v@[j]@ == x@);
        }
    }
    false
}

/// Sets the properties of the list (see [`props_from`]) in `out`.
fn apply_props(vars: &TextMap, props: &Vec<Property>, skip_events: bool, out: &mut TextMap)
    requires
        vars.wf(),
        old(out).wf(),
    ensures
        final(out).wf(),
        final(out)@ == props_from(vars@, prop_views(props@), 0, skip_events, old(out)@),
{
    let ghost pv = prop_views(props@);
    let mut k: usize = 0;
    while k < props.len()
        invariant
            pv == prop_views(props@),
            k <= props@.len(),
            vars.wf(),
            out.wf(),
            props_from(vars@, pv, k as int, skip_events, out@) == props_from(vars@, pv, 0, skip_events, old(out)@),
        decreases props.len() - k,
    {
        let p = &props[k];
        let key = chars_of(p.key.as_str());
        if !p.block && !(skip_events && key.len() > 0 && key[0] == '@') {
            let value = chars_of(p.value.as_str());
            let v = expand_with(vars, value.as_slice());
            out.insert(p.key.clone(), string_of(v.as_slice()));
        }
        k = k + 1;
    }
}

/// Applies the state blocks under node `p` (see [`children_from`]).
fn apply_children(vars: &TextMap, document: &Document, p: usize, state: VisualState, out: &mut TextMap)
    requires
        vars.wf(),
        old(out).wf(),
    ensures
        final(out).wf(),
        final(out)@ == children_from(vars@, document@.nodes, p, state, 0, old(out)@),
{
    let ghost nodes = document@.nodes;
    let count = document.node_count();
    let mut j: usize = 0;
    while j < count
        invariant
            nodes == document@.nodes,
            count == nodes.len(),
            j <= nodes.len(),
            vars.wf(),
            out.wf(),
            children_from(vars@, nodes, p, state, j as int, out@) == children_from(vars@, nodes, p, state, 0, old(out)@),
        decreases count - j,
    {
        match document.node(j) {
            Some(c) => {
                if c.parent == Some(p) && !c.widget {
                    let conditions = parse_conditions(c.name.as_str());
                    if state_matches(&conditions, state) {
                        apply_props(vars, &c.properties, false, out);
                    }
                }
            },
            None => {},
        }
        j = j + 1;
    }
}

/// The first root node that defines the style `name`.
fn find_definition(document: &Document, name: &[char]) -> (r: Option<usize>)
    ensures
        match r {
            Some(i) => definition_from(document@.nodes, name@, 0) == Some(i as int) && i < document@.nodes.len(),
            None => definition_from(document@.nodes, name@, 0) is None,
        },
{
    let ghost nodes = document@.nodes;
    let count = document.node_count();
    let mut j: usize = 0;
    while j < count
        invariant
            nodes == document@.nodes,
            count == nodes.len(),
            j <= nodes.len(),
            definition_from(nodes, name@, j as int) == definition_from(nodes, name@, 0),
        decreases count - j,
    {
        match document.node(j) {
            Some(c) => {
                if c.parent.is_none() {
                    let cn = chars_of(c.name.as_str());
                    match split_exec(cn.as_slice(), '<') {
                        Some(parts) => {
                            let t = trimmed(parts.0.as_slice());
                            if crate::text::same_chars(t.as_slice(), name) {
                                return Some(j);
                            }
                        },
                        None => {},
                    }
                }
            },
            None => {},
        }
        j = j + 1;
    }
    None
}

/// The effective properties of a node, as [`StyleBook::resolve`] gives them.
#[derive(Clone, Debug)]
pub struct ResolvedStyle {
    pub properties: TextMap,
}

impl Default for ResolvedStyle {
    fn default() -> (r: ResolvedStyle)
        ensures
            r.properties.wf(),
            r.properties@ == Map::<Seq<char>, Seq<char>>::empty(),
    {
        ResolvedStyle { properties: TextMap::new() }
    }
}

impl ResolvedStyle {
    /// The value of the property, or the empty text when it is not set.
    pub fn get(&self, key: &str) -> (r: &str)
        requires
            self.properties.wf(),
        ensures
            r@ == (if self.properties@.contains_key(key@) {
                self.properties@[key@]
            } else {
                Seq::<char>::empty()
            }),
    {
        let k = key.to_owned();
        match self.properties.get(&k) {
            Some(v) => v.as_str(),
            None => {
                proof {
                    reveal_strlit("");
                }
                ""
            },
        }
    }
}

impl StyleBook {
    /// The position of the style named `name`.
    fn style_index(&self, name: &String) -> (r: Option<usize>)
        requires
            self.wf(),
        ensures
            match r {
                Some(i) => i < self.styles@.len() && self.styles@[i as int].0@ == name@
                    && self@.styles.contains_key(name@) && self@.styles[name@] == self.styles@[i as int].1@,
                None => !self@.styles.contains_key(name@),
            },
    {
        proof {
            lemma_style_map(self.styles@);
        }
        let mut i: usize = 0;
        while i < self.styles.len()
            invariant
                self.wf(),
                i <= self.styles@.len(),
                forall|j: int| 0 <= j < i ==> self.styles@[j].0@ != name@,
            decreases self.styles.len() - i,
        {
            if self.styles[i].0 == *name {
                proof {
                    lemma_style_map(self.styles@);
                    assert(style_map(self.styles@).contains_key(self.styles@[i as int].0@));
                }
                return Some(i);
            }
            i = i + 1;
        }
        proof {
            if style_map(self.styles@).contains_key(name@) {
                let j = choose|j: int| 0 <= j < self.styles@.len() && self.styles@[j].0@ == name@;
                assert(self.styles@[j].0@ != name@);
            }
        }
        None
    }

    /// Applies the style `name` of the book (see [`book_named`]).
    fn resolve_named(&self, name: &String, state: VisualState, out: &mut TextMap, visiting: &mut Vec<String>, depth: usize)
        requires
            self.wf(),
            old(out).wf(),
        ensures
            final(out).wf(),
            final(visiting)@ == old(visiting)@,
            final(out)@ == book_named(self@.styles, name@, state, old(out)@, text_views(old(visiting)@), depth as nat),
        decreases max_depth() - depth,
    {
        if depth >= 64 || contains_text(visiting, name) {
            return;
        }
        let i = match self.style_index(name) {
            Some(i) => i,
            None => {
                return;
            },
        };
        let style = &self.styles[i].1;
        proof {
            assert(style_wf(self.styles@[i as int].1));
        }
        let ghost v0 = visiting@;
        visiting.push(name.clone());
        proof {
            assert(text_views(visiting@) =~= text_views(v0).push(name@));
        }
        match &style.base {
            Some(b) => {
                self.resolve_named(b, state, out, visiting, depth + 1);
            },
            None => {},
        }
        visiting.pop();
        proof {
            assert(visiting@ =~= v0);
        }
        out.extend_from(&style.properties);
        let ghost rv = rule_views(style.states@);
        let ghost target = rules_from(rv, state, 0, out@);
        let mut k: usize = 0;
        while k < style.states.len()
            invariant
                rv == rule_views(style.states@),
                k <= style.states@.len(),
                forall|j: int| 0 <= j < style.states@.len() ==> (#[trigger] style.states@[j]).properties.wf(),
                out.wf(),
                rules_from(rv, state, k as int, out@) == target,
            decreases style.states.len() - k,
        {
            let rule = &style.states[k];
            proof {
                assert(rv[k as int] == rule@);
            }
            if state_matches(&rule.conditions, state) {
                out.extend_from(&rule.properties);
            }
            k = k + 1;
        }
    }

    /// Applies the style `name` as the document or the book defines it (see
    /// [`doc_named`]).
    fn resolve_document_named(
        &self,
        document: &Document,
        name: &[char],
        state: VisualState,
        out: &mut TextMap,
        visiting: &mut Vec<String>,
        depth: usize,
    )
        requires
            self.wf(),
            old(out).wf(),
        ensures
            final(out).wf(),
            final(visiting)@ == old(visiting)@,
            final(out)@ == doc_named(self@, document@.nodes, name@, state, old(out)@, text_views(old(visiting)@), depth as nat),
        decreases max_depth() - depth,
    {
        let prefix = chars_of("document:");
        let mut tag_chars = prefix;
        let mut q: usize = 0;
        while q < name.len()
            invariant
                q <= name@.len(),
                tag_chars@ == "document:"@ + name@.subrange(0, q as int),
            decreases name.len() - q,
        {
            tag_chars.push(name[q]);
            q = q + 1;
            proof {
                assert(tag_chars@ =~= "document:"@ + name@.subrange(0, q as int));
            }
        }
        proof {
            assert(name@.subrange(0, name@.len() as int) =~= name@);
        }
        let tag = string_of(tag_chars.as_slice());
        if depth >= 64 || contains_text(visiting, &tag) {
            return;
        }
        let ghost v0 = visiting@;
        visiting.push(tag);
        proof {
            assert(text_views(visiting@) =~= text_views(v0).push(document_tag(name@)));
        }
        let found = match find_definition(document, name) {
            Some(idx) => match document.node(idx) {
                Some(def) => Some((idx, def)),
                None => None,
            },
            None => None,
        };
        match found {
            Some((idx, def)) => {
                let cn = chars_of(def.name.as_str());
                let base = match split_exec(cn.as_slice(), '<') {
                    Some(parts) => trimmed(parts.1.as_slice()),
                    None => Vec::new(),
                };
                proof {
                    if split_at_char(cn@, '<') is None {
                        assert(base@ =~= Seq::<char>::empty());
                    }
                }
                if base.len() > 0 {
                    self.resolve_document_named(document, base.as_slice(), state, out, visiting, depth + 1);
                }
                apply_props(&self.variables, &def.properties, false, out);
                apply_children(&self.variables, document, idx, state, out);
            },
            None => {
                let n = string_of(name);
                self.resolve_named(&n, state, out, visiting, depth);
            },
        }
        visiting.pop();
        proof {
            assert(visiting@ =~= v0);
        }
    }

    /// The effective properties of node `node` in the state (see [`resolved`]).
    pub fn resolve(&self, document: &Document, node: usize, state: VisualState) -> (r: ResolvedStyle)
        requires
            self.wf(),
        ensures
            r.properties.wf(),
            r.properties@ == resolved(self@, document@.nodes, node as int, state),
    {
        let mut properties = TextMap::new();
        let widget = match document.node(node) {
            Some(w) => w,
            None => {
                return ResolvedStyle { properties };
            },
        };
        let wn = chars_of(widget.name.as_str());
        let kind = match find_char(wn.as_slice(), '<') {
            Some(p) => {
                let head = crate::text::copy_range(wn.as_slice(), 0, p);
                trimmed(head.as_slice())
            },
            None => trimmed(wn.as_slice()),
        };
        let mut visiting: Vec<String> = Vec::new();
        proof {
            assert(text_views(visiting@) =~= Seq::<Seq<char>>::empty());
        }
        self.resolve_document_named(document, kind.as_slice(), state, &mut properties, &mut visiting, 0);
        apply_props(&self.variables, &widget.properties, true, &mut properties);
        apply_children(&self.variables, document, node, state, &mut properties);
        ResolvedStyle { properties }
    }
}

/// Most style files a project's style folder is read from.
pub const MAX_STYLE_FILES: usize = 512;

/// The warning for a style file that could not be read.
pub open spec fn read_warning(path: Seq<char>, reason: Option<Seq<char>>) -> Seq<char> {
    match reason {
        Some(e) => path + ": "@ + e,
        None => path + " excede o limite de leitura"@,
    }
}

fn push_text(out: &mut Vec<char>, s: &str)
    ensures
        final(out)@ == old(out)@ + s@,
{
    let c = chars_of(s);
    let ghost start = out@;
    let mut i: usize = 0;
    while i < c.len()
        invariant
            i <= c@.len(),
            out@ == start + c@.subrange(0, i as int),
        decreases c.len() - i,
    {
        out.push(c[i]);
        i = i + 1;
        proof {
            assert(out@ =~= start + c@.subrange(0, i as int));
        }
    }
    proof {
        assert(c@.subrange(0, c@.len() as int) =~= c@);
    }
}

/// Whether a style file of `size` bytes is read (at most [`MAX_BYTES`]).
pub fn sheet_fits(size: u64) -> (r: bool)
    ensures
        r == (size <= MAX_BYTES),
{
    size <= MAX_BYTES as u64
}

impl StyleBook {
    /// Reads one style file's text (see [`StyleBook::parse`]) and counts it.
    pub fn add_sheet(&mut self, text: &str)
        requires
            old(self).wf(),
            old(self)@.files < usize::MAX,
        ensures
            final(self).wf(),
            final(self)@ == (StyleBookView { files: (old(self)@.files + 1) as usize, ..parsed(old(self)@, text@) }),
    {
        self.parse(text);
        self.files = self.files + 1;
    }

    /// Records that the style file at `path` was not read: for `reason`, or
    /// for its size when there is none.
    pub fn refuse_sheet(&mut self, path: &str, reason: Option<&str>)
        requires
            old(self).wf(),
        ensures
            final(self).wf(),
            final(self)@ == (StyleBookView {
                warnings: old(self)@.warnings.push(
                    read_warning(
                        path@,
                        match reason {
                            Some(e) => Some(e@),
                            None => None,
                        },
                    ),
                ),
                ..old(self)@
            }),
    {
        let mut w: Vec<char> = Vec::new();
        push_text(&mut w, path);
        match reason {
            Some(e) => {
                push_text(&mut w, ": ");
                push_text(&mut w, e);
            },
            None => {
                push_text(&mut w, " excede o limite de leitura");
            },
        }
        let ghost before = self.warnings@;
        self.warnings.push(string_of(w.as_slice()));
        proof {
            assert(self.warnings@.map_values(|x: String| x@) =~= before.map_values(|x: String| x@).push(w@));
        }
    }
}

/// `/` or `\`.
pub open spec fn is_slash(c: char) -> bool {
    c == '/' || c == '\\'
}

/// Number of slashes at the start of `s`.
pub open spec fn slashes_before(s: Seq<char>) -> nat
    decreases s.len(),
{
    if s.len() > 0 && is_slash(s[0]) {
        1 + slashes_before(s.drop_first())
    } else {
        0
    }
}

/// The path below the project's `data` folder that an image source names:
/// trimmed, without quotes at either end, without leading slashes, and with
/// `/` written as the platform's separator; `None` when it is empty or
/// climbs with `..`.
pub open spec fn resolved_asset_of(source: Seq<char>, separator: char) -> Option<Seq<char>> {
    let clean = unquoted(trim(source));
    if clean.len() == 0 || has_infix(clean, ".."@) {
        None
    } else {
        let rel = clean.subrange(slashes_before(clean) as int, clean.len() as int);
        Some(rel.map_values(|c: char| if c == '/' { separator } else { c }))
    }
}

/// The path below `data` that an image source names (see [`resolved_asset_of`]).
pub fn resolve_asset(source: &str, separator: char) -> (r: Option<String>)
    ensures
        match r {
            Some(p) => resolved_asset_of(source@, separator) == Some(p@),
            None => resolved_asset_of(source@, separator) is None,
        },
{
    let c = chars_of(source);
    let t = trimmed(c.as_slice());
    let clean = strip_quotes(t.as_slice());
    let dots = chars_of("..");
    if clean.len() == 0 || contains_infix(clean.as_slice(), dots.as_slice()) {
        return None;
    }
    let mut a: usize = 0;
    proof {
        assert(clean@.subrange(0, clean@.len() as int) =~= clean@);
    }
    while a < clean.len() && (clean[a] == '/' || clean[a] == '\\')
        invariant
            a <= clean@.len(),
            slashes_before(clean@.subrange(a as int, clean@.len() as int)) + a == slashes_before(clean@),
        decreases clean.len() - a,
    {
        proof {
            assert(clean@.subrange(a as int, clean@.len() as int).drop_first() =~= clean@.subrange(a + 1, clean@.len() as int));
        }
        a = a + 1;
    }
    let ghost rel = clean@.subrange(a as int, clean@.len() as int);
    proof {
        assert(slashes_before(rel) == 0);
    }
    let mut out: Vec<char> = Vec::new();
    let mut i = a;
    while i < clean.len()
        invariant
            a <= i <= clean@.len(),
            rel == clean@.subrange(a as int, clean@.len() as int),
            out@ == clean@.subrange(a as int, i as int).map_values(|c: char| if c == '/' { separator } else { c }),
        decreases clean.len() - i,
    {
        let x = if clean[i] == '/' {
            separator
        } else {
            clean[i]
        };
        out.push(x);
        i = i + 1;
        proof {
            assert(out@ =~= clean@.subrange(a as int, i as int).map_values(|c: char| if c == '/' { separator } else { c }));
        }
    }
    proof {
        assert(clean@.subrange(a as int, clean@.len() as int) =~= rel);
    }
    Some(string_of(out.as_slice()))
}

/// What each state condition name reads: `hover`/`hovered`, `pressed`,
/// `disabled`, `checked`, `on`, `focus`/`focused` and `dragging` read the
/// flag of that name, each independently of the others, and any other name
/// reads `false`; so a one-condition rule on `checked` holds exactly when
/// the checked flag is the one it expects.
pub proof fn law_state_conditions(name: Seq<char>, s: VisualState, expected: bool)
    ensures
        state_flag("hover"@, s) == s.hovered,
        state_flag("hovered"@, s) == s.hovered,
        state_flag("pressed"@, s) == s.pressed,
        state_flag("disabled"@, s) == s.disabled,
        state_flag("checked"@, s) == s.checked,
        state_flag("on"@, s) == s.on,
        state_flag("focus"@, s) == s.focused,
        state_flag("focused"@, s) == s.focused,
        state_flag("dragging"@, s) == s.dragging,
        name != "hover"@ && name != "hovered"@ && name != "pressed"@ && name != "disabled"@ && name
            != "checked"@ && name != "on"@ && name != "focus"@ && name != "focused"@ && name
            != "dragging"@ ==> !state_flag(name, s),
        conditions_hold(seq![("checked"@, expected)], s) <==> s.checked == expected,
        conditions_hold(seq![("on"@, expected)], s) <==> s.on == expected,
{
    reveal_strlit("hover");
    reveal_strlit("hovered");
    reveal_strlit("pressed");
    reveal_strlit("disabled");
    reveal_strlit("checked");
    reveal_strlit("on");
    reveal_strlit("focus");
    reveal_strlit("focused");
    reveal_strlit("dragging");
    assert("hover"@.len() != "hovered"@.len());
    assert("hover"@.len() != "pressed"@.len());
    assert("hover"@.len() != "disabled"@.len());
    assert("hover"@.len() != "checked"@.len());
    assert("hover"@.len() != "on"@.len());
    assert("hover"@[0] != "focus"@[0]);
    assert("hover"@.len() != "focused"@.len());
    assert("hover"@.len() != "dragging"@.len());
    assert("hovered"@[0] != "pressed"@[0]);
    assert("hovered"@.len() != "disabled"@.len());
    assert("hovered"@[0] != "checked"@[0]);
    assert("hovered"@.len() != "on"@.len());
    assert("hovered"@.len() != "focus"@.len());
    assert("hovered"@[0] != "focused"@[0]);
    assert("hovered"@.len() != "dragging"@.len());
    assert("pressed"@.len() != "disabled"@.len());
    assert("pressed"@[0] != "checked"@[0]);
    assert("pressed"@.len() != "on"@.len());
    assert("pressed"@.len() != "focus"@.len());
    assert("pressed"@[0] != "focused"@[0]);
    assert("pressed"@.len() != "dragging"@.len());
    assert("disabled"@.len() != "checked"@.len());
    assert("disabled"@.len() != "on"@.len());
    assert("disabled"@.len() != "focus"@.len());
    assert("disabled"@.len() != "focused"@.len());
    assert("disabled"@[1] != "dragging"@[1]);
    assert("checked"@.len() != "on"@.len());
    assert("checked"@.len() != "focus"@.len());
    assert("checked"@[0] != "focused"@[0]);
    assert("checked"@.len() != "dragging"@.len());
    assert("on"@.len() != "focus"@.len());
    assert("on"@.len() != "focused"@.len());
    assert("on"@.len() != "dragging"@.len());
    assert("focus"@.len() != "focused"@.len());
    assert("focus"@.len() != "dragging"@.len());
    assert("focused"@.len() != "dragging"@.len());
    let c = seq![("checked"@, expected)];
    let o = seq![("on"@, expected)];
    assert(c[0].0 == "checked"@);
    assert(o[0].0 == "on"@);
}

/// A style's state rules apply in order and the last one that holds and
/// sets a key decides it: with no rule from `k` on that both holds in the
/// state and sets the key, the key is as before; otherwise it takes the
/// value that the last such rule gives.
pub proof fn law_state_rules(
    rules: Seq<RuleView>,
    state: VisualState,
    k: int,
    out: Map<Seq<char>, Seq<char>>,
    key: Seq<char>,
)
    requires
        0 <= k,
    ensures
        (forall|r: int|
            k <= r < rules.len() ==> !(conditions_hold((#[trigger] rules[r]).conditions, state)
                && rules[r].properties.contains_key(key))) ==> (rules_from(rules, state, k, out).contains_key(key)
            == out.contains_key(key) && (out.contains_key(key) ==> rules_from(rules, state, k, out)[key]
            == out[key])),
        forall|r: int|
            k <= r < rules.len() && conditions_hold((#[trigger] rules[r]).conditions, state)
                && rules[r].properties.contains_key(key) && (forall|r2: int|
                r < r2 < rules.len() ==> !(conditions_hold((#[trigger] rules[r2]).conditions, state)
                    && rules[r2].properties.contains_key(key))) ==> rules_from(rules, state, k, out).contains_key(key)
                && rules_from(rules, state, k, out)[key] == rules[r].properties[key],
    decreases rules.len() - k,
{
    if k < rules.len() {
        let out2 = if conditions_hold(rules[k].conditions, state) {
            out.union_prefer_right(rules[k].properties)
        } else {
            out
        };
        law_state_rules(rules, state, k + 1, out2, key);
        assert(rules_from(rules, state, k, out) == rules_from(rules, state, k + 1, out2));
        assert forall|r: int|
            k <= r < rules.len() && conditions_hold((#[trigger] rules[r]).conditions, state)
                && rules[r].properties.contains_key(key) && (forall|r2: int|
                r < r2 < rules.len() ==> !(conditions_hold((#[trigger] rules[r2]).conditions, state)
                    && rules[r2].properties.contains_key(key))) implies rules_from(rules, state, k, out).contains_key(key)
                && rules_from(rules, state, k, out)[key] == rules[r].properties[key] by {
            if r == k {
                assert forall|r2: int| k + 1 <= r2 < rules.len() implies !(conditions_hold(
                    (#[trigger] rules[r2]).conditions,
                    state,
                ) && rules[r2].properties.contains_key(key)) by {}
            }
        }
    }
}

/// A property that applies when properties are set: not a block, and not an
/// event handler (`@…`) when those are skipped.
pub open spec fn applies(p: PropertyView, skip_events: bool) -> bool {
    !p.block && !(skip_events && p.key.len() > 0 && p.key[0] == '@')
}

/// Properties are set in order, values expanded, and the last one that
/// applies decides a key: with none from `k` on that applies and has the
/// key, the key is as before; otherwise it holds the expanded value of the
/// last such property.
pub proof fn law_properties_applied(
    vars: Map<Seq<char>, Seq<char>>,
    props: Seq<PropertyView>,
    k: int,
    skip_events: bool,
    out: Map<Seq<char>, Seq<char>>,
    key: Seq<char>,
)
    requires
        0 <= k,
    ensures
        (forall|q: int|
            k <= q < props.len() ==> !(applies(#[trigger] props[q], skip_events) && props[q].key == key)) ==> (
        props_from(vars, props, k, skip_events, out).contains_key(key) == out.contains_key(key) && (out.contains_key(
            key,
        ) ==> props_from(vars, props, k, skip_events, out)[key] == out[key])),
        forall|q: int|
            k <= q < props.len() && applies(#[trigger] props[q], skip_events) && props[q].key == key && (forall|q2: int|
                q < q2 < props.len() ==> !(applies(#[trigger] props[q2], skip_events) && props[q2].key == key))
                ==> props_from(vars, props, k, skip_events, out).contains_key(key) && props_from(
                vars,
                props,
                k,
                skip_events,
                out,
            )[key] == expand(vars, props[q].value),
    decreases props.len() - k,
{
    if k < props.len() {
        let p = props[k];
        let out2 = if !p.block && !(skip_events && p.key.len() > 0 && p.key[0] == '@') {
            out.insert(p.key, expand(vars, p.value))
        } else {
            out
        };
        law_properties_applied(vars, props, k + 1, skip_events, out2, key);
        assert forall|q: int|
            k <= q < props.len() && applies(#[trigger] props[q], skip_events) && props[q].key == key && (forall|q2: int|
                q < q2 < props.len() ==> !(applies(#[trigger] props[q2], skip_events) && props[q2].key == key))
                implies props_from(vars, props, k, skip_events, out).contains_key(key) && props_from(
                vars,
                props,
                k,
                skip_events,
                out,
            )[key] == expand(vars, props[q].value) by {
            if q == k {
                assert forall|q2: int| k + 1 <= q2 < props.len() implies !(applies(#[trigger] props[q2], skip_events)
                    && props[q2].key == key) by {}
            }
        }
    }
}

/// A state block of node `p`: a child that is no widget and whose `$…`
/// header's conditions hold in the state.
pub open spec fn block_applies(c: NodeView, p: usize, state: VisualState) -> bool {
    c.parent == Some(p) && !c.widget && conditions_hold(conditions_of(strip_end_all(c.name, ':')), state)
}

/// Whether node `c` holds a property `key` that applies (blocks aside).
pub open spec fn sets_key(c: NodeView, key: Seq<char>) -> bool {
    exists|q: int| 0 <= q < c.properties.len() && applies(#[trigger] c.properties[q], false) && c.properties[q].key == key
}

/// The state blocks of a node apply in order, each as its properties: with
/// none from `j` on that holds and sets a key, the key is as before;
/// otherwise it holds the expanded value of the last such property of the
/// last such block.
pub proof fn law_state_blocks(
    vars: Map<Seq<char>, Seq<char>>,
    nodes: Seq<NodeView>,
    p: usize,
    state: VisualState,
    j: int,
    out: Map<Seq<char>, Seq<char>>,
    key: Seq<char>,
)
    requires
        0 <= j,
    ensures
        (forall|c: int|
            j <= c < nodes.len() ==> !(block_applies(#[trigger] nodes[c], p, state) && sets_key(nodes[c], key)))
            ==> (children_from(vars, nodes, p, state, j, out).contains_key(key) == out.contains_key(key) && (
        out.contains_key(key) ==> children_from(vars, nodes, p, state, j, out)[key] == out[key])),
        forall|c: int, q: int|
            j <= c < nodes.len() && block_applies(#[trigger] nodes[c], p, state) && 0 <= q < nodes[c].properties.len()
                && applies(#[trigger] nodes[c].properties[q], false) && nodes[c].properties[q].key == key && (
            forall|q2: int|
                q < q2 < nodes[c].properties.len() ==> !(applies(#[trigger] nodes[c].properties[q2], false)
                    && nodes[c].properties[q2].key == key)) && (forall|c2: int|
                c < c2 < nodes.len() ==> !(block_applies(#[trigger] nodes[c2], p, state) && sets_key(nodes[c2], key)))
                ==> children_from(vars, nodes, p, state, j, out).contains_key(key) && children_from(
                vars,
                nodes,
                p,
                state,
                j,
                out,
            )[key] == expand(vars, nodes[c].properties[q].value),
    decreases nodes.len() - j,
{
    if j < nodes.len() {
        let c = nodes[j];
        let out2 = if c.parent == Some(p) && !c.widget && conditions_hold(
            conditions_of(strip_end_all(c.name, ':')),
            state,
        ) {
            props_from(vars, c.properties, 0, false, out)
        } else {
            out
        };
        law_state_blocks(vars, nodes, p, state, j + 1, out2, key);
        law_properties_applied(vars, c.properties, 0, false, out, key);
        if block_applies(c, p, state) && !sets_key(c, key) {
            assert forall|q: int| 0 <= q < c.properties.len() implies !(applies(#[trigger] c.properties[q], false)
                && c.properties[q].key == key) by {}
        }
        assert forall|cc: int, q: int|
            j <= cc < nodes.len() && block_applies(#[trigger] nodes[cc], p, state) && 0 <= q < nodes[cc].properties.len()
                && applies(#[trigger] nodes[cc].properties[q], false) && nodes[cc].properties[q].key == key && (
            forall|q2: int|
                q < q2 < nodes[cc].properties.len() ==> !(applies(#[trigger] nodes[cc].properties[q2], false)
                    && nodes[cc].properties[q2].key == key)) && (forall|c2: int|
                cc < c2 < nodes.len() ==> !(block_applies(#[trigger] nodes[c2], p, state) && sets_key(nodes[c2], key)))
                implies children_from(vars, nodes, p, state, j, out).contains_key(key) && children_from(
                vars,
                nodes,
                p,
                state,
                j,
                out,
            )[key] == expand(vars, nodes[cc].properties[q].value) by {
            if cc == j {
                assert forall|c2: int| j + 1 <= c2 < nodes.len() implies !(block_applies(#[trigger] nodes[c2], p, state)
                    && sets_key(nodes[c2], key)) by {}
            }
        }
    }
}

/// A widget's effective style, key by key: the last of its state blocks
/// that holds and sets the key decides; failing that, its own last property
/// with the key (blocks and event handlers aside), expanded; failing that,
/// the style chain of its kind.
pub proof fn law_resolution_layers(
    book: StyleBookView,
    nodes: Seq<NodeView>,
    node: int,
    state: VisualState,
    key: Seq<char>,
)
    requires
        0 <= node < nodes.len(),
    ensures
        ({
            let w = nodes[node];
            let vars = book.variables;
            let chain = doc_named(book, nodes, kind_of(w.name), state, Map::empty(), Seq::empty(), 0);
            let r = resolved(book, nodes, node, state);
            let no_block = forall|c: int|
                0 <= c < nodes.len() ==> !(block_applies(#[trigger] nodes[c], node as usize, state) && sets_key(
                    nodes[c],
                    key,
                ));
            &&& forall|c: int, q: int|
                0 <= c < nodes.len() && block_applies(#[trigger] nodes[c], node as usize, state) && 0 <= q
                    < nodes[c].properties.len() && applies(#[trigger] nodes[c].properties[q], false)
                    && nodes[c].properties[q].key == key && (forall|q2: int|
                    q < q2 < nodes[c].properties.len() ==> !(applies(#[trigger] nodes[c].properties[q2], false)
                        && nodes[c].properties[q2].key == key)) && (forall|c2: int|
                    c < c2 < nodes.len() ==> !(block_applies(#[trigger] nodes[c2], node as usize, state) && sets_key(
                        nodes[c2],
                        key,
                    ))) ==> r.contains_key(key) && r[key] == expand(vars, nodes[c].properties[q].value)
            &&& forall|q: int|
                no_block && 0 <= q < w.properties.len() && applies(#[trigger] w.properties[q], true)
                    && w.properties[q].key == key && (forall|q2: int|
                    q < q2 < w.properties.len() ==> !(applies(#[trigger] w.properties[q2], true)
                        && w.properties[q2].key == key)) ==> r.contains_key(key) && r[key] == expand(
                    vars,
                    w.properties[q].value,
                )
            &&& no_block && (forall|q: int|
                0 <= q < w.properties.len() ==> !(applies(#[trigger] w.properties[q], true) && w.properties[q].key
                    == key)) ==> r.contains_key(key) == chain.contains_key(key) && (chain.contains_key(key)
                ==> r[key] == chain[key])
        }),
{
    let w = nodes[node];
    let vars = book.variables;
    let chain = doc_named(book, nodes, kind_of(w.name), state, Map::empty(), Seq::empty(), 0);
    let m2 = props_from(vars, w.properties, 0, true, chain);
    law_properties_applied(vars, w.properties, 0, true, chain, key);
    law_state_blocks(vars, nodes, node as usize, state, 0, m2, key);
}

/// A style of the book, key by key: the last of its state rules that holds
/// and sets the key decides; failing that, its own properties; failing
/// that, its base style's chain (followed with the style marked as being
/// resolved, one level deeper). A style already being resolved, an unknown
/// style or a chain past the depth limit adds nothing.
pub proof fn law_book_style_layers(
    styles: Map<Seq<char>, StyleView>,
    name: Seq<char>,
    state: VisualState,
    out: Map<Seq<char>, Seq<char>>,
    visiting: Seq<Seq<char>>,
    depth: nat,
    key: Seq<char>,
)
    ensures
        !(depth < 64 && !visiting.contains(name) && styles.contains_key(name)) ==> book_named(
            styles,
            name,
            state,
            out,
            visiting,
            depth,
        ) == out,
        ({
            let st = styles[name];
            let r = book_named(styles, name, state, out, visiting, depth);
            let base = match st.base {
                Some(b) => book_named(styles, b, state, out, visiting.push(name), depth + 1),
                None => out,
            };
            let no_rule = forall|k: int|
                0 <= k < st.states.len() ==> !(conditions_hold((#[trigger] st.states[k]).conditions, state)
                    && st.states[k].properties.contains_key(key));
            depth < 64 && !visiting.contains(name) && styles.contains_key(name) ==> {
                &&& forall|k: int|
                    0 <= k < st.states.len() && conditions_hold((#[trigger] st.states[k]).conditions, state)
                        && st.states[k].properties.contains_key(key) && (forall|k2: int|
                        k < k2 < st.states.len() ==> !(conditions_hold((#[trigger] st.states[k2]).conditions, state)
                            && st.states[k2].properties.contains_key(key))) ==> r.contains_key(key) && r[key]
                        == st.states[k].properties[key]
                &&& no_rule && st.properties.contains_key(key) ==> r.contains_key(key) && r[key]
                    == st.properties[key]
                &&& no_rule && !st.properties.contains_key(key) ==> r.contains_key(key) == base.contains_key(key)
                    && (base.contains_key(key) ==> r[key] == base[key])
            }
        }),
{
    if depth < max_depth() && !visiting.contains(name) && styles.contains_key(name) {
        let st = styles[name];
        let o1 = match st.base {
            Some(b) => book_named(styles, b, state, out, visiting.push(name), depth + 1),
            None => out,
        };
        law_state_rules(st.states, state, 0, o1.union_prefer_right(st.properties), key);
    }
}

/// The style a document defines for a name: the first root node written
/// `name < Base`; none when no root node is.
pub proof fn law_document_definition(nodes: Seq<NodeView>, name: Seq<char>, j: int)
    requires
        0 <= j,
    ensures
        definition_from(nodes, name, j) matches Some(i) ==> j <= i < nodes.len() && nodes[i].parent is None
            && (split_at_char(nodes[i].name, '<') matches Some(parts) && trim(parts.0) == name) && forall|i2: int|
            j <= i2 < i ==> !(#[trigger] nodes[i2].parent is None && (split_at_char(nodes[i2].name, '<') matches Some(
                parts,
            ) && trim(parts.0) == name)),
        definition_from(nodes, name, j) is None ==> forall|i2: int|
            j <= i2 < nodes.len() ==> !(#[trigger] nodes[i2].parent is None && (split_at_char(
                nodes[i2].name,
                '<',
            ) matches Some(parts) && trim(parts.0) == name)),
    decreases nodes.len() - j,
{
    if j < nodes.len() {
        law_document_definition(nodes, name, j + 1);
    }
}

/// A style the document defines, key by key: the last of the definition's
/// state blocks that holds and sets the key decides; failing that, the
/// definition's own last property with the key; failing that, the chain of
/// the base written after `<`. A name the document does not define is
/// resolved from the book.
pub proof fn law_document_style_layers(
    book: StyleBookView,
    nodes: Seq<NodeView>,
    name: Seq<char>,
    state: VisualState,
    out: Map<Seq<char>, Seq<char>>,
    visiting: Seq<Seq<char>>,
    depth: nat,
    key: Seq<char>,
)
    requires
        depth < 64,
        !visiting.contains(document_tag(name)),
    ensures
        definition_from(nodes, name, 0) is None ==> doc_named(book, nodes, name, state, out, visiting, depth)
            == book_named(book.styles, name, state, out, visiting.push(document_tag(name)), depth),
        definition_from(nodes, name, 0) matches Some(idx) ==> ({
            let d = nodes[idx];
            let vars = book.variables;
            let r = doc_named(book, nodes, name, state, out, visiting, depth);
            let base_name = match split_at_char(d.name, '<') {
                Some(parts) => trim(parts.1),
                None => Seq::empty(),
            };
            let base = if base_name.len() > 0 {
                doc_named(book, nodes, base_name, state, out, visiting.push(document_tag(name)), depth + 1)
            } else {
                out
            };
            let no_block = forall|c: int|
                0 <= c < nodes.len() ==> !(block_applies(#[trigger] nodes[c], idx as usize, state) && sets_key(
                    nodes[c],
                    key,
                ));
            &&& forall|c: int, q: int|
                0 <= c < nodes.len() && block_applies(#[trigger] nodes[c], idx as usize, state) && 0 <= q
                    < nodes[c].properties.len() && applies(#[trigger] nodes[c].properties[q], false)
                    && nodes[c].properties[q].key == key && (forall|q2: int|
                    q < q2 < nodes[c].properties.len() ==> !(applies(#[trigger] nodes[c].properties[q2], false)
                        && nodes[c].properties[q2].key == key)) && (forall|c2: int|
                    c < c2 < nodes.len() ==> !(block_applies(#[trigger] nodes[c2], idx as usize, state) && sets_key(
                        nodes[c2],
                        key,
                    ))) ==> r.contains_key(key) && r[key] == expand(vars, nodes[c].properties[q].value)
            &&& forall|q: int|
                no_block && 0 <= q < d.properties.len() && applies(#[trigger] d.properties[q], false)
                    && d.properties[q].key == key && (forall|q2: int|
                    q < q2 < d.properties.len() ==> !(applies(#[trigger] d.properties[q2], false)
                        && d.properties[q2].key == key)) ==> r.contains_key(key) && r[key] == expand(
                    vars,
                    d.properties[q].value,
                )
            &&& no_block && (forall|q: int|
                0 <= q < d.properties.len() ==> !(applies(#[trigger] d.properties[q], false) && d.properties[q].key
                    == key)) ==> r.contains_key(key) == base.contains_key(key) && (base.contains_key(key)
                ==> r[key] == base[key])
        }),
{
    match definition_from(nodes, name, 0) {
        Some(idx) => {
            law_document_definition(nodes, name, 0);
            let d = nodes[idx];
            let vars = book.variables;
            let v2 = visiting.push(document_tag(name));
            let base_name = match split_at_char(d.name, '<') {
                Some(parts) => trim(parts.1),
                None => Seq::empty(),
            };
            let o1 = if base_name.len() > 0 {
                doc_named(book, nodes, base_name, state, out, v2, depth + 1)
            } else {
                out
            };
            let o2 = props_from(vars, d.properties, 0, false, o1);
            law_properties_applied(vars, d.properties, 0, false, o1, key);
            law_state_blocks(vars, nodes, idx as usize, state, 0, o2, key);
        },
        None => {},
    }
}

/// A state condition word: its name is lower-cased; written `!name` it asks
/// for the state to be off, and a leading `$` is dropped first (as the
/// header `$!name` still asks for `name`'s flag on, since only a leading
/// `!` negates).
pub proof fn law_condition_words(w: Seq<char>)
    ensures
        w.len() > 0 && w[0] != '$' && w[0] != '!' ==> condition_of(w) == (lower(w), true),
        w.len() > 0 && w[0] != '$' && w[0] != '!' ==> condition_of(seq!['!'] + w) == (lower(w), false),
        condition_of(seq!['$'] + w) == (condition_of(w).0, true),
{
    if w.len() > 0 && w[0] != '$' && w[0] != '!' {
        let nw = seq!['!'] + w;
        assert(strip_all(nw, '$') == nw);
        assert(nw.drop_first() =~= w);
        assert(strip_all(nw, '!') == strip_all(w, '!'));
    }
    let dw = seq!['$'] + w;
    assert(dw.drop_first() =~= w);
    assert(strip_all(dw, '$') == strip_all(w, '$'));
}

/// One substitution of a variable: the first `$` starts a reference that
/// runs up to (not including) the next white space, `,` or `)`, or to the
/// end; the reference `$name` reads the variable defined as `&name`, and
/// its text is replaced by the variable's value. Nothing is substituted
/// when there is no `$` or that variable is undefined.
pub proof fn law_variable_substitution(vars: Map<Seq<char>, Seq<char>>, s: Seq<char>)
    ensures
        expand_once(vars, s) matches Some(t) ==> exists|a: int, b: int|
            #![trigger s.subrange(a, b)]
            0 <= a < b <= s.len() && s[a] == '$' && (forall|j: int| 0 <= j < a ==> s[j] != '$') && (forall|j: int|
                a < j < b ==> !(is_ws(#[trigger] s[j]) || s[j] == ',' || s[j] == ')')) && (b == s.len() || is_ws(
                s[b],
            ) || s[b] == ',' || s[b] == ')') && vars.contains_key(seq!['&'] + s.subrange(a + 1, b)) && t
                == s.subrange(0, a) + vars[seq!['&'] + s.subrange(a + 1, b)] + s.subrange(b, s.len() as int),
        expand_once(vars, s) is None ==> (forall|j: int| 0 <= j < s.len() ==> s[j] != '$') || exists|a: int, b: int|
            #![trigger s.subrange(a, b)]
            0 <= a < b <= s.len() && s[a] == '$' && (forall|j: int| 0 <= j < a ==> s[j] != '$') && (forall|j: int|
                a < j < b ==> !(is_ws(#[trigger] s[j]) || s[j] == ',' || s[j] == ')')) && (b == s.len() || is_ws(
                s[b],
            ) || s[b] == ',' || s[b] == ')') && !vars.contains_key(seq!['&'] + s.subrange(a + 1, b)),
        expand(vars, s) == expand_n(vars, s, 8),
{
    lemma_find(s, '$');
    match find(s, '$') {
        Some(a) => {
            let r = s.subrange(a, s.len() as int);
            lemma_run_len(r);
            assert(r[0] == '$');
            let b = a + run_len(r);
            assert forall|j: int| a < j < b implies !(is_ws(#[trigger] s[j]) || s[j] == ',' || s[j] == ')') by {
                assert(s[j] == r[j - a]);
                assert(!is_stop(r[j - a]));
            }
            if b < s.len() {
                assert(s[b] == r[b - a]);
            }
            assert(variable_key(s.subrange(a, b)) =~= seq!['&'] + s.subrange(a + 1, b));
        },
        None => {},
    }
}

/// The states of the editor's state menu: `Normal` is the idle state;
/// `Hover`, `Pressionado`, `Desabilitado`, `Marcado`, `Ligado` and `Foco`
/// set the hover, pressed, disabled, checked, on and focus flag on top of
/// the pointer's hover and press flags; any other entry keeps just those.
pub proof fn law_state_menu(name: Seq<char>, hovered: bool, pressed: bool)
    ensures
        visual_state_of("Normal"@, hovered, pressed) == idle_state(),
        visual_state_of("Hover"@, hovered, pressed) == (VisualState { hovered: true, pressed, ..idle_state() }),
        visual_state_of("Pressionado"@, hovered, pressed) == (VisualState { hovered, pressed: true, ..idle_state() }),
        visual_state_of("Desabilitado"@, hovered, pressed) == (VisualState { hovered, pressed, disabled: true, ..idle_state() }),
        visual_state_of("Marcado"@, hovered, pressed) == (VisualState { hovered, pressed, checked: true, ..idle_state() }),
        visual_state_of("Ligado"@, hovered, pressed) == (VisualState { hovered, pressed, on: true, ..idle_state() }),
        visual_state_of("Foco"@, hovered, pressed) == (VisualState { hovered, pressed, focused: true, ..idle_state() }),
        name != "Normal"@ && name != "Hover"@ && name != "Pressionado"@ && name != "Desabilitado"@ && name
            != "Marcado"@ && name != "Ligado"@ && name != "Foco"@ ==> visual_state_of(name, hovered, pressed)
            == (VisualState { hovered, pressed, ..idle_state() }),
{
    reveal_strlit("Normal");
    reveal_strlit("Hover");
    reveal_strlit("Pressionado");
    reveal_strlit("Desabilitado");
    reveal_strlit("Marcado");
    reveal_strlit("Ligado");
    reveal_strlit("Foco");
    assert("Normal"@.len() != "Hover"@.len());
    assert("Normal"@.len() != "Pressionado"@.len());
    assert("Normal"@.len() != "Desabilitado"@.len());
    assert("Normal"@.len() != "Marcado"@.len());
    assert("Normal"@[0] != "Ligado"@[0]);
    assert("Normal"@.len() != "Foco"@.len());
    assert("Hover"@.len() != "Pressionado"@.len());
    assert("Hover"@.len() != "Desabilitado"@.len());
    assert("Hover"@.len() != "Marcado"@.len());
    assert("Hover"@.len() != "Ligado"@.len());
    assert("Hover"@.len() != "Foco"@.len());
    assert("Pressionado"@.len() != "Desabilitado"@.len());
    assert("Pressionado"@.len() != "Marcado"@.len());
    assert("Pressionado"@.len() != "Ligado"@.len());
    assert("Pressionado"@.len() != "Foco"@.len());
    assert("Desabilitado"@.len() != "Marcado"@.len());
    assert("Desabilitado"@.len() != "Ligado"@.len());
    assert("Desabilitado"@.len() != "Foco"@.len());
    assert("Marcado"@.len() != "Ligado"@.len());
    assert("Marcado"@.len() != "Foco"@.len());
    assert("Ligado"@.len() != "Foco"@.len());
}

/// The indentation of a style-sheet line is its run of leading spaces.
pub proof fn law_leading_spaces(s: Seq<char>)
    ensures
        lead(s) <= s.len(),
        forall|j: int| 0 <= j < lead(s) ==> #[trigger] s[j] == ' ',
        lead(s) < s.len() ==> s[lead(s) as int] != ' ',
    decreases s.len(),
{
    if s.len() > 0 && s[0] == ' ' {
        law_leading_spaces(s.drop_first());
        assert forall|j: int| 0 <= j < lead(s) implies #[trigger] s[j] == ' ' by {
            if j > 0 {
                assert(s[j] == s.drop_first()[j - 1]);
            }
        }
        if lead(s) < s.len() {
            assert(s[lead(s) as int] == s.drop_first()[lead(s) - 1]);
        }
    }
}

/// A `key: value` text splits at its first `:`, both sides trimmed; a text
/// without `:` is no entry.
pub proof fn law_entry(t: Seq<char>)
    ensures
        entry_of(t) matches Some(kv) ==> exists|c: int|
            #![trigger t.subrange(0, c)]
            0 <= c < t.len() && t[c] == ':' && (forall|j: int| 0 <= j < c ==> t[j] != ':') && kv.0 == trim(
                t.subrange(0, c),
            ) && kv.1 == trim(t.subrange(c + 1, t.len() as int)),
        entry_of(t) is None ==> !t.contains(':'),
{
    lemma_find(t, ':');
}

/// The two ways a style's body moves on from line `k`: a `$…:` header
/// indented by two spaces starts a state rule, whose conditions are those
/// of the header without its `:`, and which takes the lines after it up to
/// the next one indented by two spaces or less; another line indented by
/// two spaces sets its entry, the value expanded; any other line is
/// skipped. The base never changes.
pub proof fn law_style_body_step(lines: Seq<Seq<char>>, k: int, vars: Map<Seq<char>, Seq<char>>, st: StyleView)
    requires
        0 <= k < lines.len(),
    ensures
        ({
            let line = lines[k];
            let v = trim(line);
            let r = body_step(lines, k, vars, st);
            let header = lead(line) == 2 && v.len() > 0 && v[0] == '$' && v.last() == ':';
            &&& r.1.base == st.base
            &&& header ==> k < r.0 <= lines.len() && (forall|m: int| k < m < r.0 ==> lead(#[trigger] lines[m]) > 2)
                && (r.0 < lines.len() ==> lead(lines[r.0]) <= 2) && r.1.properties == st.properties
                && r.1.states.len() == st.states.len() + 1 && r.1.states.drop_last() == st.states
                && r.1.states.last().conditions == conditions_of(v.drop_last())
            &&& !header && lead(line) == 2 ==> r.0 == k + 1 && r.1.states == st.states && r.1.properties == (
            match entry_of(v) {
                Some(kv) => st.properties.insert(kv.0, expand(vars, kv.1)),
                None => st.properties,
            })
            &&& !header && lead(line) != 2 ==> r == (k + 1, st)
        }),
{
    lemma_rule_end(lines, k + 1);
    let line = lines[k];
    if is_rule_header(line) {
        let r = body_step(lines, k, vars, st);
        assert(r.1.states.drop_last() =~= st.states);
    }
}

/// A style body keeps the base it starts with.
pub proof fn law_style_body_base(lines: Seq<Seq<char>>, k: int, end: int, vars: Map<Seq<char>, Seq<char>>, st: StyleView)
    ensures
        style_body(lines, k, end, vars, st).base == st.base,
    decreases lines.len() - k,
{
    if 0 <= k < end && end <= lines.len() {
        let next = body_step(lines, k, vars, st);
        lemma_body_step(lines, k, vars, st);
        law_style_body_step(lines, k, vars, st);
        law_style_body_base(lines, next.0, end, vars, next.1);
    }
}

/// What each top-level line of a style sheet does: at column 0, `&name:
/// value` defines the variable `&name` (value as written, trimmed); a
/// blank, indented or `//` line does nothing; `Name < Base` with a
/// non-empty name defines the style `Name`, based on the trimmed `Base`
/// (none when blank), with the body of the lines after it up to the next
/// non-blank line at column 0; any other line does nothing.
pub proof fn law_sheet_line(
    lines: Seq<Seq<char>>,
    i: int,
    vars: Map<Seq<char>, Seq<char>>,
    styles: Map<Seq<char>, StyleView>,
)
    requires
        0 <= i < lines.len(),
    ensures
        ({
            let raw = lines[i];
            let t = trim(raw);
            let r = parse_step(lines, i, vars, styles);
            let variable = lead(raw) == 0 && t.len() > 0 && t[0] == '&';
            let skipped = lead(raw) != 0 || t.len() == 0 || (t.len() >= 2 && t[0] == '/' && t[1] == '/');
            &&& variable ==> r.0 == i + 1 && r.2 == styles && r.1 == (match entry_of(t) {
                Some(kv) => vars.insert(kv.0, kv.1),
                None => vars,
            })
            &&& !variable && skipped ==> r == (i + 1, vars, styles)
            &&& !variable && !skipped && !t.contains('<') ==> r == (i + 1, vars, styles)
            &&& forall|c: int|
                !variable && !skipped && 0 <= c < t.len() && #[trigger] t[c] == '<' && (forall|j: int|
                    0 <= j < c ==> t[j] != '<') ==> (trim(t.subrange(0, c)).len() == 0 ==> r == (i + 1, vars, styles))
                    && (trim(t.subrange(0, c)).len() > 0 ==> ({
                    let name = trim(t.subrange(0, c));
                    let base = trim(t.subrange(c + 1, t.len() as int));
                    &&& r.1 == vars
                    &&& i < r.0 <= lines.len()
                    &&& forall|m: int| i < m < r.0 ==> trim(#[trigger] lines[m]).len() == 0 || lead(lines[m]) > 0
                    &&& r.0 < lines.len() ==> trim(lines[r.0]).len() > 0 && lead(lines[r.0]) == 0
                    &&& r.2.dom() == styles.dom().insert(name)
                    &&& forall|o: Seq<char>| #[trigger] styles.contains_key(o) && o != name ==> r.2[o] == styles[o]
                    &&& r.2[name].base == (if base.len() == 0 {
                        None::<Seq<char>>
                    } else {
                        Some(base)
                    })
                }))
        }),
{
    let raw = lines[i];
    let t = trim(raw);
    lemma_find(t, '<');
    lemma_body_end(lines, i + 1);
    match split_at_char(t, '<') {
        Some(parts) => {
            let end = body_end(lines, i + 1);
            law_style_body_base(lines, i + 1, end, vars, new_style(trim(parts.1)));
            assert(styles.insert(trim(parts.0), style_body(lines, i + 1, end, vars, new_style(trim(parts.1)))).dom()
                =~= styles.dom().insert(trim(parts.0)));
        },
        None => {},
    }
}

} // verus!
