//! The OTUI document: the file kept as its exact bytes, split into lines with
//! their terminators, plus an index of widgets and properties rebuilt after
//! each change. Edits touch only the bytes they change.

use vstd::prelude::*;
use vstd::utf8::*;
use vstd::slice::{slice_subrange, slice_to_vec};

use crate::utf8_text::{ascii_chars, lemma_absent_ascii, lemma_ascii_prefix, lemma_ascii_valid, lemma_decode_concat};

use crate::codec::{
    sniffed_bom, ascii_from, chars_of, string_of, utf8_lossy_chars, utf8_lossy_decoded, utf8_valid,
    windows_1252_chars, windows_1252_decoded, windows_1252_encode, windows_1252_encoded,
};
use crate::text::{
    is_ws, lemma_colon_text, lemma_ws_prefix_exact, lemma_ws_suffix_exact,
    same_chars, contains_char, contains_infix, has_infix, decimal, find, find_char, lemma_find, lemma_trim, push_decimal, starts_with, trim, trim_bounds, trimmed,
    ws_prefix,
};

verus! {

/// Largest document accepted, in bytes (8 MiB).
pub const MAX_BYTES: usize = 8 * 1024 * 1024;

#[verifier::external_type_specification]
#[verifier::external_body]
pub struct ExPathBuf(std::path::PathBuf);

/// A `key: value` entry of a node.
#[derive(Clone, Debug)]
pub struct Property {
    pub line: usize,
    pub key: String,
    pub value: String,
    pub block: bool,
}

/// A widget (or a state/sub-block such as `$hover:` or `layout:`).
#[derive(Clone, Debug)]
pub struct Node {
    pub line: usize,
    pub end: usize,
    pub parent: Option<usize>,
    pub indent: usize,
    pub name: String,
    pub widget: bool,
    pub properties: Vec<Property>,
}

/// One line: its bytes and its terminator (`""`, `"\n"` or `"\r\n"`).
struct Line {
    body: Vec<u8>,
    eol: Vec<u8>,
}

/// A loaded document.
pub struct Document {
    lines: Vec<Line>,
    bom: bool,
    utf8: bool,
    pub nodes: Vec<Node>,
    pub issues: Vec<String>,
    pub path: Option<std::path::PathBuf>,
    saved: Vec<u8>,
    pub is_otui: bool,
}

/// What a property holds, with its texts as characters.
pub struct PropertyView {
    pub line: usize,
    pub key: Seq<char>,
    pub value: Seq<char>,
    pub block: bool,
}

/// What a node holds, with its texts as characters.
pub struct NodeView {
    pub line: usize,
    pub end: usize,
    pub parent: Option<usize>,
    pub indent: usize,
    pub name: Seq<char>,
    pub widget: bool,
    pub properties: Seq<PropertyView>,
}

/// A line's bytes and its terminator.
pub struct LineView {
    pub body: Seq<u8>,
    pub eol: Seq<u8>,
}

/// The mathematical content of a [`Document`] (its path left aside).
pub struct DocumentView {
    pub lines: Seq<LineView>,
    pub bom: bool,
    pub utf8: bool,
    pub nodes: Seq<NodeView>,
    pub issues: Seq<Seq<char>>,
    pub saved: Seq<u8>,
    pub is_otui: bool,
}

impl View for Property {
    type V = PropertyView;

    open spec fn view(&self) -> PropertyView {
        PropertyView { line: self.line, key: self.key@, value: self.value@, block: self.block }
    }
}

/// The views of a sequence of properties.
pub open spec fn prop_views(s: Seq<Property>) -> Seq<PropertyView> {
    s.map_values(|p: Property| p@)
}

impl View for Node {
    type V = NodeView;

    open spec fn view(&self) -> NodeView {
        NodeView {
            line: self.line,
            end: self.end,
            parent: self.parent,
            indent: self.indent,
            name: self.name@,
            widget: self.widget,
            properties: prop_views(self.properties@),
        }
    }
}

impl View for Line {
    type V = LineView;

    closed spec fn view(&self) -> LineView {
        LineView { body: self.body@, eol: self.eol@ }
    }
}

impl View for Document {
    type V = DocumentView;

    closed spec fn view(&self) -> DocumentView {
        DocumentView {
            lines: self.lines@.map_values(|l: Line| l@),
            bom: self.bom,
            utf8: self.utf8,
            nodes: self.nodes@.map_values(|n: Node| n@),
            issues: self.issues@.map_values(|s: String| s@),
            saved: self.saved@,
            is_otui: self.is_otui,
        }
    }
}

/// The UTF-8 byte order mark.
pub open spec fn bom_bytes() -> Seq<u8> {
    seq![0xefu8, 0xbbu8, 0xbfu8]
}

/// Whether `b` starts with the UTF-8 byte order mark.
pub open spec fn has_bom(b: Seq<u8>) -> bool {
    b.len() >= 3 && b.subrange(0, 3) == bom_bytes()
}

/// The bytes of the lines, each body followed by its terminator.
pub open spec fn lines_bytes(ls: Seq<LineView>) -> Seq<u8>
    decreases ls.len(),
{
    if ls.len() == 0 {
        Seq::empty()
    } else {
        ls[0].body + ls[0].eol + lines_bytes(ls.drop_first())
    }
}

/// The bytes of the document: the BOM if it had one, then the lines.
pub open spec fn content(v: DocumentView) -> Seq<u8> {
    (if v.bom {
        bom_bytes()
    } else {
        Seq::empty()
    }) + lines_bytes(v.lines)
}

/// Index of the first `\n` in `d`, or its length.
pub open spec fn newline_at(d: Seq<u8>) -> nat
    decreases d.len(),
{
    if d.len() == 0 || d[0] == 10 {
        0
    } else {
        1 + newline_at(d.drop_first())
    }
}

/// Length of the first piece of `d` when it is split after each `\n`.
pub open spec fn piece_len(d: Seq<u8>) -> int {
    if newline_at(d) < d.len() {
        (newline_at(d) + 1) as int
    } else {
        d.len() as int
    }
}

/// A piece split off after a `\n` (or the last piece), as a line.
pub open spec fn line_of(p: Seq<u8>) -> LineView {
    if p.len() >= 2 && p[p.len() - 2] == 13 && p[p.len() - 1] == 10 {
        LineView { body: p.subrange(0, p.len() - 2), eol: seq![13u8, 10u8] }
    } else if p.len() >= 1 && p[p.len() - 1] == 10 {
        LineView { body: p.subrange(0, p.len() - 1), eol: seq![10u8] }
    } else {
        LineView { body: p, eol: Seq::empty() }
    }
}

/// `d` split into lines after each `\n`, as `split_inclusive` does.
pub open spec fn split_lines(d: Seq<u8>) -> Seq<LineView>
    decreases d.len(),
{
    if d.len() == 0 {
        Seq::empty()
    } else {
        let k = piece_len(d);
        seq![line_of(d.subrange(0, k))] + split_lines(d.subrange(k, d.len() as int))
    }
}

/// Every line holds at least one byte.
pub open spec fn lines_nonempty(ls: Seq<LineView>) -> bool {
    forall|i: int| 0 <= i < ls.len() ==> (#[trigger] ls[i]).body.len() + ls[i].eol.len() > 0
}

pub proof fn lemma_newline_at(d: Seq<u8>)
    ensures
        newline_at(d) <= d.len(),
        forall|j: int| 0 <= j < newline_at(d) ==> #[trigger] d[j] != 10,
        newline_at(d) < d.len() ==> d[newline_at(d) as int] == 10,
    decreases d.len(),
{
    if d.len() > 0 && d[0] != 10 {
        lemma_newline_at(d.drop_first());
        assert forall|j: int| 0 <= j < newline_at(d) implies #[trigger] d[j] != 10 by {
            if j > 0 {
                assert(d[j] == d.drop_first()[j - 1]);
            }
        }
    }
}

proof fn lemma_newline_at_exact(d: Seq<u8>, k: nat)
    requires
        k <= d.len(),
        forall|j: int| 0 <= j < k ==> #[trigger] d[j] != 10,
        k < d.len() ==> d[k as int] == 10,
    ensures
        newline_at(d) == k,
    decreases k,
{
    if k > 0 {
        assert(d[0] != 10);
        assert forall|j: int| 0 <= j < k - 1 implies #[trigger] d.drop_first()[j] != 10 by {
            assert(d.drop_first()[j] == d[j + 1]);
        }
        if k - 1 < d.drop_first().len() {
            assert(d.drop_first()[k - 1] == d[k as int]);
        }
        lemma_newline_at_exact(d.drop_first(), (k - 1) as nat);
    }
}

pub proof fn lemma_line_of(p: Seq<u8>)
    requires
        p.len() > 0,
    ensures
        line_of(p).body + line_of(p).eol == p,
        line_of(p).body.len() + line_of(p).eol.len() > 0,
{
    let l = line_of(p);
    assert(l.body + l.eol =~= p);
}

pub proof fn lemma_split_lines(d: Seq<u8>)
    ensures
        lines_bytes(split_lines(d)) == d,
        lines_nonempty(split_lines(d)),
    decreases d.len(),
{
    if d.len() > 0 {
        lemma_newline_at(d);
        let k = piece_len(d);
        let rest = d.subrange(k, d.len() as int);
        lemma_split_lines(rest);
        lemma_line_of(d.subrange(0, k));
        let ls = split_lines(d);
        assert(ls.drop_first() =~= split_lines(rest));
        assert(d =~= d.subrange(0, k) + rest);
        assert(lines_bytes(ls) =~= d);
        assert forall|i: int| 0 <= i < ls.len() implies (#[trigger] ls[i]).body.len()
            + ls[i].eol.len() > 0 by {
            if i > 0 {
                assert(ls[i] == split_lines(rest)[i - 1]);
            }
        }
    }
}

pub proof fn lemma_lines_bytes_concat(a: Seq<LineView>, b: Seq<LineView>)
    ensures
        lines_bytes(a + b) == lines_bytes(a) + lines_bytes(b),
    decreases a.len(),
{
    if a.len() == 0 {
        assert(a + b =~= b);
        assert(lines_bytes(a) + lines_bytes(b) =~= lines_bytes(b));
    } else {
        lemma_lines_bytes_concat(a.drop_first(), b);
        assert((a + b).drop_first() =~= a.drop_first() + b);
        assert(lines_bytes(a + b) =~= lines_bytes(a) + lines_bytes(b));
    }
}

pub proof fn lemma_lines_bytes_one(l: LineView)
    ensures
        lines_bytes(seq![l]) == l.body + l.eol,
{
    assert(seq![l].drop_first() =~= Seq::<LineView>::empty());
    assert(lines_bytes(seq![l].drop_first()) == Seq::<u8>::empty());
    assert(lines_bytes(seq![l]) =~= l.body + l.eol);
}

/// Index of the first `\n` at or after `from`, or the length.
fn next_newline(d: &[u8], from: usize) -> (r: usize)
    requires
        from <= d@.len(),
    ensures
        r == from + newline_at(d@.subrange(from as int, d@.len() as int)),
        r <= d@.len(),
{
    let ghost s = d@.subrange(from as int, d@.len() as int);
    let mut i = from;
    while i < d.len() && d[i] != 10
        invariant
            from <= i <= d@.len(),
            forall|j: int| from <= j < i ==> d@[j] != 10,
        decreases d.len() - i,
    {
        i = i + 1;
    }
    proof {
        assert forall|j: int| 0 <= j < i - from implies #[trigger] s[j] != 10 by {
            assert(s[j] == d@[from + j]);
        }
        if i < d@.len() {
            assert(s[i - from] == d@[i as int]);
        }
        lemma_newline_at_exact(s, (i - from) as nat);
    }
    i
}

/// Splits `d` into lines.
fn split_into_lines(d: &[u8]) -> (r: Vec<Line>)
    ensures
        r@.map_values(|l: Line| l@) == split_lines(d@),
{
    let mut lines: Vec<Line> = Vec::new();
    let mut pos: usize = 0;
    proof {
        assert(d@.subrange(0, d@.len() as int) =~= d@);
        assert(lines@.map_values(|l: Line| l@) =~= Seq::<LineView>::empty());
        assert(Seq::<LineView>::empty() + split_lines(d@) =~= split_lines(d@));
    }
    while pos < d.len()
        invariant
            pos <= d@.len(),
            lines@.map_values(|l: Line| l@) + split_lines(d@.subrange(pos as int, d@.len() as int))
                == split_lines(d@),
        decreases d.len() - pos,
    {
        let ghost rest = d@.subrange(pos as int, d@.len() as int);
        let nl = next_newline(d, pos);
        let end = if nl < d.len() {
            nl + 1
        } else {
            nl
        };
        proof {
            lemma_newline_at(rest);
            assert(end - pos == piece_len(rest));
        }
        let piece = slice_subrange(d, pos, end);
        let n = piece.len();
        let line = if n >= 2 && piece[n - 2] == 13 && piece[n - 1] == 10 {
            Line { body: slice_to_vec(slice_subrange(piece, 0, n - 2)), eol: vec![13u8, 10u8] }
        } else if n >= 1 && piece[n - 1] == 10 {
            Line { body: slice_to_vec(slice_subrange(piece, 0, n - 1)), eol: vec![10u8] }
        } else {
            Line { body: slice_to_vec(piece), eol: Vec::new() }
        };
        proof {
            assert(piece@ == rest.subrange(0, piece_len(rest)));
            assert(line@.body =~= line_of(piece@).body);
            assert(line@.eol =~= line_of(piece@).eol);
            assert(rest.subrange(piece_len(rest), rest.len() as int) =~= d@.subrange(
                end as int,
                d@.len() as int,
            ));
        }
        let ghost before = lines@.map_values(|l: Line| l@);
        lines.push(line);
        pos = end;
        proof {
            assert(lines@.map_values(|l: Line| l@) =~= before.push(line_of(piece@)));
            assert(split_lines(rest) == seq![line_of(piece@)] + split_lines(
                d@.subrange(pos as int, d@.len() as int),
            ));
            assert(lines@.map_values(|l: Line| l@) + split_lines(
                d@.subrange(pos as int, d@.len() as int),
            ) =~= before + split_lines(rest));
        }
    }
    proof {
        assert(d@.subrange(pos as int, d@.len() as int) =~= Seq::<u8>::empty());
        assert(lines@.map_values(|l: Line| l@) + Seq::<LineView>::empty() =~= lines@.map_values(
            |l: Line| l@,
        ));
    }
    lines
}


/// Number of leading spaces (byte 0x20) of `b`.
pub open spec fn lead_spaces(b: Seq<u8>) -> nat
    decreases b.len(),
{
    if b.len() > 0 && b[0] == 32 {
        1 + lead_spaces(b.drop_first())
    } else {
        0
    }
}

pub proof fn lemma_lead_spaces(b: Seq<u8>)
    ensures
        lead_spaces(b) <= b.len(),
        forall|j: int| 0 <= j < lead_spaces(b) ==> #[trigger] b[j] == 32,
        lead_spaces(b) < b.len() ==> b[lead_spaces(b) as int] != 32,
    decreases b.len(),
{
    if b.len() > 0 && b[0] == 32 {
        lemma_lead_spaces(b.drop_first());
        assert forall|j: int| 0 <= j < lead_spaces(b) implies #[trigger] b[j] == 32 by {
            if j > 0 {
                assert(b[j] == b.drop_first()[j - 1]);
            }
        }
    }
}

proof fn lemma_lead_spaces_exact(b: Seq<u8>, k: nat)
    requires
        k <= b.len(),
        forall|j: int| 0 <= j < k ==> #[trigger] b[j] == 32,
        k < b.len() ==> b[k as int] != 32,
    ensures
        lead_spaces(b) == k,
    decreases k,
{
    if k > 0 {
        assert(b[0] == 32);
        assert forall|j: int| 0 <= j < k - 1 implies #[trigger] b.drop_first()[j] == 32 by {
            assert(b.drop_first()[j] == b[j + 1]);
        }
        if k - 1 < b.drop_first().len() {
            assert(b.drop_first()[k - 1] == b[k as int]);
        }
        lemma_lead_spaces_exact(b.drop_first(), (k - 1) as nat);
    }
}

fn count_lead_spaces(b: &[u8]) -> (r: usize)
    ensures
        r == lead_spaces(b@),
        r <= b@.len(),
{
    let mut i: usize = 0;
    while i < b.len() && b[i] == 32
        invariant
            i <= b@.len(),
            forall|j: int| 0 <= j < i ==> #[trigger] b@[j] == 32,
        decreases b.len() - i,
    {
        i = i + 1;
    }
    proof {
        lemma_lead_spaces_exact(b@, i as nat);
    }
    i
}

/// The text of a line body, decoded as the document's encoding.
pub open spec fn line_text(body: Seq<u8>, utf8: bool) -> Seq<char> {
    if utf8 {
        if valid_utf8(body) {
            decode_utf8(body)
        } else {
            utf8_lossy_decoded(body)
        }
    } else {
        windows_1252_decoded(body)
    }
}

fn decode_line(body: &[u8], utf8: bool) -> (r: Vec<char>)
    ensures
        r@ == line_text(body@, utf8),
        ascii_from(r@, body@),
        utf8 && valid_utf8(body@) ==> encode_utf8(r@) == body@,
        !utf8 && !sniffed_bom(body@) ==> windows_1252_encoded(r@) == (body@, false),
{
    proof {
        if utf8 && valid_utf8(body@) {
            decode_utf8_encode_utf8(body@);
        }
    }
    if utf8 {
        utf8_lossy_chars(body)
    } else {
        windows_1252_chars(body)
    }
}

/// A trimmed line that the index skips: empty, `#…` or `//…`.
pub open spec fn is_comment(t: Seq<char>) -> bool {
    t.len() == 0 || t[0] == '#' || (t.len() >= 2 && t[0] == '/' && t[1] == '/')
}

fn comment_line(t: &[char]) -> (r: bool)
    ensures
        r == is_comment(t@),
{
    t.len() == 0 || t[0] == '#' || (t.len() >= 2 && t[0] == '/' && t[1] == '/')
}

/// A property value that opens a multi-line block.
pub open spec fn is_block_marker(v: Seq<char>) -> bool {
    v == seq!['|'] || v == seq!['|', '-'] || v == seq!['|', '+']
}

fn block_marker(v: &[char]) -> (r: bool)
    ensures
        r == is_block_marker(v@),
{
    let r = (v.len() == 1 && v[0] == '|') || (v.len() == 2 && v[0] == '|' && (v[1] == '-' || v[1]
        == '+'));
    proof {
        if v@.len() == 1 {
            assert(r ==> v@ =~= seq!['|']);
        } else if v@.len() == 2 {
            assert(r && v@[1] == '-' ==> v@ =~= seq!['|', '-']);
            assert(r && v@[1] == '+' ==> v@ =~= seq!['|', '+']);
        }
    }
    r
}

/// The issue reported for a tab in the indentation of line `i` (0-based).
pub open spec fn tab_issue(i: nat) -> Seq<char> {
    "Linha "@ + decimal(i + 1) + ": tabulação na indentação; edição estrutural bloqueada."@
}

/// The issue reported for a property without an enclosing node at line `i`.
pub open spec fn orphan_issue(i: nat) -> Seq<char> {
    "Linha "@ + decimal(i + 1) + ": propriedade sem pai."@
}

fn line_issue(i: usize, tab: bool) -> (r: String)
    requires
        i < usize::MAX,
    ensures
        r@ == if tab {
            tab_issue(i as nat)
        } else {
            orphan_issue(i as nat)
        },
{
    let mut v = chars_of("Linha ");
    push_decimal(&mut v, (i + 1) as u64);
    let tail = if tab {
        chars_of(": tabulação na indentação; edição estrutural bloqueada.")
    } else {
        chars_of(": propriedade sem pai.")
    };
    let mut k: usize = 0;
    let ghost start = v@;
    while k < tail.len()
        invariant
            k <= tail@.len(),
            v@ == start + tail@.subrange(0, k as int),
        decreases tail.len() - k,
    {
        v.push(tail[k]);
        k = k + 1;
        proof {
            assert(tail@.subrange(0, k as int) =~= tail@.subrange(0, (k - 1) as int).push(
                tail@[k - 1],
            ));
        }
    }
    proof {
        assert(tail@.subrange(0, tail@.len() as int) =~= tail@);
    }
    string_of(&v)
}

/// The state of the line-by-line indexer.
pub struct IndexState {
    pub nodes: Seq<NodeView>,
    pub issues: Seq<Seq<char>>,
    pub stack: Seq<usize>,
    pub block: Option<usize>,
}

/// Ends at line `i` every open node indented at least `indent`.
pub open spec fn close_nodes(nodes: Seq<NodeView>, stack: Seq<usize>, indent: usize, i: usize) -> (
    Seq<NodeView>,
    Seq<usize>,
)
    decreases stack.len(),
{
    if stack.len() > 0 && nodes[stack.last() as int].indent >= indent {
        let n = stack.last() as int;
        close_nodes(
            nodes.update(n, NodeView { end: i, ..nodes[n] }),
            stack.drop_last(),
            indent,
            i,
        )
    } else {
        (nodes, stack)
    }
}

/// One step of the indexer over line `i` of a document of `n_lines` lines.
pub open spec fn index_step(
    st: IndexState,
    i: usize,
    body: Seq<u8>,
    utf8: bool,
    n_lines: usize,
) -> IndexState {
    let text = trim(line_text(body, utf8));
    let indent = lead_spaces(body) as usize;
    if is_comment(text) {
        st
    } else if st.block is Some && indent > st.block->0 {
        st
    } else {
        let issues = if indent < body.len() && body[indent as int] == 9 {
            st.issues.push(tab_issue(i as nat))
        } else {
            st.issues
        };
        let closed = close_nodes(st.nodes, st.stack, indent, i);
        index_entry(closed.0, closed.1, issues, i, text, indent, n_lines)
    }
}

/// The node or property that a non-comment line adds, once the open nodes
/// it closes are closed.
pub open spec fn index_entry(
    nodes: Seq<NodeView>,
    stack: Seq<usize>,
    issues: Seq<Seq<char>>,
    i: usize,
    text: Seq<char>,
    indent: usize,
    n_lines: usize,
) -> IndexState {
    match find(text, ':') {
        Some(c) => if stack.len() == 0 {
            IndexState { nodes, issues: issues.push(orphan_issue(i as nat)), stack, block: None }
        } else {
            let parent = stack.last() as int;
            let key = trim(text.subrange(0, c));
            let val = trim(text.subrange(c + 1, text.len() as int));
            let multi = is_block_marker(val);
            let prop = PropertyView { line: i, key, value: val, block: multi || val.len() == 0 };
            let nodes2 = nodes.update(
                parent,
                NodeView { properties: nodes[parent].properties.push(prop), ..nodes[parent] },
            );
            if multi {
                IndexState { nodes: nodes2, issues, stack, block: Some(indent) }
            } else if val.len() == 0 {
                IndexState {
                    nodes: nodes2.push(
                        NodeView {
                            line: i,
                            end: n_lines,
                            parent: Some(parent as usize),
                            indent,
                            name: key,
                            widget: false,
                            properties: Seq::empty(),
                        },
                    ),
                    issues,
                    stack: stack.push(nodes2.len() as usize),
                    block: None,
                }
            } else {
                IndexState { nodes: nodes2, issues, stack, block: None }
            }
        },
        None => IndexState {
            nodes: nodes.push(
                NodeView {
                    line: i,
                    end: n_lines,
                    parent: if stack.len() > 0 {
                        Some(stack.last())
                    } else {
                        None
                    },
                    indent,
                    name: text,
                    widget: text[0] != '$',
                    properties: Seq::empty(),
                },
            ),
            issues,
            stack: stack.push(nodes.len() as usize),
            block: None,
        },
    }
}

/// The indexer's state before the first line.
pub open spec fn index_start() -> IndexState {
    IndexState { nodes: Seq::empty(), issues: Seq::empty(), stack: Seq::empty(), block: None }
}

/// The indexer's state after the first `k` lines.
pub open spec fn index_upto(lines: Seq<LineView>, utf8: bool, k: nat) -> IndexState
    decreases k,
{
    if k == 0 {
        index_start()
    } else {
        index_step(
            index_upto(lines, utf8, (k - 1) as nat),
            (k - 1) as usize,
            lines[k - 1].body,
            utf8,
            lines.len() as usize,
        )
    }
}

/// The nodes and issues of the lines (none unless the document is OTUI).
pub open spec fn spec_index(lines: Seq<LineView>, utf8: bool, is_otui: bool) -> IndexState {
    if is_otui {
        index_upto(lines, utf8, lines.len())
    } else {
        index_start()
    }
}


/// A node produced from the first `k` lines is well placed.
pub open spec fn node_ok(n: NodeView, j: int, lines: Seq<LineView>, k: nat) -> bool {
    &&& n.line < k
    &&& n.line < n.end
    &&& n.end <= lines.len()
    &&& (n.parent matches Some(p) ==> p < j)
    &&& n.indent == lead_spaces(lines[n.line as int].body)
    &&& forall|q: int| 0 <= q < n.properties.len() ==> (#[trigger] n.properties[q]).line < k
}

/// The open-node stack refers to existing nodes.
pub open spec fn stack_ok(nodes: Seq<NodeView>, stack: Seq<usize>) -> bool {
    forall|s: int| 0 <= s < stack.len() ==> (#[trigger] stack[s]) < nodes.len()
}

/// Every node produced from the first `k` lines is well placed.
pub open spec fn nodes_ok(nodes: Seq<NodeView>, lines: Seq<LineView>, k: nat) -> bool {
    forall|j: int| 0 <= j < nodes.len() ==> node_ok(#[trigger] nodes[j], j, lines, k)
}

/// The indexer's state after `k` lines is well placed.
pub open spec fn state_ok(st: IndexState, lines: Seq<LineView>, k: nat) -> bool {
    stack_ok(st.nodes, st.stack) && nodes_ok(st.nodes, lines, k) && st.nodes.len() <= k
}

/// No line body is longer than a `usize` can count.
pub open spec fn bodies_fit(lines: Seq<LineView>) -> bool {
    forall|i: int| 0 <= i < lines.len() ==> (#[trigger] lines[i]).body.len() <= usize::MAX
}

proof fn lemma_close_nodes(
    nodes: Seq<NodeView>,
    stack: Seq<usize>,
    indent: usize,
    i: usize,
    lines: Seq<LineView>,
)
    requires
        i < lines.len(),
        stack_ok(nodes, stack),
        nodes_ok(nodes, lines, i as nat),
    ensures
        ({
            let r = close_nodes(nodes, stack, indent, i);
            &&& r.0.len() == nodes.len()
            &&& stack_ok(r.0, r.1)
            &&& nodes_ok(r.0, lines, i as nat)
            &&& r.1.len() <= stack.len()
            &&& forall|s: int| 0 <= s < r.1.len() ==> r.1[s] == stack[s]
            &&& (r.1.len() > 0 ==> r.0[r.1.last() as int].indent < indent)
            &&& forall|j: int| 0 <= j < nodes.len() ==> (#[trigger] r.0[j]).properties == nodes[j].properties
                && r.0[j].line == nodes[j].line && r.0[j].indent == nodes[j].indent
                && r.0[j].parent == nodes[j].parent && r.0[j].name == nodes[j].name
                && r.0[j].widget == nodes[j].widget
        }),
    decreases stack.len(),
{
    if stack.len() > 0 && nodes[stack.last() as int].indent >= indent {
        let n = stack.last() as int;
        let nodes1 = nodes.update(n, NodeView { end: i, ..nodes[n] });
        let stack1 = stack.drop_last();
        assert(stack[stack.len() - 1] < nodes.len());
        assert forall|j: int| 0 <= j < nodes1.len() implies node_ok(#[trigger] nodes1[j], j, lines, i as nat) by {
            assert(node_ok(nodes[j], j, lines, i as nat));
        }
        assert forall|s: int| 0 <= s < stack1.len() implies (#[trigger] stack1[s]) < nodes1.len() by {
            assert(stack1[s] == stack[s]);
            assert(stack[s] < nodes.len());
        }
        lemma_close_nodes(nodes1, stack1, indent, i, lines);
        let r = close_nodes(nodes, stack, indent, i);
        assert(r == close_nodes(nodes1, stack1, indent, i));
        assert forall|s: int| 0 <= s < r.1.len() implies r.1[s] == stack[s] by {
            assert(stack1[s] == stack[s]);
        }
        assert forall|j: int| 0 <= j < nodes.len() implies (#[trigger] r.0[j]).properties
            == nodes[j].properties && r.0[j].line == nodes[j].line && r.0[j].indent
            == nodes[j].indent && r.0[j].parent == nodes[j].parent && r.0[j].name
            == nodes[j].name && r.0[j].widget == nodes[j].widget by {
            assert(r.0[j].properties == nodes1[j].properties);
        }
    }
}

proof fn lemma_index_step(st: IndexState, lines: Seq<LineView>, utf8: bool, i: usize)
    requires
        i < lines.len(),
        lines.len() <= usize::MAX,
        bodies_fit(lines),
        state_ok(st, lines, i as nat),
    ensures
        state_ok(index_step(st, i, lines[i as int].body, utf8, lines.len() as usize), lines, (i + 1) as nat),
{
    let body = lines[i as int].body;
    let text = trim(line_text(body, utf8));
    let indent = lead_spaces(body) as usize;
    lemma_lead_spaces(body);
    assert(body.len() <= usize::MAX);
    assert forall|j: int| 0 <= j < st.nodes.len() implies node_ok(#[trigger] st.nodes[j], j, lines, (i + 1) as nat) by {
        assert(node_ok(st.nodes[j], j, lines, i as nat));
    }
    if is_comment(text) || (st.block is Some && indent > st.block->0) {
    } else {
        lemma_close_nodes(st.nodes, st.stack, indent, i, lines);
        let closed = close_nodes(st.nodes, st.stack, indent, i);
        let nodes = closed.0;
        let stack = closed.1;
        let r = index_step(st, i, body, utf8, lines.len() as usize);
        assert forall|j: int| 0 <= j < nodes.len() implies node_ok(#[trigger] nodes[j], j, lines, (i + 1) as nat) by {
            assert(node_ok(nodes[j], j, lines, i as nat));
        }
        match find(text, ':') {
            Some(c) => {
                if stack.len() > 0 {
                    let parent = stack.last() as int;
                    assert(stack[stack.len() - 1] < nodes.len());
                    assert forall|j: int| 0 <= j < r.nodes.len() implies node_ok(#[trigger] r.nodes[j], j, lines, (i + 1) as nat) by {
                        if j < nodes.len() {
                            assert(node_ok(nodes[j], j, lines, (i + 1) as nat));
                            if j == parent {
                                let pn = r.nodes[j];
                                assert forall|q: int| 0 <= q < pn.properties.len() implies (#[trigger] pn.properties[q]).line < i + 1 by {
                                    if q < nodes[j].properties.len() {
                                        assert(pn.properties[q] == nodes[j].properties[q]);
                                    }
                                }
                            }
                        } else {
                            lemma_lead_spaces(body);
                        }
                    }
                    assert forall|s: int| 0 <= s < r.stack.len() implies (#[trigger] r.stack[s]) < r.nodes.len() by {
                        if s < stack.len() {
                            assert(stack[s] < nodes.len());
                        } else {
                            assert(r.stack[s] == nodes.len());
                        }
                    }
                }
            },
            None => {
                assert forall|j: int| 0 <= j < r.nodes.len() implies node_ok(#[trigger] r.nodes[j], j, lines, (i + 1) as nat) by {
                    if j < nodes.len() {
                        assert(node_ok(nodes[j], j, lines, (i + 1) as nat));
                    } else {
                        lemma_lead_spaces(body);
                        if stack.len() > 0 {
                            assert(stack[stack.len() - 1] < nodes.len());
                        }
                    }
                }
                assert forall|s: int| 0 <= s < r.stack.len() implies (#[trigger] r.stack[s]) < r.nodes.len() by {
                    if s < stack.len() {
                        assert(stack[s] < nodes.len());
                    }
                }
            },
        }
    }
}

pub proof fn lemma_index_upto(lines: Seq<LineView>, utf8: bool, k: nat)
    requires
        k <= lines.len(),
        lines.len() <= usize::MAX,
        bodies_fit(lines),
    ensures
        state_ok(index_upto(lines, utf8, k), lines, k),
    decreases k,
{
    if k > 0 {
        lemma_index_upto(lines, utf8, (k - 1) as nat);
        lemma_index_step(index_upto(lines, utf8, (k - 1) as nat), lines, utf8, (k - 1) as usize);
    }
}


/// The indexer state held by the executable vectors.
pub open spec fn state_of(
    nodes: Seq<Node>,
    issues: Seq<String>,
    stack: Seq<usize>,
    block: Option<usize>,
) -> IndexState {
    IndexState {
        nodes: nodes.map_values(|n: Node| n@),
        issues: issues.map_values(|s: String| s@),
        stack,
        block,
    }
}

/// The line of every property holds a `:` byte.
pub open spec fn props_colon(nodes: Seq<NodeView>, lines: Seq<LineView>) -> bool {
    forall|j: int, q: int|
        0 <= j < nodes.len() && 0 <= q < nodes[j].properties.len() ==> lines[(
        #[trigger] nodes[j].properties[q]).line as int].body.contains(58u8)
}

fn empty_node() -> (r: Node)
    ensures
        r.properties@.len() == 0,
        r@ == (NodeView {
            line: 0,
            end: 0,
            parent: None,
            indent: 0,
            name: Seq::empty(),
            widget: false,
            properties: Seq::empty(),
        }),
{
    let r = Node {
        line: 0,
        end: 0,
        parent: None,
        indent: 0,
        name: String::new(),
        widget: false,
        properties: Vec::new(),
    };
    proof {
        assert(prop_views(r.properties@) =~= Seq::<PropertyView>::empty());
    }
    r
}

proof fn lemma_map_update<A, B>(s: Seq<A>, i: int, x: A, f: spec_fn(A) -> B)
    requires
        0 <= i < s.len(),
    ensures
        s.update(i, x).map_values(f) == s.map_values(f).update(i, f(x)),
{
    assert(s.update(i, x).map_values(f) =~= s.map_values(f).update(i, f(x)));
}

proof fn lemma_map_push<A, B>(s: Seq<A>, x: A, f: spec_fn(A) -> B)
    ensures
        s.push(x).map_values(f) == s.map_values(f).push(f(x)),
{
    assert(s.push(x).map_values(f) =~= s.map_values(f).push(f(x)));
}

/// Closes the open nodes indented at least `indent` at line `i`.
fn close_open_nodes(nodes: &mut Vec<Node>, stack: &mut Vec<usize>, indent: usize, i: usize)
    requires
        stack_ok(old(nodes)@.map_values(|n: Node| n@), old(stack)@),
    ensures
        (final(nodes)@.map_values(|n: Node| n@), final(stack)@) == close_nodes(
            old(nodes)@.map_values(|n: Node| n@),
            old(stack)@,
            indent,
            i,
        ),
{
    let ghost n0 = nodes@.map_values(|n: Node| n@);
    let ghost s0 = stack@;
    while stack.len() > 0 && nodes[stack[stack.len() - 1]].indent >= indent
        invariant
            close_nodes(nodes@.map_values(|n: Node| n@), stack@, indent, i) == close_nodes(
                n0,
                s0,
                indent,
                i,
            ),
            stack_ok(nodes@.map_values(|n: Node| n@), stack@),
        decreases stack.len(),
    {
        let ghost nv = nodes@.map_values(|n: Node| n@);
        let ghost sv = stack@;
        assert(sv[sv.len() - 1] < nv.len());
        let n = stack.pop().unwrap();
        let mut tmp = empty_node();
        nodes.set_and_swap(n, &mut tmp);
        let ghost before = nodes@;
        tmp.end = i;
        let ghost newnode = tmp;
        nodes.set_and_swap(n, &mut tmp);
        proof {
            lemma_map_update(before, n as int, newnode, |n: Node| n@);
            assert(nodes@.map_values(|n: Node| n@) =~= nv.update(
                n as int,
                NodeView { end: i, ..nv[n as int] },
            ));
            assert(stack@ =~= sv.drop_last());
            assert forall|s: int| 0 <= s < stack@.len() implies (#[trigger] stack@[s])
                < nodes@.len() by {
                assert(stack@[s] == sv[s]);
            }
        }
    }
}

/// Adds to the state the node or property of a non-comment line whose
/// trimmed text is `text`.
#[verifier::rlimit(30)]
fn add_entry(
    nodes: &mut Vec<Node>,
    issues: &mut Vec<String>,
    stack: &mut Vec<usize>,
    block: &mut Option<usize>,
    i: usize,
    text: &[char],
    indent: usize,
    n_lines: usize,
    Ghost(lines): Ghost<Seq<LineView>>,
)
    requires
        i < n_lines,
        i < usize::MAX,
        text@.len() > 0,
        old(nodes)@.len() < usize::MAX,
        stack_ok(old(nodes)@.map_values(|n: Node| n@), old(stack)@),
        find(text@, ':') is Some ==> lines[i as int].body.contains(58u8),
        props_colon(old(nodes)@.map_values(|n: Node| n@), lines),
    ensures
        state_of(final(nodes)@, final(issues)@, final(stack)@, *final(block)) == index_entry(
            old(nodes)@.map_values(|n: Node| n@),
            old(stack)@,
            old(issues)@.map_values(|s: String| s@),
            i,
            text@,
            indent,
            n_lines,
        ),
        props_colon(final(nodes)@.map_values(|n: Node| n@), lines),
{
    let ghost nv0 = nodes@.map_values(|n: Node| n@);
    match find_char(text, ':') {
        Some(c) => {
            if stack.len() == 0 {
                let msg = line_issue(i, false);
                let ghost old_issues = issues@;
                issues.push(msg);
                *block = None;
                proof {
                    lemma_map_push(old_issues, msg, |s: String| s@);
                }
                return;
            }
            let parent = stack[stack.len() - 1];
            assert(stack@[stack@.len() - 1] < nv0.len());
            let tl = text.len();
            let key = trimmed(slice_subrange(text, 0, c));
            let val = trimmed(slice_subrange(text, c + 1, tl));
            let multi = block_marker(&val);
            let prop = Property {
                line: i,
                key: string_of(&key),
                value: string_of(&val),
                block: multi || val.len() == 0,
            };
            let mut tmp = empty_node();
            nodes.set_and_swap(parent, &mut tmp);
            let ghost pv = tmp.properties@;
            let ghost mid = nodes@;
            tmp.properties.push(prop);
            proof {
                lemma_map_push(pv, prop, |p: Property| p@);
                assert(prop_views(tmp.properties@) == prop_views(pv).push(prop@));
            }
            let ghost newnode = tmp;
            nodes.set_and_swap(parent, &mut tmp);
            proof {
                lemma_map_update(mid, parent as int, newnode, |n: Node| n@);
                let nv = nodes@.map_values(|n: Node| n@);
                assert(nv =~= nv0.update(
                    parent as int,
                    NodeView { properties: nv0[parent as int].properties.push(prop@), ..nv0[parent as int] },
                ));
                assert forall|j: int, q: int|
                    0 <= j < nv.len() && 0 <= q < nv[j].properties.len() implies lines[(
                    #[trigger] nv[j].properties[q]).line as int].body.contains(58u8) by {
                    if j != parent || q < nv0[j].properties.len() {
                        assert(nv[j].properties[q] == nv0[j].properties[q]);
                    }
                }
            }
            if multi {
                *block = Some(indent);
            } else {
                *block = None;
                if val.len() == 0 {
                    let k = nodes.len();
                    let node = Node {
                        line: i,
                        end: n_lines,
                        parent: Some(parent),
                        indent,
                        name: string_of(&key),
                        widget: false,
                        properties: Vec::new(),
                    };
                    let ghost nv2 = nodes@;
                    nodes.push(node);
                    stack.push(k);
                    proof {
                        lemma_map_push(nv2, node, |n: Node| n@);
                        assert(node@.properties =~= Seq::<PropertyView>::empty());
                        let nv = nodes@.map_values(|n: Node| n@);
                        assert forall|j: int, q: int|
                            0 <= j < nv.len() && 0 <= q < nv[j].properties.len() implies lines[(
                            #[trigger] nv[j].properties[q]).line as int].body.contains(58u8) by {
                            assert(j < nv2.len());
                            assert(nv[j] == nv2.map_values(|n: Node| n@)[j]);
                        }
                    }
                }
            }
        },
        None => {
            let k = nodes.len();
            let node = Node {
                line: i,
                end: n_lines,
                parent: if stack.len() > 0 {
                    Some(stack[stack.len() - 1])
                } else {
                    None
                },
                indent,
                name: string_of(text),
                widget: text[0] != '$',
                properties: Vec::new(),
            };
            let ghost nv2 = nodes@;
            nodes.push(node);
            stack.push(k);
            *block = None;
            proof {
                lemma_map_push(nv2, node, |n: Node| n@);
                assert(node@.properties =~= Seq::<PropertyView>::empty());
                let nv = nodes@.map_values(|n: Node| n@);
                assert forall|j: int, q: int|
                    0 <= j < nv.len() && 0 <= q < nv[j].properties.len() implies lines[(
                    #[trigger] nv[j].properties[q]).line as int].body.contains(58u8) by {
                    assert(j < nv2.len());
                    assert(nv[j] == nv0[j]);
                }
            }
        },
    }
}

/// Indexes line `i` (with bytes `body`) into the state.
#[verifier::rlimit(40)]
fn index_line(
    nodes: &mut Vec<Node>,
    issues: &mut Vec<String>,
    stack: &mut Vec<usize>,
    block: &mut Option<usize>,
    i: usize,
    body: &[u8],
    utf8: bool,
    n_lines: usize,
    Ghost(lines): Ghost<Seq<LineView>>,
)
    requires
        i < n_lines,
        n_lines == lines.len(),
        body@ == lines[i as int].body,
        bodies_fit(lines),
        state_ok(state_of(old(nodes)@, old(issues)@, old(stack)@, *old(block)), lines, i as nat),
        props_colon(state_of(old(nodes)@, old(issues)@, old(stack)@, *old(block)).nodes, lines),
    ensures
        state_of(final(nodes)@, final(issues)@, final(stack)@, *final(block)) == index_step(
            state_of(old(nodes)@, old(issues)@, old(stack)@, *old(block)),
            i,
            body@,
            utf8,
            n_lines,
        ),
        props_colon(state_of(final(nodes)@, final(issues)@, final(stack)@, *final(block)).nodes, lines),
{
    let ghost st0 = state_of(nodes@, issues@, stack@, *block);
    let full = decode_line(body, utf8);
    let text = trimmed(&full);
    let indent = count_lead_spaces(body);
    if comment_line(&text) {
        return;
    }
    if let Some(b) = *block {
        if indent > b {
            return;
        }
    }
    if indent < body.len() && body[indent] == 9 {
        let msg = line_issue(i, true);
        let ghost old_issues = issues@;
        issues.push(msg);
        proof {
            lemma_map_push(old_issues, msg, |s: String| s@);
        }
    }
    proof {
        lemma_close_nodes(st0.nodes, st0.stack, indent, i, lines);
    }
    close_open_nodes(nodes, stack, indent, i);
    proof {
        if find(text@, ':') is Some {
            let c = find(text@, ':')->0;
            lemma_find(text@, ':');
            lemma_trim(full@);
            assert(full@[ws_prefix(full@) + c] == ':');
            assert(body@.contains(58u8));
        }
    }
    add_entry(nodes, issues, stack, block, i, &text, indent, n_lines, Ghost(lines));
}


pub proof fn lemma_lines_bytes_bounds(ls: Seq<LineView>)
    ensures
        forall|i: int|
            0 <= i < ls.len() ==> (#[trigger] ls[i]).body.len() + ls[i].eol.len() <= lines_bytes(
                ls,
            ).len(),
        lines_nonempty(ls) ==> ls.len() <= lines_bytes(ls).len(),
    decreases ls.len(),
{
    if ls.len() > 0 {
        lemma_lines_bytes_bounds(ls.drop_first());
        assert forall|i: int| 0 <= i < ls.len() implies (#[trigger] ls[i]).body.len()
            + ls[i].eol.len() <= lines_bytes(ls).len() by {
            if i > 0 {
                assert(ls[i] == ls.drop_first()[i - 1]);
            }
        }
        if lines_nonempty(ls) {
            assert forall|i: int| 0 <= i < ls.drop_first().len() implies (
            #[trigger] ls.drop_first()[i]).body.len() + ls.drop_first()[i].eol.len() > 0 by {
                assert(ls.drop_first()[i] == ls[i + 1]);
            }
            assert(ls[0].body.len() + ls[0].eol.len() > 0);
        }
    }
}

impl DocumentView {
    /// The document's own invariant: its lines are non-empty, it is at most
    /// twice the size limit, and its nodes and issues are those of its lines.
    pub open spec fn wf(self) -> bool {
        &&& lines_nonempty(self.lines)
        &&& eols_ok(self.lines)
        &&& content(self).len() <= 2 * MAX_BYTES
        &&& self.nodes == spec_index(self.lines, self.utf8, self.is_otui).nodes
        &&& self.issues == spec_index(self.lines, self.utf8, self.is_otui).issues
        &&& props_colon(self.nodes, self.lines)
        &&& (self.utf8 ==> lines_utf8(self.lines))
    }

    /// The same document with its nodes and issues rebuilt from its lines.
    pub open spec fn reindexed(self) -> DocumentView {
        DocumentView {
            nodes: spec_index(self.lines, self.utf8, self.is_otui).nodes,
            issues: spec_index(self.lines, self.utf8, self.is_otui).issues,
            ..self
        }
    }
}

/// Why `parse` refuses the bytes, if it does.
pub open spec fn parse_refusal(b: Seq<u8>) -> Option<Seq<char>> {
    if b.len() > MAX_BYTES || b.contains(0u8) {
        Some("Arquivo binário ou maior que 8 MiB."@)
    } else if has_bom(b) && !valid_utf8(b.subrange(3, b.len() as int)) {
        Some("UTF-8 inválido com BOM."@)
    } else {
        None
    }
}

/// The bytes after the BOM, if any.
pub open spec fn payload(b: Seq<u8>) -> Seq<u8> {
    if has_bom(b) {
        b.subrange(3, b.len() as int)
    } else {
        b
    }
}

/// The document that `parse` builds from accepted bytes.
pub open spec fn parsed(b: Seq<u8>, is_otui: bool) -> DocumentView {
    DocumentView {
        lines: split_lines(payload(b)),
        bom: has_bom(b),
        utf8: valid_utf8(payload(b)),
        nodes: Seq::empty(),
        issues: Seq::empty(),
        saved: b,
        is_otui,
    }.reindexed()
}

/// Builds the nodes and issues of the lines.
fn build_index(lines: &Vec<Line>, utf8: bool) -> (r: (Vec<Node>, Vec<String>))
    requires
        bodies_fit(lines@.map_values(|l: Line| l@)),
        lines@.len() < usize::MAX,
    ensures
        r.0@.map_values(|n: Node| n@) == index_upto(
            lines@.map_values(|l: Line| l@),
            utf8,
            lines@.len(),
        ).nodes,
        r.1@.map_values(|s: String| s@) == index_upto(
            lines@.map_values(|l: Line| l@),
            utf8,
            lines@.len(),
        ).issues,
        props_colon(r.0@.map_values(|n: Node| n@), lines@.map_values(|l: Line| l@)),
{
    let ghost lv = lines@.map_values(|l: Line| l@);
    let mut nodes: Vec<Node> = Vec::new();
    let mut issues: Vec<String> = Vec::new();
    let mut stack: Vec<usize> = Vec::new();
    let mut block: Option<usize> = None;
    let n = lines.len();
    let mut i: usize = 0;
    proof {
        assert(nodes@.map_values(|n: Node| n@) =~= Seq::<NodeView>::empty());
        assert(issues@.map_values(|s: String| s@) =~= Seq::<Seq<char>>::empty());
        assert(stack@ =~= Seq::<usize>::empty());
        assert(state_of(nodes@, issues@, stack@, block) == index_start());
    }
    while i < n
        invariant
            n == lines@.len(),
            n < usize::MAX,
            lv == lines@.map_values(|l: Line| l@),
            bodies_fit(lv),
            i <= n,
            state_of(nodes@, issues@, stack@, block) == index_upto(lv, utf8, i as nat),
            props_colon(state_of(nodes@, issues@, stack@, block).nodes, lv),
        decreases n - i,
    {
        proof {
            lemma_index_upto(lv, utf8, i as nat);
        }
        index_line(
            &mut nodes,
            &mut issues,
            &mut stack,
            &mut block,
            i,
            lines[i].body.as_slice(),
            utf8,
            n,
            Ghost(lv),
        );
        i = i + 1;
    }
    (nodes, issues)
}

impl Document {
    /// The file the document was loaded from or saved to, if any.
    pub closed spec fn path_value(&self) -> Option<std::path::PathBuf> {
        self.path
    }

    /// Rebuilds the nodes and issues from the lines.
    fn index(&mut self)
        requires
            lines_nonempty(old(self)@.lines),
            eols_ok(old(self)@.lines),
            content(old(self)@).len() <= 2 * MAX_BYTES,
            old(self)@.utf8 ==> lines_utf8(old(self)@.lines),
        ensures
            final(self)@ == old(self)@.reindexed(),
            final(self)@.wf(),
            final(self).path_value() == old(self).path_value(),
    {
        proof {
            lemma_lines_bytes_bounds(self@.lines);
            assert(bodies_fit(self@.lines));
        }
        if !self.is_otui {
            self.nodes = Vec::new();
            self.issues = Vec::new();
            proof {
                assert(self@.nodes =~= Seq::<NodeView>::empty());
                assert(self@.issues =~= Seq::<Seq<char>>::empty());
                assert(self@ =~= old(self)@.reindexed());
            }
            return;
        }
        let (nodes, issues) = build_index(&self.lines, self.utf8);
        self.nodes = nodes;
        self.issues = issues;
        proof {
            assert(self@ =~= old(self)@.reindexed());
        }
    }
}


fn contains_zero(b: &[u8]) -> (r: bool)
    ensures
        r == b@.contains(0u8),
{
    let mut i: usize = 0;
    while i < b.len()
        invariant
            i <= b@.len(),
            forall|j: int| 0 <= j < i ==> b@[j] != 0,
        decreases b.len() - i,
    {
        if b[i] == 0 {
            assert(b@[i as int] == 0);
            return true;
        }
        i = i + 1;
    }
    false
}

fn starts_with_bom(b: &[u8]) -> (r: bool)
    ensures
        r == has_bom(b@),
{
    let r = b.len() >= 3 && b[0] == 0xef && b[1] == 0xbb && b[2] == 0xbf;
    proof {
        if b@.len() >= 3 {
            assert(r == (b@.subrange(0, 3) =~= bom_bytes()));
        }
    }
    r
}

/// Appends `src` to `out`.
fn append_bytes(out: &mut Vec<u8>, src: &[u8])
    ensures
        final(out)@ == old(out)@ + src@,
{
    let mut i: usize = 0;
    let ghost start = out@;
    while i < src.len()
        invariant
            i <= src@.len(),
            out@ == start + src@.subrange(0, i as int),
        decreases src.len() - i,
    {
        out.push(src[i]);
        i = i + 1;
        proof {
            assert(src@.subrange(0, i as int) =~= src@.subrange(0, (i - 1) as int).push(
                src@[i - 1],
            ));
        }
    }
    proof {
        assert(src@.subrange(0, src@.len() as int) =~= src@);
    }
}

/// The bytes of the first `k` lines.
fn lines_prefix_bytes(lines: &Vec<Line>, out: &mut Vec<u8>)
    ensures
        final(out)@ == old(out)@ + lines_bytes(lines@.map_values(|l: Line| l@)),
{
    let ghost lv = lines@.map_values(|l: Line| l@);
    let ghost start = out@;
    let mut i: usize = 0;
    proof {
        assert(lv.subrange(0, 0) =~= Seq::<LineView>::empty());
        assert(start + lines_bytes(Seq::<LineView>::empty()) =~= start);
    }
    while i < lines.len()
        invariant
            i <= lines@.len(),
            lv == lines@.map_values(|l: Line| l@),
            out@ == start + lines_bytes(lv.subrange(0, i as int)),
        decreases lines.len() - i,
    {
        append_bytes(out, lines[i].body.as_slice());
        append_bytes(out, lines[i].eol.as_slice());
        proof {
            let l = lv[i as int];
            assert(lv.subrange(0, i + 1) =~= lv.subrange(0, i as int) + seq![l]);
            lemma_lines_bytes_concat(lv.subrange(0, i as int), seq![l]);
            lemma_lines_bytes_one(l);
            assert(out@ =~= start + lines_bytes(lv.subrange(0, i + 1)));
        }
        i = i + 1;
    }
    proof {
        assert(lv.subrange(0, lines@.len() as int) =~= lv);
    }
}

impl Document {
    /// Parses bytes into a document. Refuses input over 8 MiB, input with a
    /// NUL byte, and input that starts with a UTF-8 BOM but is not UTF-8.
    /// Without a BOM, input that is not UTF-8 is taken as Windows-1252.
    pub fn parse(bytes: &[u8], is_otui: bool) -> (r: Result<Document, String>)
        ensures
            match r {
                Ok(d) => {
                    &&& parse_refusal(bytes@) is None
                    &&& d@ == parsed(bytes@, is_otui)
                    &&& d@.wf()
                    &&& content(d@) == bytes@
                    &&& d.path_value() is None
                },
                Err(e) => parse_refusal(bytes@) == Some(e@),
            },
    {
        if bytes.len() > MAX_BYTES || contains_zero(bytes) {
            return Err(String::from_str("Arquivo binário ou maior que 8 MiB."));
        }
        let bom = starts_with_bom(bytes);
        let data = if bom {
            slice_subrange(bytes, 3, bytes.len())
        } else {
            bytes
        };
        let utf8 = utf8_valid(data);
        if bom && !utf8 {
            return Err(String::from_str("UTF-8 inválido com BOM."));
        }
        let lines = split_into_lines(data);
        let mut d = Document {
            lines,
            bom,
            utf8,
            nodes: Vec::new(),
            issues: Vec::new(),
            path: None,
            saved: slice_to_vec(bytes),
            is_otui,
        };
        proof {
            lemma_split_lines(data@);
            lemma_split_lines_eols(data@);
            if utf8 {
                lemma_split_lines_utf8(data@);
            }
            assert(d@.nodes =~= Seq::<NodeView>::empty());
            assert(d@.issues =~= Seq::<Seq<char>>::empty());
            if bom {
                assert(bytes@ =~= bom_bytes() + data@);
            } else {
                assert(bytes@ =~= Seq::<u8>::empty() + data@);
            }
            assert(content(d@) == bytes@);
        }
        d.index();
        proof {
            assert(d@ =~= parsed(bytes@, is_otui));
        }
        Ok(d)
    }

    /// The document's bytes: the BOM it had, then each line and terminator.
    pub fn bytes(&self) -> (r: Vec<u8>)
        ensures
            r@ == content(self@),
    {
        let mut out: Vec<u8> = Vec::new();
        if self.bom {
            out.push(0xef);
            out.push(0xbb);
            out.push(0xbf);
        }
        proof {
            if self.bom {
                assert(out@ =~= bom_bytes());
            } else {
                assert(out@ =~= Seq::<u8>::empty());
            }
        }
        lines_prefix_bytes(&self.lines, &mut out);
        out
    }
}


/// How many of the properties have the key.
pub open spec fn key_count(props: Seq<PropertyView>, key: Seq<char>) -> nat
    decreases props.len(),
{
    if props.len() == 0 {
        0
    } else {
        key_count(props.drop_last(), key) + if props.last().key == key {
            1nat
        } else {
            0nat
        }
    }
}

/// Index of the first property with the key, if any.
pub open spec fn first_key(props: Seq<PropertyView>, key: Seq<char>) -> Option<int> {
    if exists|i: int| 0 <= i < props.len() && props[i].key == key {
        Some(
            choose|i: int|
                0 <= i < props.len() && props[i].key == key && forall|j: int|
                    0 <= j < i ==> props[j].key != key,
        )
    } else {
        None
    }
}

proof fn lemma_first_key_witness(props: Seq<PropertyView>, key: Seq<char>, w: int)
    requires
        0 <= w < props.len(),
        props[w].key == key,
    ensures
        exists|i: int|
            0 <= i < props.len() && props[i].key == key && forall|j: int|
                0 <= j < i ==> props[j].key != key,
    decreases w,
{
    if exists|j: int| 0 <= j < w && props[j].key == key {
        let j = choose|j: int| 0 <= j < w && props[j].key == key;
        lemma_first_key_witness(props, key, j);
    } else {
        assert(0 <= w < props.len() && props[w].key == key && forall|j: int|
            0 <= j < w ==> props[j].key != key);
    }
}

pub proof fn lemma_first_key(props: Seq<PropertyView>, key: Seq<char>)
    ensures
        first_key(props, key) matches Some(i) ==> 0 <= i < props.len() && props[i].key == key
            && forall|j: int| 0 <= j < i ==> props[j].key != key,
        first_key(props, key) is None ==> forall|j: int|
            0 <= j < props.len() ==> props[j].key != key,
{
    if exists|i: int| 0 <= i < props.len() && props[i].key == key {
        let w = choose|i: int| 0 <= i < props.len() && props[i].key == key;
        lemma_first_key_witness(props, key, w);
    }
}

proof fn lemma_key_count_positive(props: Seq<PropertyView>, key: Seq<char>)
    ensures
        (key_count(props, key) > 0) == (exists|i: int| 0 <= i < props.len() && props[i].key == key),
    decreases props.len(),
{
    if props.len() > 0 {
        lemma_key_count_positive(props.drop_last(), key);
        if exists|i: int| 0 <= i < props.drop_last().len() && props.drop_last()[i].key == key {
            let i = choose|i: int| 0 <= i < props.drop_last().len() && props.drop_last()[i].key == key;
            assert(props[i].key == key);
        }
        if exists|i: int| 0 <= i < props.len() && props[i].key == key {
            let i = choose|i: int| 0 <= i < props.len() && props[i].key == key;
            if i < props.len() - 1 {
                assert(props.drop_last()[i].key == key);
            }
        }
    }
}

/// The value of the first property `key` of node `n`, or the empty text.
pub open spec fn node_value(v: DocumentView, n: int, key: Seq<char>) -> Seq<char> {
    if 0 <= n < v.nodes.len() && first_key(v.nodes[n].properties, key) is Some {
        v.nodes[n].properties[first_key(v.nodes[n].properties, key)->0].value
    } else {
        Seq::empty()
    }
}

/// Counts the properties with the key and finds the first one.
fn scan_key(props: &Vec<Property>, key: &String) -> (r: (usize, Option<usize>))
    ensures
        r.0 == key_count(prop_views(props@), key@),
        r.1 == match first_key(prop_views(props@), key@) {
            Some(i) => Some(i as usize),
            None => None::<usize>,
        },
{
    let ghost pv = prop_views(props@);
    let mut count: usize = 0;
    let mut first: Option<usize> = None;
    let mut i: usize = 0;
    proof {
        assert(pv.subrange(0, 0) =~= Seq::<PropertyView>::empty());
    }
    while i < props.len()
        invariant
            i <= props@.len(),
            pv == prop_views(props@),
            count == key_count(pv.subrange(0, i as int), key@),
            count <= i,
            first is None ==> forall|j: int| 0 <= j < i ==> pv[j].key != key@,
            first matches Some(f) ==> f < i && pv[f as int].key == key@ && forall|j: int|
                0 <= j < f ==> pv[j].key != key@,
        decreases props.len() - i,
    {
        let hit = props[i].key == *key;
        proof {
            assert(pv.subrange(0, i + 1).drop_last() =~= pv.subrange(0, i as int));
            assert(pv.subrange(0, i + 1).last() == pv[i as int]);
        }
        if hit {
            count = count + 1;
            if first.is_none() {
                first = Some(i);
            }
        }
        i = i + 1;
    }
    proof {
        assert(pv.subrange(0, props@.len() as int) =~= pv);
        lemma_first_key(pv, key@);
        match first {
            Some(f) => {
                let w = first_key(pv, key@)->0;
                if w < f {
                } else if w > f {
                }
            },
            None => {
                if first_key(pv, key@) is Some {
                    let w = first_key(pv, key@)->0;
                    assert(pv[w].key == key@);
                }
            },
        }
    }
    (count, first)
}

/// Whether some issue reports a tab in the indentation.
pub open spec fn has_tab_issue(v: DocumentView) -> bool {
    exists|k: int| 0 <= k < v.issues.len() && has_infix(#[trigger] v.issues[k], "tabulação"@)
}

/// The bytes that `text` encodes to in the document's encoding, or `None`
/// when a character has no Windows-1252 byte.
pub open spec fn encoded(utf8: bool, text: Seq<char>) -> Option<Seq<u8>> {
    if utf8 {
        Some(encode_utf8(text))
    } else if windows_1252_encoded(text).1 {
        None
    } else {
        Some(windows_1252_encoded(text).0)
    }
}

/// The text of the whole document (without its BOM).
pub open spec fn doc_text(v: DocumentView) -> Seq<char> {
    line_text(lines_bytes(v.lines), v.utf8)
}

impl Document {
    /// The value of the first property `key` of node `n` (empty if none).
    pub fn value(&self, n: usize, key: &str) -> (r: &str)
        ensures
            r@ == node_value(self@, n as int, key@),
    {
        proof {
            reveal_strlit("");
        }
        if n >= self.nodes.len() {
            return "";
        }
        let k = String::from_str(key);
        let props = &self.nodes[n].properties;
        let plen = props.len();
        let (_, first) = scan_key(props, &k);
        assert(k@ == key@);
        assert(props@ == self.nodes@[n as int].properties@);
        proof {
            assert(self@.nodes[n as int].properties == prop_views(self.nodes@[n as int].properties@));
            lemma_first_key(self@.nodes[n as int].properties, key@);
        }
        match first {
            Some(q) => {
                proof {
                    let pv = prop_views(self.nodes@[n as int].properties@);
                    assert(pv[q as int] == self.nodes@[n as int].properties@[q as int]@);
                    assert(self@.nodes[n as int] == self.nodes@[n as int]@);
                    lemma_first_key(pv, key@);
                    assert(first_key(pv, key@) is Some);
                    let w = first_key(pv, key@)->0;
                    assert(w < plen);
                    assert(first_key(pv, key@) == Some(q as int));
                    assert(node_value(self@, n as int, key@) == pv[q as int].value);
                }
                self.nodes[n].properties[q].value.as_str()
            },
            None => "",
        }
    }

    /// Refuses structural edits while some line is indented with a tab.
    fn structural(&self) -> (r: Result<(), String>)
        ensures
            r is Ok <==> !has_tab_issue(self@),
            r matches Err(e) ==> e@ == "Resolva a indentação com tabulações no código."@,
    {
        let needle = chars_of("tabulação");
        let mut k: usize = 0;
        while k < self.issues.len()
            invariant
                k <= self.issues@.len(),
                needle@ == "tabulação"@,
                forall|j: int| 0 <= j < k ==> !has_infix(#[trigger] self@.issues[j], "tabulação"@),
            decreases self.issues.len() - k,
        {
            let h = chars_of(self.issues[k].as_str());
            if contains_infix(&h, &needle) {
                assert(has_infix(self@.issues[k as int], "tabulação"@));
                return Err(String::from_str("Resolva a indentação com tabulações no código."));
            }
            k = k + 1;
        }
        Ok(())
    }

    /// The document's text (without its BOM), decoded.
    pub fn text(&self) -> (r: String)
        ensures
            r@ == doc_text(self@),
            self@.wf() && self@.utf8 ==> encode_utf8(r@) == lines_bytes(self@.lines),
            !self@.utf8 && !sniffed_bom(lines_bytes(self@.lines)) ==> windows_1252_encoded(r@) == (
            lines_bytes(self@.lines), false),
    {
        let mut out: Vec<u8> = Vec::new();
        lines_prefix_bytes(&self.lines, &mut out);
        proof {
            assert(out@ =~= lines_bytes(self@.lines));
        }
        proof {
            if self@.wf() {
                lemma_wf(self@);
            }
        }
        let chars = decode_line(out.as_slice(), self.utf8);
        string_of(&chars)
    }

    /// The name of the document's encoding.
    pub fn encoding(&self) -> (r: &str)
        ensures
            r@ == if self@.utf8 {
                "UTF-8"@
            } else {
                "Windows-1252"@
            },
    {
        if self.utf8 {
            "UTF-8"
        } else {
            "Windows-1252"
        }
    }

    /// Whether the bytes differ from those last saved or loaded.
    pub fn dirty(&self) -> (r: bool)
        ensures
            r == (content(self@) != self@.saved),
    {
        let b = self.bytes();
        if b.len() != self.saved.len() {
            return true;
        }
        let mut i: usize = 0;
        while i < b.len()
            invariant
                b@ == content(self@),
                b@.len() == self@.saved.len(),
                i <= b@.len(),
                forall|j: int| 0 <= j < i ==> b@[j] == self@.saved[j],
            decreases b.len() - i,
        {
            if b[i] != self.saved[i] {
                return true;
            }
            i = i + 1;
        }
        assert(b@ =~= self@.saved);
        false
    }

    /// Forgets the file: the document becomes new and unsaved.
    pub fn mark_new(&mut self)
        ensures
            final(self)@ == (DocumentView { saved: Seq::empty(), ..old(self)@ }),
            (final(self).path_value() is None),
    {
        self.saved.clear();
        self.path = None;
        proof {
            assert(self@ =~= DocumentView { saved: Seq::empty(), ..old(self)@ });
        }
    }

    /// Replaces the whole content; the path and the saved bytes are kept.
    pub fn replace_bytes(&mut self, bytes: &[u8]) -> (r: Result<(), String>)
        requires
            old(self)@.wf(),
        ensures
            final(self)@.wf(),
            final(self).path_value() == old(self).path_value(),
            match r {
                Ok(_) => {
                    &&& parse_refusal(bytes@) is None
                    &&& final(self)@ == (DocumentView {
                        saved: old(self)@.saved,
                        ..parsed(bytes@, old(self)@.is_otui)
                    })
                    &&& content(final(self)@) == bytes@
                },
                Err(e) => parse_refusal(bytes@) == Some(e@) && final(self)@ == old(self)@,
            },
    {
        let mut next = match Document::parse(bytes, self.is_otui) {
            Ok(d) => d,
            Err(e) => return Err(e),
        };
        std::mem::swap(&mut next.path, &mut self.path);
        std::mem::swap(&mut next.saved, &mut self.saved);
        *self = next;
        proof {
            assert(self@ =~= DocumentView { saved: old(self)@.saved, ..parsed(bytes@, old(self)@.is_otui) });
        }
        Ok(())
    }

    /// `text` in the document's encoding.
    fn encode(&self, text: &str) -> (r: Result<Vec<u8>, String>)
        ensures
            match r {
                Ok(b) => encoded(self@.utf8, text@) == Some(b@),
                Err(e) => encoded(self@.utf8, text@) is None && e@
                    == "Caractere não representável em Windows-1252."@,
            },
    {
        if self.utf8 {
            return Ok(slice_to_vec(text.as_bytes()));
        }
        let (bytes, bad) = windows_1252_encode(text);
        if bad {
            Err(String::from_str("Caractere não representável em Windows-1252."))
        } else {
            Ok(bytes)
        }
    }

    /// Replaces the content with `text` in the document's encoding (keeping
    /// the BOM if it had one).
    pub fn replace_text(&mut self, text: &str) -> (r: Result<(), String>)
        requires
            old(self)@.wf(),
        ensures
            final(self)@.wf(),
            final(self).path_value() == old(self).path_value(),
            match encoded(old(self)@.utf8, text@) {
                None => r matches Err(e) && e@ == "Caractere não representável em Windows-1252."@
                    && final(self)@ == old(self)@,
                Some(b) => {
                    let all = if old(self)@.bom {
                        bom_bytes() + b
                    } else {
                        b
                    };
                    match r {
                        Ok(_) => parse_refusal(all) is None && final(self)@ == (DocumentView {
                            saved: old(self)@.saved,
                            ..parsed(all, old(self)@.is_otui)
                        }),
                        Err(e) => parse_refusal(all) == Some(e@) && final(self)@ == old(self)@,
                    }
                },
            },
    {
        let mut bytes: Vec<u8> = Vec::new();
        if self.bom {
            bytes.push(0xef);
            bytes.push(0xbb);
            bytes.push(0xbf);
        }
        let enc = match self.encode(text) {
            Ok(b) => b,
            Err(e) => return Err(e),
        };
        let ghost start = bytes@;
        append_bytes(&mut bytes, enc.as_slice());
        proof {
            if self.bom {
                assert(bytes@ =~= bom_bytes() + enc@);
            } else {
                assert(bytes@ =~= enc@);
            }
        }
        self.replace_bytes(bytes.as_slice())
    }
}


/// Every terminator is `""`, `"\n"` or `"\r\n"`.
pub open spec fn eols_ok(ls: Seq<LineView>) -> bool {
    forall|i: int|
        0 <= i < ls.len() ==> (#[trigger] ls[i]).eol == Seq::<u8>::empty() || ls[i].eol == seq![
            10u8,
        ] || ls[i].eol == seq![13u8, 10u8]
}

pub proof fn lemma_split_lines_eols(d: Seq<u8>)
    ensures
        eols_ok(split_lines(d)),
    decreases d.len(),
{
    if d.len() > 0 {
        let k = piece_len(d);
        lemma_newline_at(d);
        lemma_split_lines_eols(d.subrange(k, d.len() as int));
        let ls = split_lines(d);
        let p = d.subrange(0, k);
        assert(line_of(p).eol =~= Seq::<u8>::empty() || line_of(p).eol =~= seq![10u8]
            || line_of(p).eol =~= seq![13u8, 10u8]);
        assert forall|i: int| 0 <= i < ls.len() implies (#[trigger] ls[i]).eol
            == Seq::<u8>::empty() || ls[i].eol == seq![10u8] || ls[i].eol == seq![13u8, 10u8] by {
            if i > 0 {
                assert(ls[i] == split_lines(d.subrange(k, d.len() as int))[i - 1]);
            }
        }
    }
}

/// Size of one line.
pub open spec fn line_size(l: LineView) -> nat {
    l.body.len() + l.eol.len()
}

pub proof fn lemma_lines_split_at(ls: Seq<LineView>, i: int)
    requires
        0 <= i < ls.len(),
    ensures
        lines_bytes(ls) == lines_bytes(ls.subrange(0, i)) + ls[i].body + ls[i].eol + lines_bytes(
            ls.subrange(i + 1, ls.len() as int),
        ),
{
    let a = ls.subrange(0, i);
    let b = ls.subrange(i + 1, ls.len() as int);
    assert(ls =~= a + (seq![ls[i]] + b));
    lemma_lines_bytes_concat(a, seq![ls[i]] + b);
    lemma_lines_bytes_concat(seq![ls[i]], b);
    lemma_lines_bytes_one(ls[i]);
    assert(lines_bytes(ls) =~= lines_bytes(a) + ls[i].body + ls[i].eol + lines_bytes(b));
}

pub proof fn lemma_lines_update(ls: Seq<LineView>, i: int, x: LineView)
    requires
        0 <= i < ls.len(),
    ensures
        lines_bytes(ls.update(i, x)) == lines_bytes(ls.subrange(0, i)) + x.body + x.eol
            + lines_bytes(ls.subrange(i + 1, ls.len() as int)),
        lines_bytes(ls.update(i, x)).len() + line_size(ls[i]) == lines_bytes(ls).len() + line_size(x),
{
    let u = ls.update(i, x);
    lemma_lines_split_at(ls, i);
    lemma_lines_split_at(u, i);
    assert(u.subrange(0, i) =~= ls.subrange(0, i));
    assert(u.subrange(i + 1, u.len() as int) =~= ls.subrange(i + 1, ls.len() as int));
}

pub proof fn lemma_lines_insert(ls: Seq<LineView>, i: int, x: LineView)
    requires
        0 <= i <= ls.len(),
    ensures
        lines_bytes(ls.insert(i, x)) == lines_bytes(ls.subrange(0, i)) + x.body + x.eol
            + lines_bytes(ls.subrange(i, ls.len() as int)),
        lines_bytes(ls.insert(i, x)).len() == lines_bytes(ls).len() + line_size(x),
{
    let u = ls.insert(i, x);
    lemma_lines_split_at(u, i);
    assert(u.subrange(0, i) =~= ls.subrange(0, i));
    assert(u.subrange(i + 1, u.len() as int) =~= ls.subrange(i, ls.len() as int));
    assert(ls =~= ls.subrange(0, i) + ls.subrange(i, ls.len() as int));
    lemma_lines_bytes_concat(ls.subrange(0, i), ls.subrange(i, ls.len() as int));
}

pub proof fn lemma_lines_remove(ls: Seq<LineView>, i: int)
    requires
        0 <= i < ls.len(),
    ensures
        lines_bytes(ls.remove(i)) == lines_bytes(ls.subrange(0, i)) + lines_bytes(
            ls.subrange(i + 1, ls.len() as int),
        ),
        lines_bytes(ls.remove(i)).len() + line_size(ls[i]) == lines_bytes(ls).len(),
{
    let u = ls.remove(i);
    lemma_lines_split_at(ls, i);
    assert(u =~= ls.subrange(0, i) + ls.subrange(i + 1, ls.len() as int));
    lemma_lines_bytes_concat(ls.subrange(0, i), ls.subrange(i + 1, ls.len() as int));
}

/// The terminator for new lines: that of the first terminated line, else `\n`.
pub open spec fn default_eol(ls: Seq<LineView>) -> Seq<u8>
    decreases ls.len(),
{
    if ls.len() == 0 {
        seq![10u8]
    } else if ls[0].eol.len() > 0 {
        ls[0].eol
    } else {
        default_eol(ls.drop_first())
    }
}

proof fn lemma_default_eol_ok(ls: Seq<LineView>)
    requires
        eols_ok(ls),
    ensures
        default_eol(ls) == seq![10u8] || default_eol(ls) == seq![13u8, 10u8],
    decreases ls.len(),
{
    if ls.len() > 0 && ls[0].eol.len() == 0 {
        assert forall|i: int| 0 <= i < ls.drop_first().len() implies (
        #[trigger] ls.drop_first()[i]).eol == Seq::<u8>::empty() || ls.drop_first()[i].eol
            == seq![10u8] || ls.drop_first()[i].eol == seq![13u8, 10u8] by {
            assert(ls.drop_first()[i] == ls[i + 1]);
        }
        lemma_default_eol_ok(ls.drop_first());
    } else if ls.len() > 0 {
        assert(ls[0].eol == Seq::<u8>::empty() || ls[0].eol == seq![10u8] || ls[0].eol == seq![
            13u8,
            10u8,
        ]);
    }
}

fn first_eol(lines: &Vec<Line>) -> (r: Vec<u8>)
    ensures
        r@ == default_eol(lines@.map_values(|l: Line| l@)),
{
    let ghost lv = lines@.map_values(|l: Line| l@);
    let mut i: usize = 0;
    proof {
        assert(lv.subrange(0, lv.len() as int) =~= lv);
    }
    while i < lines.len()
        invariant
            i <= lines@.len(),
            lv == lines@.map_values(|l: Line| l@),
            default_eol(lv.subrange(i as int, lv.len() as int)) == default_eol(lv),
        decreases lines.len() - i,
    {
        proof {
            assert(lv.subrange(i as int, lv.len() as int).drop_first() =~= lv.subrange(
                i + 1,
                lv.len() as int,
            ));
        }
        if lines[i].eol.len() > 0 {
            return slice_to_vec(lines[i].eol.as_slice());
        }
        i = i + 1;
    }
    proof {
        assert(lv.subrange(i as int, lv.len() as int) =~= Seq::<LineView>::empty());
    }
    vec![10u8]
}

/// Index of the first byte `x` in `b`, or its length.
pub open spec fn byte_at(b: Seq<u8>, x: u8) -> nat
    decreases b.len(),
{
    if b.len() == 0 || b[0] == x {
        0
    } else {
        1 + byte_at(b.drop_first(), x)
    }
}

proof fn lemma_byte_at(b: Seq<u8>, x: u8)
    ensures
        byte_at(b, x) <= b.len(),
        forall|j: int| 0 <= j < byte_at(b, x) ==> #[trigger] b[j] != x,
        byte_at(b, x) < b.len() ==> b[byte_at(b, x) as int] == x,
        b.contains(x) ==> byte_at(b, x) < b.len(),
    decreases b.len(),
{
    if b.len() > 0 && b[0] != x {
        lemma_byte_at(b.drop_first(), x);
        assert forall|j: int| 0 <= j < byte_at(b, x) implies #[trigger] b[j] != x by {
            if j > 0 {
                assert(b[j] == b.drop_first()[j - 1]);
            }
        }
        if b.contains(x) {
            let k = choose|k: int| 0 <= k < b.len() && b[k] == x;
            assert(b.drop_first()[k - 1] == x);
        }
    }
}

/// Index after the blanks (spaces and tabs) starting at `k`.
pub open spec fn skip_blank(b: Seq<u8>, k: int) -> int
    decreases b.len() - k,
{
    if 0 <= k < b.len() && (b[k] == 32 || b[k] == 9) {
        skip_blank(b, k + 1)
    } else {
        k
    }
}

proof fn lemma_skip_blank(b: Seq<u8>, k: int)
    requires
        0 <= k <= b.len(),
    ensures
        k <= skip_blank(b, k) <= b.len(),
    decreases b.len() - k,
{
    if 0 <= k < b.len() && (b[k] == 32 || b[k] == 9) {
        lemma_skip_blank(b, k + 1);
    }
}

/// Where the value of a `key: value` line starts: after the first `:` and
/// the blanks that follow it.
pub open spec fn value_start(body: Seq<u8>) -> int {
    skip_blank(body, byte_at(body, 58) + 1int)
}

fn find_value_start(body: &[u8]) -> (r: usize)
    requires
        body@.contains(58u8),
    ensures
        r == value_start(body@),
        r <= body@.len(),
{
    proof {
        lemma_byte_at(body@, 58);
    }
    let mut at: usize = 0;
    while at < body.len() && body[at] != 58
        invariant
            at <= body@.len(),
            forall|j: int| 0 <= j < at ==> body@[j] != 58,
        decreases body.len() - at,
    {
        at = at + 1;
    }
    proof {
        lemma_byte_at(body@, 58);
    }
    assert(at == byte_at(body@, 58));
    at = at + 1;
    proof {
        lemma_skip_blank(body@, at as int);
    }
    while at < body.len() && (body[at] == 32 || body[at] == 9)
        invariant
            at <= body@.len(),
            skip_blank(body@, at as int) == value_start(body@),
        decreases body.len() - at,
    {
        at = at + 1;
    }
    at
}

/// `n` spaces.
pub open spec fn spaces(n: nat) -> Seq<u8> {
    Seq::new(n, |_i: int| 32u8)
}


/// Lines whose bodies are well-formed UTF-8 make well-formed UTF-8 bytes
/// (their terminators are ASCII).
proof fn lemma_lines_bytes_utf8(ls: Seq<LineView>)
    requires
        lines_utf8(ls),
        eols_ok(ls),
    ensures
        valid_utf8(lines_bytes(ls)),
    decreases ls.len(),
{
    reveal(lines_utf8);
    if ls.len() > 0 {
        let rest = ls.drop_first();
        assert forall|j: int| 0 <= j < rest.len() implies valid_utf8(#[trigger] rest[j].body) by {
            assert(rest[j] == ls[j + 1]);
        }
        assert forall|j: int| 0 <= j < rest.len() implies (#[trigger] rest[j]).eol == Seq::<u8>::empty()
            || rest[j].eol == seq![10u8] || rest[j].eol == seq![13u8, 10u8] by {
            assert(rest[j] == ls[j + 1]);
        }
        lemma_lines_bytes_utf8(rest);
        let eol = ls[0].eol;
        assert(eols_ok(ls) ==> (ls[0].eol == Seq::<u8>::empty() || ls[0].eol == seq![10u8] || ls[0].eol
            == seq![13u8, 10u8]));
        assert forall|j: int| 0 <= j < eol.len() implies #[trigger] eol[j] <= 0x7f by {}
        lemma_ascii_valid(eol);
        assert(valid_utf8(ls[0].body));
        lemma_decode_concat(ls[0].body, eol);
        lemma_decode_concat(ls[0].body + eol, lines_bytes(rest));
    }
}

pub proof fn lemma_wf(v: DocumentView)
    requires
        v.wf(),
    ensures
        v.lines.len() <= content(v).len(),
        content(v).len() <= 2 * MAX_BYTES,
        bodies_fit(v.lines),
        forall|i: int| 0 <= i < v.lines.len() ==> line_size(#[trigger] v.lines[i]) <= lines_bytes(v.lines).len(),
        nodes_ok(v.nodes, v.lines, v.lines.len()),
        v.nodes.len() <= v.lines.len(),
        v.utf8 ==> valid_utf8(lines_bytes(v.lines)),
{
    lemma_lines_bytes_bounds(v.lines);
    if v.utf8 {
        lemma_lines_bytes_utf8(v.lines);
    }
    if v.is_otui {
        lemma_index_upto(v.lines, v.utf8, v.lines.len());
    }
}

/// A byte allowed in a property key.
pub open spec fn key_byte_ok(b: u8) -> bool {
    (48 <= b <= 57) || (65 <= b <= 90) || (97 <= b <= 122) || b == 95 || b == 45 || b == 46
        || b == 33 || b == 64 || b == 42
}

/// A property key: non-empty, made of letters, digits and `_-.!@*`.
pub open spec fn valid_key(k: Seq<u8>) -> bool {
    k.len() > 0 && forall|i: int| 0 <= i < k.len() ==> key_byte_ok(#[trigger] k[i])
}

/// A property value: one line, no NUL, not blank.
pub open spec fn valid_value(v: Seq<char>) -> bool {
    !v.contains('\n') && !v.contains('\r') && !v.contains('\0') && trim(v).len() > 0
}

fn check_key(k: &[u8]) -> (r: bool)
    ensures
        r == valid_key(k@),
{
    if k.len() == 0 {
        return false;
    }
    let mut i: usize = 0;
    while i < k.len()
        invariant
            i <= k@.len(),
            forall|j: int| 0 <= j < i ==> key_byte_ok(#[trigger] k@[j]),
        decreases k.len() - i,
    {
        let b = k[i];
        if !((48 <= b && b <= 57) || (65 <= b && b <= 90) || (97 <= b && b <= 122) || b == 95 || b
            == 45 || b == 46 || b == 33 || b == 64 || b == 42) {
            assert(!key_byte_ok(k@[i as int]));
            return false;
        }
        i = i + 1;
    }
    true
}

fn check_value(v: &str) -> (r: bool)
    ensures
        r == valid_value(v@),
{
    let c = chars_of(v);
    if contains_char(&c, '\n') || contains_char(&c, '\r') || contains_char(&c, '\0') {
        return false;
    }
    let (a, b) = trim_bounds(&c);
    a < b
}

/// The refusal of an invalid key or value.
pub open spec fn msg_invalid() -> Seq<char> {
    "Propriedade ou valor inválido."@
}

/// The refusal of a structural edit in a document with tab indentation.
pub open spec fn msg_tabs() -> Seq<char> {
    "Resolva a indentação com tabulações no código."@
}

/// The refusal of text that the document's encoding cannot hold.
pub open spec fn msg_encoding() -> Seq<char> {
    "Caractere não representável em Windows-1252."@
}

/// The refusal of an edit that would make the document too large.
pub open spec fn msg_too_big() -> Seq<char> {
    "Documento excederia 8 MiB."@
}

/// How many bytes `set` adds when it inserts a line for a new property of
/// `node`: the line itself (indentation, key, `": "`, value, terminator) and
/// the terminator given to the node's line when it had none.
pub open spec fn inserted_size(v: DocumentView, node: NodeView, kb: Seq<u8>, data: Seq<u8>) -> nat {
    let eol = default_eol(v.lines);
    (if v.lines[node.line as int].eol.len() == 0 {
        eol.len()
    } else {
        0nat
    }) + node.indent as nat + 4 + kb.len() + data.len() + eol.len()
}

/// The new lines that `set` writes, or the message with which it refuses.
pub open spec fn set_outcome(v: DocumentView, n: int, key: Seq<char>, val: Seq<char>) -> Result<
    Seq<LineView>,
    Seq<char>,
> {
    let kb = encode_utf8(key);
    if has_tab_issue(v) {
        Err(msg_tabs())
    } else if !valid_key(kb) || !valid_value(val) {
        Err(msg_invalid())
    } else if !(0 <= n < v.nodes.len()) {
        Err("Selecione um elemento."@)
    } else if encoded(v.utf8, val) is None {
        Err(msg_encoding())
    } else {
        let data = encoded(v.utf8, val)->0;
        let node = v.nodes[n];
        let props = node.properties;
        if content(v).len() + data.len() + kb.len() + 64 > MAX_BYTES {
            Err(msg_too_big())
        } else if key_count(props, key) > 1 {
            Err("Propriedade duplicada; resolva no código."@)
        } else if key_count(props, key) == 1 {
            let p = props[first_key(props, key)->0];
            let l = v.lines[p.line as int];
            if p.block {
                Err("Bloco composto: use Código."@)
            } else {
                Ok(
                    v.lines.update(
                        p.line as int,
                        LineView { body: l.body.subrange(0, value_start(l.body)) + data, eol: l.eol },
                    ),
                )
            }
        } else if content(v).len() + inserted_size(v, node, kb, data) > MAX_BYTES {
            Err(msg_too_big())
        } else {
            let eol = default_eol(v.lines);
            let l = node.line as int;
            let lines1 = if v.lines[l].eol.len() == 0 {
                v.lines.update(l, LineView { eol, ..v.lines[l] })
            } else {
                v.lines
            };
            Ok(
                lines1.insert(
                    l + 1,
                    LineView {
                        body: spaces((node.indent + 2) as nat) + kb + seq![58u8, 32u8] + data,
                        eol,
                    },
                ),
            )
        }
    }
}

/// The document with new lines, re-indexed.
pub open spec fn with_lines(v: DocumentView, lines: Seq<LineView>) -> DocumentView {
    DocumentView { lines, ..v }.reindexed()
}

impl Document {
    fn swap_line_body(&mut self, i: usize, body: &mut Vec<u8>)
        requires
            i < old(self).lines@.len(),
        ensures
            *final(body) == old(self).lines@[i as int].body,
            final(self).lines@ == old(self).lines@.update(
                i as int,
                Line { body: *old(body), eol: old(self).lines@[i as int].eol },
            ),
            final(self).nodes == old(self).nodes,
            final(self).issues == old(self).issues,
            final(self).bom == old(self).bom,
            final(self).utf8 == old(self).utf8,
            final(self).saved == old(self).saved,
            final(self).is_otui == old(self).is_otui,
            final(self).path == old(self).path,
    {
        let mut tmp = Line { body: Vec::new(), eol: Vec::new() };
        self.lines.set_and_swap(i, &mut tmp);
        std::mem::swap(&mut tmp.body, body);
        self.lines.set_and_swap(i, &mut tmp);
    }

    /// Sets property `key` of node `n` to `val`: rewrites only the value
    /// bytes of an existing single property, or inserts a new property line
    /// right after the node's line.
    #[verifier::rlimit(60)]
    pub fn set(&mut self, n: usize, key: &str, val: &str) -> (r: Result<(), String>)
        requires
            old(self)@.wf(),
        ensures
            final(self)@.wf(),
            final(self).path_value() == old(self).path_value(),
            match set_outcome(old(self)@, n as int, key@, val@) {
                Ok(ls) => r is Ok && final(self)@ == with_lines(old(self)@, ls),
                Err(m) => r matches Err(e) && e@ == m && final(self)@ == old(self)@,
            },
    {
        let ghost v = self@;
        proof {
            lemma_wf(v);
        }
        match self.structural() {
            Ok(_) => {},
            Err(e) => return Err(e),
        }
        let kb = key.as_bytes();
        if !check_key(kb) || !check_value(val) {
            return Err(String::from_str("Propriedade ou valor inválido."));
        }
        if n >= self.nodes.len() {
            return Err(String::from_str("Selecione um elemento."));
        }
        let data = match self.encode(val) {
            Ok(d) => d,
            Err(e) => return Err(e),
        };
        let total = self.bytes().len();
        let indent = self.nodes[n].indent;
        proof {
            assert(v.nodes[n as int] == self.nodes@[n as int]@);
        }
        if (total as u128) + (data.len() as u128) + (kb.len() as u128) + 64 > (MAX_BYTES as u128) {
            return Err(String::from_str("Documento excederia 8 MiB."));
        }
        let key_s = String::from_str(key);
        let (count, first) = scan_key(&self.nodes[n].properties, &key_s);
        let ghost props = v.nodes[n as int].properties;
        proof {
            assert(props == prop_views(self.nodes@[n as int].properties@));
            lemma_first_key(props, key@);
            lemma_key_count_positive(props, key@);
        }
        if count > 1 {
            return Err(String::from_str("Propriedade duplicada; resolva no código."));
        }
        let ghost node = v.nodes[n as int];
        assert(node_ok(node, n as int, v.lines, v.lines.len()));
        match first {
            Some(q) => {
                let plen = self.nodes[n].properties.len();
                assert(q < plen);
                let p = &self.nodes[n].properties[q];
                assert(p@ == props[q as int]);
                if p.block {
                    return Err(String::from_str("Bloco composto: use Código."));
                }
                let line_no = p.line;
                assert(line_no < v.lines.len());
                assert(v.lines[line_no as int].body.contains(58u8));
                let mut body: Vec<u8> = Vec::new();
                self.swap_line_body(line_no, &mut body);
                let at = find_value_start(body.as_slice());
                body.truncate(at);
                append_bytes(&mut body, data.as_slice());
                self.swap_line_body(line_no, &mut body);
                proof {
                    let nl = LineView {
                        body: v.lines[line_no as int].body.subrange(0, value_start(v.lines[line_no as int].body)) + data@,
                        eol: v.lines[line_no as int].eol,
                    };
                    let ls = v.lines.update(line_no as int, nl);
                    assert(self@.lines =~= ls);
                    lemma_byte_at(v.lines[line_no as int].body, 58);
                    lemma_skip_blank(v.lines[line_no as int].body, byte_at(v.lines[line_no as int].body, 58) + 1int);
                    assert(nl.body.len() > 0);
                    lemma_lines_update(v.lines, line_no as int, nl);
                    assert(lines_nonempty(ls)) by {
                        assert forall|i: int| 0 <= i < ls.len() implies (#[trigger] ls[i]).body.len() + ls[i].eol.len() > 0 by {
                            if i != line_no {
                                assert(ls[i] == v.lines[i]);
                            }
                        }
                    }
                    assert(eols_ok(ls)) by {
                        assert forall|i: int| 0 <= i < ls.len() implies (#[trigger] ls[i]).eol == Seq::<u8>::empty() || ls[i].eol == seq![10u8] || ls[i].eol == seq![13u8, 10u8] by {
                            assert(ls[i].eol == v.lines[i].eol);
                        }
                    }
                }
            },
            None => {
                let l = self.nodes[n].line;
                let indent = self.nodes[n].indent;
                let eol = first_eol(&self.lines);
                proof {
                    lemma_default_eol_ok(v.lines);
                    lemma_lead_spaces(v.lines[l as int].body);
                }
                let added: u128 = if self.lines[l].eol.len() == 0 {
                    eol.len() as u128
                } else {
                    0
                };
                if (total as u128) + added + (indent as u128) + 4 + (kb.len() as u128) + (data.len() as u128)
                    + (eol.len() as u128) > (MAX_BYTES as u128) {
                    return Err(String::from_str("Documento excederia 8 MiB."));
                }
                let ghost lines1 = if v.lines[l as int].eol.len() == 0 {
                    v.lines.update(l as int, LineView { eol: eol@, ..v.lines[l as int] })
                } else {
                    v.lines
                };
                if self.lines[l].eol.len() == 0 {
                    let mut tmp = Line { body: Vec::new(), eol: Vec::new() };
                    self.lines.set_and_swap(l, &mut tmp);
                    tmp.eol = slice_to_vec(eol.as_slice());
                    self.lines.set_and_swap(l, &mut tmp);
                    proof {
                        lemma_lines_update(v.lines, l as int, LineView { eol: eol@, ..v.lines[l as int] });
                    }
                }
                assert(self.lines@.map_values(|x: Line| x@) =~= lines1);
                let mut body = vec![32u8; indent + 2];
                proof {
                    assert(body@ =~= spaces((indent + 2) as nat));
                }
                append_bytes(&mut body, kb);
                body.push(58);
                body.push(32);
                append_bytes(&mut body, data.as_slice());
                let nl = Line { body, eol };
                let ghost nlv = nl@;
                proof {
                    assert(nlv.body =~= spaces((indent + 2) as nat) + encode_utf8(key@) + seq![58u8, 32u8] + data@);
                }
                self.lines.insert(l + 1, nl);
                proof {
                    let ls = lines1.insert(l + 1, nlv);
                    assert(self@.lines =~= ls);
                    lemma_lines_insert(lines1, l + 1, nlv);
                    assert(lines_nonempty(ls)) by {
                        assert forall|i: int| 0 <= i < ls.len() implies (#[trigger] ls[i]).body.len() + ls[i].eol.len() > 0 by {
                            if i < l + 1 {
                                assert(ls[i] == lines1[i]);
                                assert(lines1[i].body.len() + lines1[i].eol.len() >= v.lines[i].body.len() + v.lines[i].eol.len());
                            } else if i > l + 1 {
                                assert(ls[i] == lines1[i - 1]);
                                assert(lines1[i - 1].body.len() + lines1[i - 1].eol.len() >= v.lines[i - 1].body.len() + v.lines[i - 1].eol.len());
                            }
                        }
                    }
                    assert(eols_ok(ls)) by {
                        assert forall|i: int| 0 <= i < ls.len() implies (#[trigger] ls[i]).eol == Seq::<u8>::empty() || ls[i].eol == seq![10u8] || ls[i].eol == seq![13u8, 10u8] by {
                            if i < l + 1 {
                                assert(ls[i] == lines1[i]);
                                assert(lines1[i].eol == v.lines[i].eol || lines1[i].eol == eol@);
                            } else if i > l + 1 {
                                assert(ls[i] == lines1[i - 1]);
                                assert(lines1[i - 1].eol == v.lines[i - 1].eol || lines1[i - 1].eol == eol@);
                            }
                        }
                    }
                    assert(line_size(v.lines[l as int]) <= lines_bytes(v.lines).len());
                }
            },
        }
        proof {
            lemma_set_lines_utf8(v, n as int, key@, val@);
        }
        self.index();
        Ok(())
    }
}


/// A widget type or id: non-empty ASCII letters, `_` and (not first) digits.
pub open spec fn valid_name(b: Seq<u8>) -> bool {
    b.len() > 0 && forall|i: int|
        0 <= i < b.len() ==> ((65 <= #[trigger] b[i] <= 90) || (97 <= b[i] <= 122) || b[i] == 95
            || (i > 0 && 48 <= b[i] <= 57))
}

fn check_name(b: &[u8]) -> (r: bool)
    ensures
        r == valid_name(b@),
{
    if b.len() == 0 {
        return false;
    }
    let mut i: usize = 0;
    while i < b.len()
        invariant
            i <= b@.len(),
            forall|j: int|
                0 <= j < i ==> ((65 <= #[trigger] b@[j] <= 90) || (97 <= b@[j] <= 122) || b@[j]
                    == 95 || (j > 0 && 48 <= b@[j] <= 57)),
        decreases b.len() - i,
    {
        let c = b[i];
        if !((65 <= c && c <= 90) || (97 <= c && c <= 122) || c == 95 || (i > 0 && 48 <= c && c
            <= 57)) {
            return false;
        }
        i = i + 1;
    }
    true
}

/// Whether some node already has the id.
pub open spec fn id_taken(v: DocumentView, id: Seq<char>) -> bool {
    exists|n: int| 0 <= n < v.nodes.len() && #[trigger] node_value(v, n, "id"@) == id
}

/// The bytes `"id: "`.
pub open spec fn id_prefix() -> Seq<u8> {
    seq![105u8, 100u8, 58u8, 32u8]
}

/// The bytes `"size: 120 32"`.
pub open spec fn size_line() -> Seq<u8> {
    seq![115u8, 105u8, 122u8, 101u8, 58u8, 32u8, 49u8, 50u8, 48u8, 32u8, 51u8, 50u8]
}

/// Where `add` inserts and how deep it indents: at the end of the parent's
/// block, two spaces deeper than the parent; else at the end, unindented.
pub open spec fn add_place(v: DocumentView, parent: Option<usize>) -> (int, nat) {
    match parent {
        Some(p) => (v.nodes[p as int].end as int, (v.nodes[p as int].indent + 2) as nat),
        None => (v.lines.len() as int, 0),
    }
}

/// Why `add` refuses, if it does.
pub open spec fn add_refusal(v: DocumentView, parent: Option<usize>, kind: Seq<char>, id: Seq<char>) -> Option<Seq<char>> {
    let kb = encode_utf8(kind);
    let ib = encode_utf8(id);
    if has_tab_issue(v) {
        Some(msg_tabs())
    } else if !valid_name(kb) || !valid_name(ib) {
        Some("Tipo ou ID inválido."@)
    } else if id_taken(v, id) {
        Some("ID já existe."@)
    } else if parent is Some && !(parent->0 < v.nodes.len()) {
        Some("Pai inválido."@)
    } else if parent is Some && !v.nodes[parent->0 as int].widget {
        Some("Selecione um widget como pai."@)
    } else if content(v).len() + add_place(v, parent).1 * 3 + ib.len() + kb.len() + 80 > MAX_BYTES {
        Some(msg_too_big())
    } else {
        None
    }
}

/// The lines after inserting the three lines of a new widget at `at`.
pub open spec fn add_lines(v: DocumentView, at: int, indent: nat, kb: Seq<u8>, ib: Seq<u8>) -> Seq<LineView> {
    let eol = default_eol(v.lines);
    let lines1 = if at > 0 && v.lines[at - 1].eol.len() == 0 {
        v.lines.update(at - 1, LineView { eol, ..v.lines[at - 1] })
    } else {
        v.lines
    };
    lines1.insert(at, LineView { body: spaces(indent) + kb, eol }).insert(
        at + 1,
        LineView { body: spaces(indent + 2) + id_prefix() + ib, eol },
    ).insert(at + 2, LineView { body: spaces(indent + 2) + size_line(), eol })
}

proof fn lemma_add_lines(v: DocumentView, at: int, indent: nat, kb: Seq<u8>, ib: Seq<u8>)
    requires
        v.wf(),
        0 <= at <= v.lines.len(),
        content(v).len() + indent * 3 + ib.len() + kb.len() + 80 <= MAX_BYTES,
    ensures
        lines_nonempty(add_lines(v, at, indent, kb, ib)),
        eols_ok(add_lines(v, at, indent, kb, ib)),
        lines_bytes(add_lines(v, at, indent, kb, ib)).len() <= lines_bytes(v.lines).len() + indent * 3
            + ib.len() + kb.len() + 80,
        valid_name(kb) && valid_name(ib) && lines_utf8(v.lines) ==> lines_utf8(
            add_lines(v, at, indent, kb, ib),
        ),
{
    let eol = default_eol(v.lines);
    lemma_default_eol_ok(v.lines);
    if valid_name(kb) && valid_name(ib) {
        let b1 = spaces(indent) + kb;
        let b2 = spaces(indent + 2) + id_prefix() + ib;
        let b3 = spaces(indent + 2) + size_line();
        assert forall|j: int| 0 <= j < b1.len() implies #[trigger] b1[j] <= 0x7f by {
            if j >= indent {
                assert(b1[j] == kb[j - indent]);
            }
        }
        assert forall|j: int| 0 <= j < b2.len() implies #[trigger] b2[j] <= 0x7f by {
            if j >= indent + 6 {
                assert(b2[j] == ib[j - indent - 6]);
            }
        }
        assert forall|j: int| 0 <= j < b3.len() implies #[trigger] b3[j] <= 0x7f by {}
        lemma_ascii_valid(b1);
        lemma_ascii_valid(b2);
        lemma_ascii_valid(b3);
    }
    let lines1 = if at > 0 && v.lines[at - 1].eol.len() == 0 {
        v.lines.update(at - 1, LineView { eol, ..v.lines[at - 1] })
    } else {
        v.lines
    };
    if at > 0 && v.lines[at - 1].eol.len() == 0 {
        lemma_lines_ok_update(v.lines, at - 1, LineView { eol, ..v.lines[at - 1] });
    }
    let x1 = LineView { body: spaces(indent) + kb, eol };
    let x2 = LineView { body: spaces(indent + 2) + id_prefix() + ib, eol };
    let x3 = LineView { body: spaces(indent + 2) + size_line(), eol };
    lemma_lines_ok_insert(lines1, at, x1);
    lemma_lines_ok_insert(lines1.insert(at, x1), at + 1, x2);
    lemma_lines_ok_insert(lines1.insert(at, x1).insert(at + 1, x2), at + 2, x3);
}

/// The new lines that `add` writes, or the message with which it refuses.
pub open spec fn add_outcome(v: DocumentView, parent: Option<usize>, kind: Seq<char>, id: Seq<char>) -> Result<
    Seq<LineView>,
    Seq<char>,
> {
    match add_refusal(v, parent, kind, id) {
        Some(m) => Err(m),
        None => Ok(add_lines(v, add_place(v, parent).0, add_place(v, parent).1, encode_utf8(kind), encode_utf8(id))),
    }
}

/// The lines that `remove` drops end here: trailing blank and comment lines
/// of a widget stay in place.
pub open spec fn widget_end(ls: Seq<LineView>, utf8: bool, start: int, end: int) -> int
    decreases end,
{
    if end > start + 1 && 0 < end <= ls.len() && is_comment(trim(line_text(ls[end - 1].body, utf8))) {
        widget_end(ls, utf8, start, end - 1)
    } else {
        end
    }
}

proof fn lemma_widget_end(ls: Seq<LineView>, utf8: bool, start: int, end: int)
    requires
        0 <= start < end <= ls.len(),
    ensures
        start < widget_end(ls, utf8, start, end) <= end,
    decreases end,
{
    if end > start + 1 && 0 < end <= ls.len() && is_comment(trim(line_text(ls[end - 1].body, utf8))) {
        lemma_widget_end(ls, utf8, start, end - 1);
    }
}

/// The new lines that `remove_property` leaves, or its refusal.
pub open spec fn remove_property_outcome(v: DocumentView, n: int, key: Seq<char>) -> Result<
    Seq<LineView>,
    Seq<char>,
> {
    if has_tab_issue(v) {
        Err(msg_tabs())
    } else if !(0 <= n < v.nodes.len()) {
        Err("Seleção inválida."@)
    } else if key_count(v.nodes[n].properties, key) != 1 {
        Err("Propriedade ausente ou duplicada."@)
    } else if v.nodes[n].properties[first_key(v.nodes[n].properties, key)->0].block {
        Err("Remova blocos compostos no código."@)
    } else {
        Ok(v.lines.remove(v.nodes[n].properties[first_key(v.nodes[n].properties, key)->0].line as int))
    }
}

/// The new lines that `remove` leaves, or its refusal.
pub open spec fn remove_outcome(v: DocumentView, n: int) -> Result<Seq<LineView>, Seq<char>> {
    if has_tab_issue(v) {
        Err(msg_tabs())
    } else if !(0 <= n < v.nodes.len()) {
        Err("Seleção inválida."@)
    } else if !v.nodes[n].widget {
        Err("Selecione um widget."@)
    } else {
        let start = v.nodes[n].line as int;
        let end = widget_end(v.lines, v.utf8, start, v.nodes[n].end as int);
        Ok(v.lines.subrange(0, start) + v.lines.subrange(end, v.lines.len() as int))
    }
}

proof fn lemma_lines_ok_sub(ls: Seq<LineView>, a: int, b: int)
    requires
        0 <= a <= b <= ls.len(),
        lines_nonempty(ls),
        eols_ok(ls),
    ensures
        lines_nonempty(ls.subrange(a, b)),
        eols_ok(ls.subrange(a, b)),
        lines_bytes(ls.subrange(a, b)).len() <= lines_bytes(ls).len(),
        lines_utf8(ls) ==> lines_utf8(ls.subrange(a, b)),
{
    let s = ls.subrange(a, b);
    reveal(lines_utf8);
    assert forall|i: int| 0 <= i < s.len() && lines_utf8(ls) implies valid_utf8(#[trigger] s[i].body) by {
        assert(s[i] == ls[a + i]);
    }
    assert forall|i: int| 0 <= i < s.len() implies (#[trigger] s[i]).body.len() + s[i].eol.len() > 0 by {
        assert(s[i] == ls[a + i]);
    }
    assert forall|i: int| 0 <= i < s.len() implies (#[trigger] s[i]).eol == Seq::<u8>::empty() || s[i].eol == seq![10u8] || s[i].eol == seq![13u8, 10u8] by {
        assert(s[i] == ls[a + i]);
    }
    assert(ls =~= ls.subrange(0, a) + (s + ls.subrange(b, ls.len() as int)));
    lemma_lines_bytes_concat(ls.subrange(0, a), s + ls.subrange(b, ls.len() as int));
    lemma_lines_bytes_concat(s, ls.subrange(b, ls.len() as int));
}

proof fn lemma_lines_ok_concat(a: Seq<LineView>, b: Seq<LineView>)
    requires
        lines_nonempty(a),
        eols_ok(a),
        lines_nonempty(b),
        eols_ok(b),
    ensures
        lines_nonempty(a + b),
        eols_ok(a + b),
        lines_bytes(a + b).len() == lines_bytes(a).len() + lines_bytes(b).len(),
        lines_utf8(a) && lines_utf8(b) ==> lines_utf8(a + b),
{
    let s = a + b;
    reveal(lines_utf8);
    assert forall|i: int| 0 <= i < s.len() && lines_utf8(a) && lines_utf8(b) implies valid_utf8(#[trigger] s[i].body) by {
        if i < a.len() {
            assert(s[i] == a[i]);
        } else {
            assert(s[i] == b[i - a.len()]);
        }
    }
    assert forall|i: int| 0 <= i < s.len() implies (#[trigger] s[i]).body.len() + s[i].eol.len() > 0 by {
        if i < a.len() {
            assert(s[i] == a[i]);
        } else {
            assert(s[i] == b[i - a.len()]);
        }
    }
    assert forall|i: int| 0 <= i < s.len() implies (#[trigger] s[i]).eol == Seq::<u8>::empty() || s[i].eol == seq![10u8] || s[i].eol == seq![13u8, 10u8] by {
        if i < a.len() {
            assert(s[i] == a[i]);
        } else {
            assert(s[i] == b[i - a.len()]);
        }
    }
    lemma_lines_bytes_concat(a, b);
}

impl Document {
    /// Removes property `key` of node `n` (its whole line).
    pub fn remove_property(&mut self, n: usize, key: &str) -> (r: Result<(), String>)
        requires
            old(self)@.wf(),
        ensures
            final(self)@.wf(),
            final(self).path_value() == old(self).path_value(),
            match remove_property_outcome(old(self)@, n as int, key@) {
                Ok(ls) => r is Ok && final(self)@ == with_lines(old(self)@, ls),
                Err(m) => r matches Err(e) && e@ == m && final(self)@ == old(self)@,
            },
    {
        let ghost v = self@;
        proof {
            lemma_wf(v);
        }
        match self.structural() {
            Ok(_) => {},
            Err(e) => return Err(e),
        }
        if n >= self.nodes.len() {
            return Err(String::from_str("Seleção inválida."));
        }
        let key_s = String::from_str(key);
        let (count, first) = scan_key(&self.nodes[n].properties, &key_s);
        let ghost props = v.nodes[n as int].properties;
        proof {
            assert(props == prop_views(self.nodes@[n as int].properties@));
            lemma_first_key(props, key@);
            lemma_key_count_positive(props, key@);
        }
        if count != 1 {
            return Err(String::from_str("Propriedade ausente ou duplicada."));
        }
        let q = match first {
            Some(q) => q,
            None => return Err(String::from_str("Propriedade ausente ou duplicada.")),
        };
        let plen = self.nodes[n].properties.len();
        assert(q < plen);
        assert(self.nodes[n as int].properties@[q as int]@ == props[q as int]);
        if self.nodes[n].properties[q].block {
            return Err(String::from_str("Remova blocos compostos no código."));
        }
        let line = self.nodes[n].properties[q].line;
        assert(node_ok(v.nodes[n as int], n as int, v.lines, v.lines.len()));
        let _removed = self.lines.remove(line);
        proof {
            let ls = v.lines.remove(line as int);
            assert(self@.lines =~= ls);
            lemma_lines_remove(v.lines, line as int);
            assert(ls =~= v.lines.subrange(0, line as int) + v.lines.subrange(line + 1, v.lines.len() as int));
            lemma_lines_ok_sub(v.lines, 0, line as int);
            lemma_lines_ok_sub(v.lines, line + 1, v.lines.len() as int);
            lemma_lines_ok_concat(v.lines.subrange(0, line as int), v.lines.subrange(line + 1, v.lines.len() as int));
        }
        self.index();
        Ok(())
    }

    /// Removes widget `n` with its children (its trailing blank and comment
    /// lines stay).
    pub fn remove(&mut self, n: usize) -> (r: Result<(), String>)
        requires
            old(self)@.wf(),
        ensures
            final(self)@.wf(),
            final(self).path_value() == old(self).path_value(),
            match remove_outcome(old(self)@, n as int) {
                Ok(ls) => r is Ok && final(self)@ == with_lines(old(self)@, ls),
                Err(m) => r matches Err(e) && e@ == m && final(self)@ == old(self)@,
            },
    {
        let ghost v = self@;
        proof {
            lemma_wf(v);
        }
        match self.structural() {
            Ok(_) => {},
            Err(e) => return Err(e),
        }
        if n >= self.nodes.len() {
            return Err(String::from_str("Seleção inválida."));
        }
        if !self.nodes[n].widget {
            return Err(String::from_str("Selecione um widget."));
        }
        let start = self.nodes[n].line;
        let mut end = self.nodes[n].end;
        assert(node_ok(v.nodes[n as int], n as int, v.lines, v.lines.len()));
        proof {
            lemma_widget_end(v.lines, v.utf8, start as int, end as int);
        }
        while end > start + 1
            invariant
                v == self@,
                start < end <= v.lines.len(),
                widget_end(v.lines, v.utf8, start as int, end as int) == widget_end(
                    v.lines,
                    v.utf8,
                    start as int,
                    v.nodes[n as int].end as int,
                ),
            ensures
                start < end <= v.lines.len(),
                end == widget_end(v.lines, v.utf8, start as int, v.nodes[n as int].end as int),
            decreases end,
        {
            let full = decode_line(self.lines[end - 1].body.as_slice(), self.utf8);
            let t = trimmed(&full);
            assert(self.lines@[end - 1]@ == v.lines[end - 1]);
            if comment_line(&t) {
                end = end - 1;
            } else {
                break;
            }
        }
        let mut tail = self.lines.split_off(end);
        self.lines.truncate(start);
        self.lines.append(&mut tail);
        proof {
            let ls = v.lines.subrange(0, start as int) + v.lines.subrange(end as int, v.lines.len() as int);
            assert(self@.lines =~= ls);
            lemma_lines_ok_sub(v.lines, 0, start as int);
            lemma_lines_ok_sub(v.lines, end as int, v.lines.len() as int);
            lemma_lines_ok_concat(v.lines.subrange(0, start as int), v.lines.subrange(end as int, v.lines.len() as int));
            assert(v.lines =~= v.lines.subrange(0, start as int) + v.lines.subrange(start as int, v.lines.len() as int));
            lemma_lines_bytes_concat(v.lines.subrange(0, start as int), v.lines.subrange(start as int, v.lines.len() as int));
            lemma_lines_ok_sub(v.lines.subrange(start as int, v.lines.len() as int), end - start, v.lines.len() - start);
            assert(v.lines.subrange(start as int, v.lines.len() as int).subrange(end - start, v.lines.len() - start) =~= v.lines.subrange(end as int, v.lines.len() as int));
        }
        self.index();
        Ok(())
    }
}


fn push_all(out: &mut Vec<u8>, src: &[u8])
    ensures
        final(out)@ == old(out)@ + src@,
{
    append_bytes(out, src);
}

proof fn lemma_lines_ok_insert(ls: Seq<LineView>, i: int, x: LineView)
    requires
        0 <= i <= ls.len(),
        lines_nonempty(ls),
        eols_ok(ls),
        x.body.len() + x.eol.len() > 0,
        x.eol == Seq::<u8>::empty() || x.eol == seq![10u8] || x.eol == seq![13u8, 10u8],
    ensures
        lines_nonempty(ls.insert(i, x)),
        eols_ok(ls.insert(i, x)),
        lines_bytes(ls.insert(i, x)).len() == lines_bytes(ls).len() + line_size(x),
        lines_utf8(ls) && valid_utf8(x.body) ==> lines_utf8(ls.insert(i, x)),
{
    let s = ls.insert(i, x);
    reveal(lines_utf8);
    assert forall|j: int| 0 <= j < s.len() && lines_utf8(ls) && valid_utf8(x.body) implies valid_utf8(#[trigger] s[j].body) by {
        if j < i {
            assert(s[j] == ls[j]);
        } else if j > i {
            assert(s[j] == ls[j - 1]);
        }
    }
    assert forall|j: int| 0 <= j < s.len() implies (#[trigger] s[j]).body.len() + s[j].eol.len() > 0 by {
        if j < i {
            assert(s[j] == ls[j]);
        } else if j > i {
            assert(s[j] == ls[j - 1]);
        }
    }
    assert forall|j: int| 0 <= j < s.len() implies (#[trigger] s[j]).eol == Seq::<u8>::empty() || s[j].eol == seq![10u8] || s[j].eol == seq![13u8, 10u8] by {
        if j < i {
            assert(s[j] == ls[j]);
        } else if j > i {
            assert(s[j] == ls[j - 1]);
        }
    }
    lemma_lines_insert(ls, i, x);
}

proof fn lemma_lines_ok_update(ls: Seq<LineView>, i: int, x: LineView)
    requires
        0 <= i < ls.len(),
        lines_nonempty(ls),
        eols_ok(ls),
        x.body.len() + x.eol.len() > 0,
        x.eol == Seq::<u8>::empty() || x.eol == seq![10u8] || x.eol == seq![13u8, 10u8],
    ensures
        lines_nonempty(ls.update(i, x)),
        eols_ok(ls.update(i, x)),
        lines_bytes(ls.update(i, x)).len() + line_size(ls[i]) == lines_bytes(ls).len() + line_size(x),
        lines_utf8(ls) && (valid_utf8(x.body) || x.body == ls[i].body) ==> lines_utf8(ls.update(i, x)),
{
    let s = ls.update(i, x);
    reveal(lines_utf8);
    assert forall|j: int| 0 <= j < s.len() && lines_utf8(ls) && (valid_utf8(x.body) || x.body == ls[i].body) implies valid_utf8(#[trigger] s[j].body) by {
        if j != i {
            assert(s[j] == ls[j]);
        }
    }
    assert forall|j: int| 0 <= j < s.len() implies (#[trigger] s[j]).body.len() + s[j].eol.len() > 0 by {
        if j != i {
            assert(s[j] == ls[j]);
        }
    }
    assert forall|j: int| 0 <= j < s.len() implies (#[trigger] s[j]).eol == Seq::<u8>::empty() || s[j].eol == seq![10u8] || s[j].eol == seq![13u8, 10u8] by {
        if j != i {
            assert(s[j] == ls[j]);
        }
    }
    lemma_lines_update(ls, i, x);
}

/// The three lines of a new widget.
fn widget_lines(indent: usize, kb: &[u8], ib: &[u8], eol: Vec<u8>) -> (r: (Line, Line, Line))
    requires
        indent + 2 <= usize::MAX,
    ensures
        r.0@ == (LineView { body: spaces(indent as nat) + kb@, eol: eol@ }),
        r.1@ == (LineView { body: spaces((indent + 2) as nat) + id_prefix() + ib@, eol: eol@ }),
        r.2@ == (LineView { body: spaces((indent + 2) as nat) + size_line(), eol: eol@ }),
{
    let mut b1 = vec![32u8; indent];
    proof {
        assert(b1@ =~= spaces(indent as nat));
    }
    push_all(&mut b1, kb);
    let mut b2 = vec![32u8; indent + 2];
    proof {
        assert(b2@ =~= spaces((indent + 2) as nat));
    }
    let idp = vec![105u8, 100u8, 58u8, 32u8];
    push_all(&mut b2, idp.as_slice());
    push_all(&mut b2, ib);
    let mut b3 = vec![32u8; indent + 2];
    proof {
        assert(b3@ =~= spaces((indent + 2) as nat));
    }
    let sz = vec![115u8, 105u8, 122u8, 101u8, 58u8, 32u8, 49u8, 50u8, 48u8, 32u8, 51u8, 50u8];
    push_all(&mut b3, sz.as_slice());
    proof {
        assert(idp@ =~= id_prefix());
        assert(sz@ =~= size_line());
        assert(b2@ =~= spaces((indent + 2) as nat) + id_prefix() + ib@);
    }
    (
        Line { body: b1, eol: slice_to_vec(eol.as_slice()) },
        Line { body: b2, eol: slice_to_vec(eol.as_slice()) },
        Line { body: b3, eol },
    )
}

impl Document {
    /// Gives line `i` the terminator `eol` if it has none.
    fn terminate_line(&mut self, i: usize, eol: &Vec<u8>)
        requires
            i < old(self)@.lines.len(),
            lines_nonempty(old(self)@.lines),
            eols_ok(old(self)@.lines),
            eol@ == seq![10u8] || eol@ == seq![13u8, 10u8],
        ensures
            final(self)@ == (DocumentView {
                lines: if old(self)@.lines[i as int].eol.len() == 0 {
                    old(self)@.lines.update(i as int, LineView { eol: eol@, ..old(self)@.lines[i as int] })
                } else {
                    old(self)@.lines
                },
                ..old(self)@
            }),
            lines_nonempty(final(self)@.lines),
            eols_ok(final(self)@.lines),
            lines_bytes(final(self)@.lines).len() <= lines_bytes(old(self)@.lines).len() + 2,
            final(self).path_value() == old(self).path_value(),
    {
        if self.lines[i].eol.len() == 0 {
            let ghost v = self@;
            let mut tmp = Line { body: Vec::new(), eol: Vec::new() };
            self.lines.set_and_swap(i, &mut tmp);
            tmp.eol = slice_to_vec(eol.as_slice());
            self.lines.set_and_swap(i, &mut tmp);
            proof {
                lemma_lines_ok_update(v.lines, i as int, LineView { eol: eol@, ..v.lines[i as int] });
                assert(self@.lines =~= v.lines.update(i as int, LineView { eol: eol@, ..v.lines[i as int] }));
            }
        }
    }

    /// Whether some node already has the id.
    #[verifier::rlimit(30)]
    fn id_in_use(&self, id: &str) -> (r: bool)
        ensures
            r == id_taken(self@, id@),
    {
        let idc = chars_of(id);
        let mut k: usize = 0;
        let n = self.nodes.len();
        proof {
            assert(self@.nodes.len() == n);
        }
        while k < n
            invariant
                idc@ == id@,
                n == self@.nodes.len(),
                k <= self@.nodes.len(),
                forall|j: int| 0 <= j < k ==> #[trigger] node_value(self@, j, "id"@) != id@,
            decreases n - k,
        {
            let cur = chars_of(self.value(k, "id"));
            if same_chars(&cur, &idc) {
                assert(node_value(self@, k as int, "id"@) == id@);
                return true;
            }
            k = k + 1;
        }
        false
    }

    /// Runs the checks of `add` and finds where it inserts.
    fn add_checks(&self, parent: Option<usize>, kind: &str, id: &str) -> (r: Result<(usize, usize), String>)
        requires
            self@.wf(),
        ensures
            match add_refusal(self@, parent, kind@, id@) {
                Some(m) => r matches Err(e) && e@ == m,
                None => r matches Ok(p) && p.0 == add_place(self@, parent).0 && p.1 == add_place(self@, parent).1
                    && p.0 <= self@.lines.len() && p.1 <= lines_bytes(self@.lines).len() + 2,
            },
    {
        let ghost v = self@;
        proof {
            lemma_wf(v);
        }
        match self.structural() {
            Ok(_) => {},
            Err(e) => return Err(e),
        }
        let kb = kind.as_bytes();
        let ib = id.as_bytes();
        if !check_name(kb) || !check_name(ib) {
            return Err(String::from_str("Tipo ou ID inválido."));
        }
        if self.id_in_use(id) {
            return Err(String::from_str("ID já existe."));
        }
        let (at, indent) = match parent {
            Some(p) => {
                if p >= self.nodes.len() {
                    return Err(String::from_str("Pai inválido."));
                }
                if !self.nodes[p].widget {
                    return Err(String::from_str("Selecione um widget como pai."));
                }
                assert(node_ok(v.nodes[p as int], p as int, v.lines, v.lines.len()));
                proof {
                    lemma_lead_spaces(v.lines[v.nodes[p as int].line as int].body);
                }
                (self.nodes[p].end, self.nodes[p].indent + 2)
            },
            None => (self.lines.len(), 0),
        };
        let total = self.bytes().len();
        if (total as u128) + (indent as u128) * 3 + (ib.len() as u128) + (kb.len() as u128) + 80 > (
        MAX_BYTES as u128) {
            return Err(String::from_str("Documento excederia 8 MiB."));
        }
        Ok((at, indent))
    }

    /// Inserts a new widget `kind` with the given `id` (and a default size)
    /// at the end of `parent`'s block, or at the end of the document.
    #[verifier::rlimit(60)]
    pub fn add(&mut self, parent: Option<usize>, kind: &str, id: &str) -> (r: Result<(), String>)
        requires
            old(self)@.wf(),
        ensures
            final(self)@.wf(),
            final(self).path_value() == old(self).path_value(),
            match add_outcome(old(self)@, parent, kind@, id@) {
                Ok(ls) => r is Ok && final(self)@ == with_lines(old(self)@, ls),
                Err(m) => r matches Err(e) && e@ == m && final(self)@ == old(self)@,
            },
    {
        let ghost v = self@;
        proof {
            lemma_wf(v);
        }
        let (at, indent) = match self.add_checks(parent, kind, id) {
            Ok(p) => p,
            Err(e) => return Err(e),
        };
        let kb = kind.as_bytes();
        let ib = id.as_bytes();
        let eol = first_eol(&self.lines);
        proof {
            lemma_default_eol_ok(v.lines);
        }
        let ghost lines1 = if at > 0 && v.lines[at - 1].eol.len() == 0 {
            v.lines.update(at - 1, LineView { eol: eol@, ..v.lines[at - 1] })
        } else {
            v.lines
        };
        if at > 0 {
            self.terminate_line(at - 1, &eol);
        }
        assert(self.lines@.map_values(|x: Line| x@) =~= lines1);
        let (l1, l2, l3) = widget_lines(indent, kb, ib, eol);
        let ghost (x1, x2, x3) = (l1@, l2@, l3@);
        self.lines.insert(at, l1);
        self.lines.insert(at + 1, l2);
        self.lines.insert(at + 2, l3);
        proof {
            let ls = lines1.insert(at as int, x1).insert(at + 1, x2).insert(at + 2, x3);
            assert(self@.lines =~= ls);
            lemma_add_lines(v, at as int, indent as nat, encode_utf8(kind@), encode_utf8(id@));
        }
        self.index();
        Ok(())
    }
}


/// An edit that a [`crate::history::History`] step applies to a document.
pub enum Edit {
    /// [`Document::set`].
    SetProperty { node: usize, key: String, value: String },
    /// [`Document::add`].
    Add { parent: Option<usize>, kind: String, id: String },
    /// [`Document::remove_property`].
    RemoveProperty { node: usize, key: String },
    /// [`Document::remove`].
    Remove { node: usize },
    /// [`Document::replace_text`].
    ReplaceText { text: String },
    /// [`Document::replace_bytes`].
    ReplaceBytes { bytes: Vec<u8> },
}

/// The document after parsing `b` in place of `v` (keeping its saved bytes).
pub open spec fn reparsed(v: DocumentView, b: Seq<u8>) -> Result<DocumentView, Seq<char>> {
    match parse_refusal(b) {
        Some(m) => Err(m),
        None => Ok(DocumentView { saved: v.saved, ..parsed(b, v.is_otui) }),
    }
}

/// The lines of an outcome, re-indexed into the document.
pub open spec fn lines_outcome(v: DocumentView, r: Result<Seq<LineView>, Seq<char>>) -> Result<
    DocumentView,
    Seq<char>,
> {
    match r {
        Ok(ls) => Ok(with_lines(v, ls)),
        Err(m) => Err(m),
    }
}

/// What an edit makes of the document, or the message with which it fails.
pub open spec fn edit_outcome(v: DocumentView, e: Edit) -> Result<DocumentView, Seq<char>> {
    match e {
        Edit::SetProperty { node, key, value } => lines_outcome(v, set_outcome(v, node as int, key@, value@)),
        Edit::Add { parent, kind, id } => lines_outcome(v, add_outcome(v, parent, kind@, id@)),
        Edit::RemoveProperty { node, key } => lines_outcome(
            v,
            remove_property_outcome(v, node as int, key@),
        ),
        Edit::Remove { node } => lines_outcome(v, remove_outcome(v, node as int)),
        Edit::ReplaceText { text } => match encoded(v.utf8, text@) {
            None => Err(msg_encoding()),
            Some(b) => reparsed(
                v,
                if v.bom {
                    bom_bytes() + b
                } else {
                    b
                },
            ),
        },
        Edit::ReplaceBytes { bytes } => reparsed(v, bytes@),
    }
}

/// What a sequence of edits makes of the document, in order, or the message
/// of the first that fails.
pub open spec fn edits_outcome(v: DocumentView, es: Seq<Edit>) -> Result<DocumentView, Seq<char>>
    decreases es.len(),
{
    if es.len() == 0 {
        Ok(v)
    } else {
        match edit_outcome(v, es[0]) {
            Ok(v2) => edits_outcome(v2, es.drop_first()),
            Err(m) => Err(m),
        }
    }
}

fn clone_properties(ps: &Vec<Property>) -> (r: Vec<Property>)
    ensures
        prop_views(r@) == prop_views(ps@),
{
    let mut out: Vec<Property> = Vec::new();
    let mut i: usize = 0;
    while i < ps.len()
        invariant
            i <= ps@.len(),
            prop_views(out@) == prop_views(ps@.subrange(0, i as int)),
        decreases ps.len() - i,
    {
        let p = &ps[i];
        let q = Property { line: p.line, key: p.key.clone(), value: p.value.clone(), block: p.block };
        let ghost before = out@;
        out.push(q);
        proof {
            assert(prop_views(out@) =~= prop_views(before).push(q@));
            assert(ps@.subrange(0, i + 1) =~= ps@.subrange(0, i as int).push(ps@[i as int]));
            assert(prop_views(ps@.subrange(0, i + 1)) =~= prop_views(ps@.subrange(0, i as int)).push(ps@[i as int]@));
        }
        i = i + 1;
    }
    proof {
        assert(ps@.subrange(0, ps@.len() as int) =~= ps@);
    }
    out
}

impl Document {
    /// Takes the content of `next`, keeping this document's path.
    pub(crate) fn adopt(&mut self, next: Document)
        ensures
            final(self)@ == next@,
            final(self).path_value() == old(self).path_value(),
    {
        let mut next = next;
        std::mem::swap(&mut next.path, &mut self.path);
        *self = next;
    }

    /// A copy of the document without its path.
    pub(crate) fn duplicate(&self) -> (r: Document)
        ensures
            r@ == self@,
            r.path_value() is None,
    {
        let mut lines: Vec<Line> = Vec::new();
        let mut i: usize = 0;
        while i < self.lines.len()
            invariant
                i <= self.lines@.len(),
                lines@.map_values(|l: Line| l@) == self.lines@.subrange(0, i as int).map_values(|l: Line| l@),
            decreases self.lines.len() - i,
        {
            let l = Line {
                body: slice_to_vec(self.lines[i].body.as_slice()),
                eol: slice_to_vec(self.lines[i].eol.as_slice()),
            };
            let ghost before = lines@;
            lines.push(l);
            proof {
                assert(lines@.map_values(|l: Line| l@) =~= before.map_values(|l: Line| l@).push(l@));
                assert(self.lines@.subrange(0, i + 1).map_values(|l: Line| l@) =~= self.lines@.subrange(0, i as int).map_values(|l: Line| l@).push(self.lines@[i as int]@));
            }
            i = i + 1;
        }
        let mut nodes: Vec<Node> = Vec::new();
        let mut k: usize = 0;
        while k < self.nodes.len()
            invariant
                k <= self.nodes@.len(),
                nodes@.map_values(|n: Node| n@) == self.nodes@.subrange(0, k as int).map_values(|n: Node| n@),
            decreases self.nodes.len() - k,
        {
            let n = &self.nodes[k];
            let c = Node {
                line: n.line,
                end: n.end,
                parent: n.parent,
                indent: n.indent,
                name: n.name.clone(),
                widget: n.widget,
                properties: clone_properties(&n.properties),
            };
            let ghost before = nodes@;
            nodes.push(c);
            proof {
                assert(nodes@.map_values(|n: Node| n@) =~= before.map_values(|n: Node| n@).push(c@));
                assert(self.nodes@.subrange(0, k + 1).map_values(|n: Node| n@) =~= self.nodes@.subrange(0, k as int).map_values(|n: Node| n@).push(self.nodes@[k as int]@));
            }
            k = k + 1;
        }
        let mut issues: Vec<String> = Vec::new();
        let mut j: usize = 0;
        while j < self.issues.len()
            invariant
                j <= self.issues@.len(),
                issues@.map_values(|s: String| s@) == self.issues@.subrange(0, j as int).map_values(|s: String| s@),
            decreases self.issues.len() - j,
        {
            let c = self.issues[j].clone();
            let ghost before = issues@;
            issues.push(c);
            proof {
                assert(issues@.map_values(|s: String| s@) =~= before.map_values(|s: String| s@).push(c@));
                assert(self.issues@.subrange(0, j + 1).map_values(|s: String| s@) =~= self.issues@.subrange(0, j as int).map_values(|s: String| s@).push(self.issues@[j as int]@));
            }
            j = j + 1;
        }
        let r = Document {
            lines,
            bom: self.bom,
            utf8: self.utf8,
            nodes,
            issues,
            path: None,
            saved: slice_to_vec(self.saved.as_slice()),
            is_otui: self.is_otui,
        };
        proof {
            assert(self.lines@.subrange(0, self.lines@.len() as int) =~= self.lines@);
            assert(self.nodes@.subrange(0, self.nodes@.len() as int) =~= self.nodes@);
            assert(self.issues@.subrange(0, self.issues@.len() as int) =~= self.issues@);
            assert(r@.lines =~= self@.lines);
            assert(r@.nodes =~= self@.nodes);
            assert(r@.issues =~= self@.issues);
        }
        r
    }

    /// Performs an edit.
    pub fn perform(&mut self, edit: &Edit) -> (r: Result<(), String>)
        requires
            old(self)@.wf(),
        ensures
            final(self)@.wf(),
            final(self).path_value() == old(self).path_value(),
            match edit_outcome(old(self)@, *edit) {
                Ok(nv) => r is Ok && final(self)@ == nv,
                Err(m) => r matches Err(e) && e@ == m && final(self)@ == old(self)@,
            },
    {
        match edit {
            Edit::SetProperty { node, key, value } => self.set(*node, key.as_str(), value.as_str()),
            Edit::Add { parent, kind, id } => self.add(*parent, kind.as_str(), id.as_str()),
            Edit::RemoveProperty { node, key } => self.remove_property(*node, key.as_str()),
            Edit::Remove { node } => self.remove(*node),
            Edit::ReplaceText { text } => self.replace_text(text.as_str()),
            Edit::ReplaceBytes { bytes } => self.replace_bytes(bytes.as_slice()),
        }
    }

    /// Performs the edits in order, stopping at the first that fails (the
    /// document is then left part way and is to be discarded).
    #[verifier::rlimit(30)]
    pub fn perform_all(&mut self, edits: &[Edit]) -> (r: Result<(), String>)
        requires
            old(self)@.wf(),
        ensures
            final(self)@.wf(),
            final(self).path_value() == old(self).path_value(),
            match edits_outcome(old(self)@, edits@) {
                Ok(nv) => r is Ok && final(self)@ == nv,
                Err(m) => r matches Err(e) && e@ == m,
            },
    {
        let mut i: usize = 0;
        proof {
            assert(edits@.subrange(0, edits@.len() as int) =~= edits@);
        }
        while i < edits.len()
            invariant
                i <= edits@.len(),
                self@.wf(),
                self.path_value() == old(self).path_value(),
                edits_outcome(self@, edits@.subrange(i as int, edits@.len() as int)) == edits_outcome(
                    old(self)@,
                    edits@,
                ),
            decreases edits.len() - i,
        {
            let ghost rest = edits@.subrange(i as int, edits@.len() as int);
            proof {
                assert(rest[0] == edits@[i as int]);
                assert(rest.drop_first() =~= edits@.subrange(i + 1, edits@.len() as int));
            }
            match self.perform(&edits[i]) {
                Ok(_) => {},
                Err(e) => {
                    return Err(e);
                },
            }
            i = i + 1;
        }
        proof {
            assert(edits@.subrange(i as int, edits@.len() as int) =~= Seq::<Edit>::empty());
        }
        Ok(())
    }
}


/// Accepting the code editor's text unchanged keeps the bytes: replacing
/// the text of a document by the text that [`Document::text`] gives (for a
/// UTF-8 document, its text; for a Windows-1252 document, a text that
/// encodes back to its bytes, which `text` gives unless the content starts
/// with a BOM that decoding sniffs) yields those bytes again, and the
/// document parsed from them has the same bytes.
pub proof fn law_unchanged_text_keeps_bytes(v: DocumentView, text: Seq<char>)
    requires
        v.wf(),
        v.utf8 ==> text == doc_text(v),
        !v.utf8 ==> windows_1252_encoded(text) == (lines_bytes(v.lines), false),
        parse_refusal(content(v)) is None,
    ensures
        encoded(v.utf8, text) == Some(lines_bytes(v.lines)),
        (if v.bom {
            bom_bytes() + lines_bytes(v.lines)
        } else {
            lines_bytes(v.lines)
        }) == content(v),
        reparsed(v, content(v)) matches Ok(nv) && content(nv) == content(v),
{
    lemma_wf(v);
    if v.utf8 {
        decode_utf8_encode_utf8(lines_bytes(v.lines));
    }
    law_parse_roundtrip(content(v), v.is_otui);
    if !v.bom {
        assert(Seq::<u8>::empty() + lines_bytes(v.lines) =~= lines_bytes(v.lines));
    }
}

/// Parsing gives back exactly the bytes it was given.
pub proof fn law_parse_roundtrip(b: Seq<u8>, is_otui: bool)
    requires
        parse_refusal(b) is None,
    ensures
        content(parsed(b, is_otui)) == b,
{
    lemma_split_lines(payload(b));
    if has_bom(b) {
        assert(b =~= bom_bytes() + payload(b));
    } else {
        assert(b =~= Seq::<u8>::empty() + payload(b));
    }
}

#[verifier::spinoff_prover]
#[verifier::rlimit(30)]
proof fn lemma_line_patch(v: DocumentView, i: int, k: int, data: Seq<u8>)
    requires
        0 <= i < v.lines.len(),
        0 <= k <= v.lines[i].body.len(),
    ensures
        ({
            let body = v.lines[i].body;
            let nl = LineView { body: body.subrange(0, k) + data, eol: v.lines[i].eol };
            let off = content(v).len() - lines_bytes(v.lines.subrange(i, v.lines.len() as int)).len() + k;
            content(DocumentView { lines: v.lines.update(i, nl), ..v }) == content(v).subrange(0, off)
                + data + content(v).subrange(off + body.len() - k, content(v).len() as int)
        }),
{
    let body = v.lines[i].body;
    let eol = v.lines[i].eol;
    let nl = LineView { body: body.subrange(0, k) + data, eol };
    let ls = v.lines.update(i, nl);
    lemma_lines_update(v.lines, i, nl);
    lemma_lines_split_at(v.lines, i);
    let pre = if v.bom { bom_bytes() } else { Seq::<u8>::empty() };
    let head = pre + lines_bytes(v.lines.subrange(0, i));
    let tail = lines_bytes(v.lines.subrange(i + 1, v.lines.len() as int));
    assert(content(v) =~= head + body + eol + tail);
    let rest = v.lines.subrange(i, v.lines.len() as int);
    assert(rest.drop_first() =~= v.lines.subrange(i + 1, v.lines.len() as int));
    assert(lines_bytes(rest) == body + eol + tail);
    let off = content(v).len() - lines_bytes(rest).len() + k;
    assert(off == head.len() + k);
    assert(content(DocumentView { lines: ls, ..v }) =~= head + body.subrange(0, k) + data + eol + tail);
    assert(content(v).subrange(0, off) =~= head + body.subrange(0, k));
    assert(content(v).subrange(off + body.len() - k, content(v).len() as int) =~= eol + tail);
}

/// Setting an existing property rewrites only its value: the new bytes are
/// the old ones with the value's bytes (from after the `:` and its blanks to
/// the end of the line body) replaced by the encoded value.
pub proof fn law_set_patches_value(v: DocumentView, n: int, key: Seq<char>, val: Seq<char>)
    requires
        v.wf(),
        set_outcome(v, n, key, val) is Ok,
        key_count(v.nodes[n].properties, key) == 1,
    ensures
        ({
            let p = v.nodes[n].properties[first_key(v.nodes[n].properties, key)->0];
            let body = v.lines[p.line as int].body;
            let off = content(v).len() - lines_bytes(v.lines.subrange(p.line as int, v.lines.len() as int)).len()
                + value_start(body);
            let data = encoded(v.utf8, val)->0;
            content(with_lines(v, set_outcome(v, n, key, val)->Ok_0)) == content(v).subrange(0, off)
                + data + content(v).subrange(off + body.len() - value_start(body), content(v).len() as int)
        }),
{
    lemma_wf(v);
    let props = v.nodes[n].properties;
    lemma_first_key(props, key);
    lemma_key_count_positive(props, key);
    let q = first_key(props, key)->0;
    let p = props[q];
    assert(node_ok(v.nodes[n], n, v.lines, v.lines.len()));
    let i = p.line as int;
    let body = v.lines[i].body;
    lemma_byte_at(body, 58);
    lemma_skip_blank(body, byte_at(body, 58) + 1int);
    lemma_line_patch(v, i, value_start(body), encoded(v.utf8, val)->0);
}


/// An inspector edit never takes a document past the size limit: when `set`
/// succeeds on a document of at most [`MAX_BYTES`] bytes, the result has at
/// most [`MAX_BYTES`] bytes too.
pub proof fn law_set_within_limit(v: DocumentView, n: int, key: Seq<char>, val: Seq<char>)
    requires
        v.wf(),
        content(v).len() <= MAX_BYTES,
        set_outcome(v, n, key, val) is Ok,
    ensures
        content(with_lines(v, set_outcome(v, n, key, val)->Ok_0)).len() <= MAX_BYTES,
{
    lemma_wf(v);
    let kb = encode_utf8(key);
    let data = encoded(v.utf8, val)->0;
    let node = v.nodes[n];
    let props = node.properties;
    let ls = set_outcome(v, n, key, val)->Ok_0;
    let pre: nat = if v.bom { 3 } else { 0 };
    assert(content(v).len() == pre + lines_bytes(v.lines).len());
    assert(content(with_lines(v, ls)).len() == pre + lines_bytes(ls).len());
    assert(node_ok(node, n, v.lines, v.lines.len()));
    if key_count(props, key) == 1 {
        lemma_first_key(props, key);
        lemma_key_count_positive(props, key);
        let p = props[first_key(props, key)->0];
        let i = p.line as int;
        let l = v.lines[i];
        lemma_byte_at(l.body, 58);
        lemma_skip_blank(l.body, byte_at(l.body, 58) + 1int);
        let x = LineView { body: l.body.subrange(0, value_start(l.body)) + data, eol: l.eol };
        lemma_lines_update(v.lines, i, x);
    } else {
        let eol = default_eol(v.lines);
        lemma_default_eol_ok(v.lines);
        let l = node.line as int;
        let lines1 = if v.lines[l].eol.len() == 0 {
            v.lines.update(l, LineView { eol, ..v.lines[l] })
        } else {
            v.lines
        };
        if v.lines[l].eol.len() == 0 {
            lemma_lines_update(v.lines, l, LineView { eol, ..v.lines[l] });
        }
        assert(lines_bytes(lines1).len() <= lines_bytes(v.lines).len() + 2);
        let x = LineView { body: spaces((node.indent + 2) as nat) + kb + seq![58u8, 32u8] + data, eol };
        lemma_lines_insert(lines1, l + 1, x);
        assert(line_size(x) == node.indent + 2 + kb.len() + 2 + data.len() + eol.len());
    }
}

/// The properties, those of line `i` holding the value `val` instead.
spec fn patch_props(ps: Seq<PropertyView>, i: usize, val: Seq<char>) -> Seq<PropertyView> {
    ps.map_values(|p: PropertyView| if p.line == i { PropertyView { value: val, ..p } } else { p })
}

/// The nodes, the properties of line `i` holding the value `val` instead.
spec fn patch_nodes(ns: Seq<NodeView>, i: usize, val: Seq<char>) -> Seq<NodeView> {
    ns.map_values(|nd: NodeView| NodeView { properties: patch_props(nd.properties, i, val), ..nd })
}

/// The indexer state, the properties of line `i` holding the value `val`.
spec fn patch_state(st: IndexState, i: usize, val: Seq<char>) -> IndexState {
    IndexState { nodes: patch_nodes(st.nodes, i, val), ..st }
}

proof fn lemma_patch_none(ns: Seq<NodeView>, i: usize, val: Seq<char>)
    requires
        forall|j: int, q: int|
            0 <= j < ns.len() && 0 <= q < ns[j].properties.len() ==> (
            #[trigger] ns[j].properties[q]).line != i,
    ensures
        patch_nodes(ns, i, val) == ns,
{
    assert forall|j: int| 0 <= j < ns.len() implies #[trigger] patch_nodes(ns, i, val)[j] == ns[j] by {
        assert(patch_props(ns[j].properties, i, val) =~= ns[j].properties) by {
            assert forall|q: int| 0 <= q < ns[j].properties.len() implies #[trigger] patch_props(
                ns[j].properties,
                i,
                val,
            )[q] == ns[j].properties[q] by {
                assert(ns[j].properties[q].line != i);
            }
        }
    }
    assert(patch_nodes(ns, i, val) =~= ns);
}

#[verifier::spinoff_prover]
#[verifier::rlimit(40)]
proof fn lemma_patch_close(
    nodes: Seq<NodeView>,
    stack: Seq<usize>,
    indent: usize,
    k: usize,
    i: usize,
    val: Seq<char>,
)
    requires
        stack_ok(nodes, stack),
    ensures
        close_nodes(patch_nodes(nodes, i, val), stack, indent, k) == (
            patch_nodes(close_nodes(nodes, stack, indent, k).0, i, val),
            close_nodes(nodes, stack, indent, k).1,
        ),
    decreases stack.len(),
{
    let pn = patch_nodes(nodes, i, val);
    if stack.len() > 0 && nodes[stack.last() as int].indent >= indent {
        let n = stack.last() as int;
        assert(stack[stack.len() - 1] < nodes.len());
        assert(pn[n].indent == nodes[n].indent);
        let nodes1 = nodes.update(n, NodeView { end: k, ..nodes[n] });
        let stack1 = stack.drop_last();
        assert forall|s: int| 0 <= s < stack1.len() implies (#[trigger] stack1[s]) < nodes1.len() by {
            assert(stack1[s] == stack[s]);
            assert(stack[s] < nodes.len());
        }
        lemma_patch_close(nodes1, stack1, indent, k, i, val);
        assert(pn.update(n, NodeView { end: k, ..pn[n] }) =~= patch_nodes(nodes1, i, val));
    }
}

#[verifier::spinoff_prover]
#[verifier::rlimit(40)]
proof fn lemma_patch_step(st: IndexState, lines: Seq<LineView>, utf8: bool, k: usize, i: usize, val: Seq<char>)
    requires
        k < lines.len(),
        k != i,
        state_ok(st, lines, k as nat),
    ensures
        index_step(patch_state(st, i, val), k, lines[k as int].body, utf8, lines.len() as usize)
            == patch_state(index_step(st, k, lines[k as int].body, utf8, lines.len() as usize), i, val),
{
    let body = lines[k as int].body;
    let text = trim(line_text(body, utf8));
    let indent = lead_spaces(body) as usize;
    let pst = patch_state(st, i, val);
    if is_comment(text) || (st.block is Some && indent > st.block->0) {
    } else {
        lemma_close_nodes(st.nodes, st.stack, indent, k, lines);
        lemma_patch_close(st.nodes, st.stack, indent, k, i, val);
        let closed = close_nodes(st.nodes, st.stack, indent, k);
        let nodes = closed.0;
        let stack = closed.1;
        let pnodes = patch_nodes(nodes, i, val);
        match find(text, ':') {
            Some(c) => {
                if stack.len() > 0 {
                    let parent = stack.last() as int;
                    assert(stack[stack.len() - 1] < nodes.len());
                    let key = trim(text.subrange(0, c));
                    let v = trim(text.subrange(c + 1, text.len() as int));
                    let prop = PropertyView { line: k, key, value: v, block: is_block_marker(v) || v.len() == 0 };
                    let nodes2 = nodes.update(
                        parent,
                        NodeView { properties: nodes[parent].properties.push(prop), ..nodes[parent] },
                    );
                    assert(patch_props(nodes[parent].properties.push(prop), i, val) =~= patch_props(
                        nodes[parent].properties,
                        i,
                        val,
                    ).push(prop));
                    assert(pnodes.update(
                        parent,
                        NodeView { properties: pnodes[parent].properties.push(prop), ..pnodes[parent] },
                    ) =~= patch_nodes(nodes2, i, val));
                    let fresh = NodeView {
                        line: k,
                        end: lines.len() as usize,
                        parent: Some(parent as usize),
                        indent,
                        name: key,
                        widget: false,
                        properties: Seq::empty(),
                    };
                    assert(patch_props(fresh.properties, i, val) =~= fresh.properties);
                    assert(patch_nodes(nodes2, i, val).push(fresh) =~= patch_nodes(nodes2.push(fresh), i, val));
                }
            },
            None => {
                let fresh = NodeView {
                    line: k,
                    end: lines.len() as usize,
                    parent: if stack.len() > 0 {
                        Some(stack.last())
                    } else {
                        None
                    },
                    indent,
                    name: text,
                    widget: text[0] != '$',
                    properties: Seq::empty(),
                };
                assert(patch_props(fresh.properties, i, val) =~= fresh.properties);
                assert(pnodes.push(fresh) =~= patch_nodes(nodes.push(fresh), i, val));
            },
        }
    }
}

proof fn lemma_upto_same(lines: Seq<LineView>, lines2: Seq<LineView>, utf8: bool, k: nat)
    requires
        lines2.len() == lines.len(),
        k <= lines.len(),
        forall|j: int| 0 <= j < k ==> #[trigger] lines2[j] == lines[j],
    ensures
        index_upto(lines2, utf8, k) == index_upto(lines, utf8, k),
    decreases k,
{
    if k > 0 {
        lemma_upto_same(lines, lines2, utf8, (k - 1) as nat);
        assert(lines2[k - 1] == lines[k - 1]);
    }
}

#[verifier::spinoff_prover]
#[verifier::rlimit(40)]
proof fn lemma_upto_patched(
    lines: Seq<LineView>,
    lines2: Seq<LineView>,
    utf8: bool,
    i: usize,
    val: Seq<char>,
    k: nat,
)
    requires
        lines2.len() == lines.len(),
        lines.len() <= usize::MAX,
        bodies_fit(lines),
        i < k <= lines.len(),
        forall|j: int| 0 <= j < lines.len() && j != i ==> #[trigger] lines2[j] == lines[j],
        index_step(index_upto(lines, utf8, i as nat), i, lines2[i as int].body, utf8, lines.len() as usize)
            == patch_state(
            index_upto(lines, utf8, (i + 1) as nat),
            i,
            val,
        ),
    ensures
        index_upto(lines2, utf8, k) == patch_state(index_upto(lines, utf8, k), i, val),
    decreases k,
{
    if k == i + 1 {
        lemma_upto_same(lines, lines2, utf8, i as nat);
    } else {
        lemma_upto_patched(lines, lines2, utf8, i, val, (k - 1) as nat);
        lemma_index_upto(lines, utf8, (k - 1) as nat);
        lemma_patch_step(index_upto(lines, utf8, (k - 1) as nat), lines, utf8, (k - 1) as usize, i, val);
        assert(lines2[k - 1] == lines[k - 1]);
    }
}

/// A property as the indexer reads it from its line: its value is what
/// follows the first `:` of the line's trimmed text, trimmed, and it is a
/// block exactly when that value is a block marker or empty.
pub open spec fn read_from_line(p: PropertyView, lines: Seq<LineView>, utf8: bool) -> bool {
    let t = trim(line_text(lines[p.line as int].body, utf8));
    &&& find(t, ':') is Some
    &&& p.value == trim(t.subrange(find(t, ':')->0 + 1, t.len() as int))
    &&& p.block == (is_block_marker(p.value) || p.value.len() == 0)
}

spec fn props_read(nodes: Seq<NodeView>, lines: Seq<LineView>, utf8: bool) -> bool {
    forall|j: int, q: int|
        0 <= j < nodes.len() && 0 <= q < nodes[j].properties.len() ==> read_from_line(
            #[trigger] nodes[j].properties[q],
            lines,
            utf8,
        )
}

#[verifier::spinoff_prover]
#[verifier::rlimit(40)]
proof fn lemma_props_read(lines: Seq<LineView>, utf8: bool, k: nat)
    requires
        k <= lines.len(),
        lines.len() <= usize::MAX,
        bodies_fit(lines),
    ensures
        props_read(index_upto(lines, utf8, k).nodes, lines, utf8),
    decreases k,
{
    if k > 0 {
        let i = (k - 1) as usize;
        lemma_props_read(lines, utf8, (k - 1) as nat);
        lemma_index_upto(lines, utf8, (k - 1) as nat);
        let st = index_upto(lines, utf8, (k - 1) as nat);
        let body = lines[i as int].body;
        let text = trim(line_text(body, utf8));
        let indent = lead_spaces(body) as usize;
        let r = index_upto(lines, utf8, k);
        if is_comment(text) || (st.block is Some && indent > st.block->0) {
        } else {
            lemma_close_nodes(st.nodes, st.stack, indent, i, lines);
            let closed = close_nodes(st.nodes, st.stack, indent, i);
            let nodes = closed.0;
            let stack = closed.1;
            assert(props_read(nodes, lines, utf8)) by {
                assert forall|j: int, q: int|
                    0 <= j < nodes.len() && 0 <= q < nodes[j].properties.len() implies read_from_line(
                    #[trigger] nodes[j].properties[q],
                    lines,
                    utf8,
                ) by {
                    assert(nodes[j].properties == st.nodes[j].properties);
                    assert(read_from_line(st.nodes[j].properties[q], lines, utf8));
                }
            }
            match find(text, ':') {
                Some(c) => {
                    if stack.len() > 0 {
                        let parent = stack.last() as int;
                        assert(stack[stack.len() - 1] < nodes.len());
                        assert forall|j: int, q: int|
                            0 <= j < r.nodes.len() && 0 <= q < r.nodes[j].properties.len() implies read_from_line(
                            #[trigger] r.nodes[j].properties[q],
                            lines,
                            utf8,
                        ) by {
                            if j < nodes.len() {
                                if j == parent && q == nodes[j].properties.len() {
                                } else {
                                    assert(r.nodes[j].properties[q] == nodes[j].properties[q]);
                                }
                            }
                        }
                    }
                },
                None => {
                    assert forall|j: int, q: int|
                        0 <= j < r.nodes.len() && 0 <= q < r.nodes[j].properties.len() implies read_from_line(
                        #[trigger] r.nodes[j].properties[q],
                        lines,
                        utf8,
                    ) by {
                        assert(j < nodes.len());
                        assert(r.nodes[j] == nodes[j]);
                    }
                },
            }
        }
    }
}

/// The step at the edited line: a line whose text keeps everything up to
/// its first `:` and whose value (before and after) is neither empty nor a
/// block marker leads to the same state, with the new value.
#[verifier::spinoff_prover]
#[verifier::rlimit(40)]
proof fn lemma_patch_at(lines: Seq<LineView>, utf8: bool, i: usize, body2: Seq<u8>, val: Seq<char>, c: int)
    requires
        i < lines.len(),
        lines.len() <= usize::MAX,
        bodies_fit(lines),
        ({
            let body = lines[i as int].body;
            let t1 = trim(line_text(body, utf8));
            let t2 = trim(line_text(body2, utf8));
            &&& lead_spaces(body2) == lead_spaces(body)
            &&& lead_spaces(body) < body.len()
            &&& lead_spaces(body) < body2.len()
            &&& body2[lead_spaces(body) as int] == body[lead_spaces(body) as int]
            &&& find(t1, ':') == Some(c)
            &&& find(t2, ':') == Some(c)
            &&& c < t1.len()
            &&& c < t2.len()
            &&& t1.subrange(0, c + 1) == t2.subrange(0, c + 1)
            &&& trim(t2.subrange(c + 1, t2.len() as int)) == val
            &&& !is_block_marker(trim(t1.subrange(c + 1, t1.len() as int)))
            &&& trim(t1.subrange(c + 1, t1.len() as int)).len() > 0
        }),
        !is_block_marker(val),
        val.len() > 0,
    ensures
        index_step(index_upto(lines, utf8, i as nat), i, body2, utf8, lines.len() as usize)
            == patch_state(index_upto(lines, utf8, (i + 1) as nat), i, val),
{
    let body = lines[i as int].body;
    let t1 = trim(line_text(body, utf8));
    let t2 = trim(line_text(body2, utf8));
    let st = index_upto(lines, utf8, i as nat);
    lemma_index_upto(lines, utf8, i as nat);
    let indent = lead_spaces(body) as usize;
    lemma_find(t1, ':');
    assert(t1[0] == t2[0]) by {
        assert(t1[0] == t1.subrange(0, c + 1)[0]);
        assert(t2[0] == t2.subrange(0, c + 1)[0]);
    }
    if c >= 1 {
        assert(t1[1] == t2[1]) by {
            assert(t1[1] == t1.subrange(0, c + 1)[1]);
            assert(t2[1] == t2.subrange(0, c + 1)[1]);
        }
    }
    assert(is_comment(t1) == is_comment(t2));
    assert(t1.subrange(0, c) =~= t2.subrange(0, c)) by {
        assert forall|j: int| 0 <= j < c implies #[trigger] t1[j] == t2[j] by {
            assert(t1[j] == t1.subrange(0, c + 1)[j]);
            assert(t2[j] == t2.subrange(0, c + 1)[j]);
        }
    }
    assert forall|j: int, q: int|
        0 <= j < st.nodes.len() && 0 <= q < st.nodes[j].properties.len() implies (
        #[trigger] st.nodes[j].properties[q]).line != i by {
        assert(node_ok(st.nodes[j], j, lines, i as nat));
    }
    lemma_patch_none(st.nodes, i, val);
    if is_comment(t1) || (st.block is Some && indent > st.block->0) {
    } else {
        lemma_close_nodes(st.nodes, st.stack, indent, i, lines);
        let closed = close_nodes(st.nodes, st.stack, indent, i);
        let nodes = closed.0;
        let stack = closed.1;
        assert forall|j: int, q: int|
            0 <= j < nodes.len() && 0 <= q < nodes[j].properties.len() implies (
            #[trigger] nodes[j].properties[q]).line != i by {
            assert(nodes[j].properties == st.nodes[j].properties);
            assert(st.nodes[j].properties[q].line != i);
        }
        lemma_patch_none(nodes, i, val);
        if stack.len() > 0 {
            let parent = stack.last() as int;
            assert(stack[stack.len() - 1] < nodes.len());
            let key = trim(t1.subrange(0, c));
            let v1 = trim(t1.subrange(c + 1, t1.len() as int));
            let p1 = PropertyView { line: i, key, value: v1, block: false };
            let p2 = PropertyView { line: i, key, value: val, block: false };
            let ps = nodes[parent].properties;
            assert(patch_props(ps.push(p1), i, val) =~= ps.push(p2)) by {
                assert(patch_props(ps, i, val) == ps) by {
                    assert(patch_nodes(nodes, i, val)[parent] == nodes[parent]);
                }
            }
            let nodes1 = nodes.update(parent, NodeView { properties: ps.push(p1), ..nodes[parent] });
            let nodes2 = nodes.update(parent, NodeView { properties: ps.push(p2), ..nodes[parent] });
            assert(patch_nodes(nodes1, i, val) =~= nodes2) by {
                assert forall|j: int| 0 <= j < nodes1.len() implies #[trigger] patch_nodes(nodes1, i, val)[j]
                    == nodes2[j] by {
                    if j != parent {
                        assert(patch_nodes(nodes, i, val)[j] == nodes[j]);
                    }
                }
            }
        }
    }
}

/// The bytes and the characters of a `key: value` line of well-formed UTF-8
/// whose value is replaced by the encoding of `val`.
#[verifier::spinoff_prover]
#[verifier::rlimit(40)]
proof fn lemma_value_line(body: Seq<u8>, val: Seq<char>)
    requires
        valid_utf8(body),
        body.contains(58u8),
    ensures
        ({
            let vs = value_start(body);
            let body2 = body.subrange(0, vs) + encode_utf8(val);
            let t1 = trim(line_text(body, true));
            let t2 = trim(line_text(body2, true));
            &&& lead_spaces(body) < vs <= body.len()
            &&& body2.subrange(0, vs) == body.subrange(0, vs)
            &&& lead_spaces(body2) == lead_spaces(body)
            &&& lead_spaces(body) < body2.len()
            &&& body2[lead_spaces(body) as int] == body[lead_spaces(body) as int]
            &&& valid_utf8(body2)
            &&& find(t1, ':') is Some
            &&& find(t2, ':') == find(t1, ':')
            &&& find(t1, ':')->0 < t1.len()
            &&& find(t1, ':')->0 < t2.len()
            &&& t1.subrange(0, find(t1, ':')->0 + 1) == t2.subrange(0, find(t1, ':')->0 + 1)
            &&& trim(t2.subrange(find(t1, ':')->0 + 1, t2.len() as int)) == trim(val)
        }),
{
    lemma_byte_at(body, 58);
    let x = byte_at(body, 58) as int;
    let vs = value_start(body);
    lemma_skip_blank(body, x + 1);
    lemma_skip_blank_bytes(body, x + 1);
    lemma_lead_spaces(body);
    assert(lead_spaces(body) <= x) by {
        if lead_spaces(body) > x {
            assert(body[x] == 32);
        }
    }
    let data = encode_utf8(val);
    let body2 = body.subrange(0, vs) + data;
    assert(body2.subrange(0, vs) =~= body.subrange(0, vs));
    assert forall|j: int| 0 <= j < lead_spaces(body) implies #[trigger] body2[j] == 32 by {
        assert(body2[j] == body[j]);
    }
    assert(body2[lead_spaces(body) as int] == body[lead_spaces(body) as int]);
    lemma_lead_spaces_exact(body2, lead_spaces(body));
    is_char_boundary_iff_not_is_continuation_byte(body, x);
    valid_utf8_split(body, x);
    decode_utf8_split(body, x);
    let kb = body.subrange(0, x);
    let y = body.subrange(x, body.len() as int);
    let m = vs - x;
    assert forall|j: int| 0 <= j < m implies #[trigger] y[j] <= 0x7f by {
        assert(y[j] == body[x + j]);
    }
    lemma_ascii_prefix(y, m);
    let sb = body.subrange(x, vs);
    assert(y.subrange(0, m) =~= sb);
    assert(y.subrange(m, y.len() as int) =~= body.subrange(vs, body.len() as int));
    let k = decode_utf8(kb);
    let s = ascii_chars(sb);
    let xo = decode_utf8(body.subrange(vs, body.len() as int));
    assert(!kb.contains(58u8)) by {
        if kb.contains(58u8) {
            let j = choose|j: int| 0 <= j < kb.len() && kb[j] == 58u8;
            assert(body[j] == 58);
        }
    }
    lemma_absent_ascii(kb, 58);
    assert((58u8 as char) == ':');
    assert(decode_utf8(body) =~= k + s + xo);
    assert(s[0] == ':');
    assert forall|j: int| 1 <= j < s.len() implies is_ws(#[trigger] s[j]) by {
        assert(s[j] == sb[j] as char);
        assert(sb[j] == body[x + j]);
    }
    assert forall|j: int| 0 <= j < sb.len() implies #[trigger] sb[j] <= 0x7f by {
        assert(sb[j] == body[x + j]);
    }
    lemma_ascii_valid(sb);
    lemma_decode_concat(kb, sb);
    assert(kb + sb =~= body.subrange(0, vs));
    encode_utf8_valid_utf8(val);
    encode_utf8_decode_utf8(val);
    lemma_decode_concat(body.subrange(0, vs), data);
    assert(decode_utf8(body2) =~= k + s + val);
    lemma_colon_text(k, s, xo);
    lemma_colon_text(k, s, val);
}

proof fn lemma_skip_blank_bytes(b: Seq<u8>, k: int)
    requires
        0 <= k <= b.len(),
    ensures
        forall|j: int| k <= j < skip_blank(b, k) ==> #[trigger] b[j] == 32 || b[j] == 9,
    decreases b.len() - k,
{
    if 0 <= k < b.len() && (b[k] == 32 || b[k] == 9) {
        lemma_skip_blank_bytes(b, k + 1);
    }
}

/// Every line body is well-formed UTF-8.
#[verifier::opaque]
pub open spec fn lines_utf8(ls: Seq<LineView>) -> bool {
    forall|j: int| 0 <= j < ls.len() ==> valid_utf8(#[trigger] ls[j].body)
}

/// What `set` does when the node has the key once: the property's line is
/// rewritten from the start of its value.
#[verifier::spinoff_prover]
#[verifier::rlimit(40)]
proof fn lemma_set_existing(v: DocumentView, n: int, key: Seq<char>, val: Seq<char>)
    requires
        v.wf(),
        v.utf8,
        set_outcome(v, n, key, val) is Ok,
        key_count(v.nodes[n].properties, key) == 1,
    ensures
        ({
            let props = v.nodes[n].properties;
            let q = first_key(props, key)->0;
            let p = props[q];
            let l = v.lines[p.line as int];
            let body2 = l.body.subrange(0, value_start(l.body)) + encode_utf8(val);
            &&& 0 <= q < props.len()
            &&& props[q].key == key
            &&& forall|j: int| 0 <= j < q ==> props[j].key != key
            &&& p.line < v.lines.len()
            &&& !p.block
            &&& trim(val).len() > 0
            &&& v.is_otui
            &&& set_outcome(v, n, key, val)->Ok_0 == v.lines.update(p.line as int, LineView { body: body2, eol: l.eol })
        }),
{
    lemma_wf(v);
    let props = v.nodes[n].properties;
    lemma_first_key(props, key);
    lemma_key_count_positive(props, key);
    assert(node_ok(v.nodes[n], n, v.lines, v.lines.len()));
    assert(valid_value(val));
    assert(v.is_otui) by {
        if !v.is_otui {
            assert(v.nodes == index_start().nodes);
        }
    }
}

#[verifier::spinoff_prover]
#[verifier::rlimit(40)]
proof fn lemma_set_reads_existing(v: DocumentView, n: int, key: Seq<char>, val: Seq<char>)
    requires
        v.wf(),
        v.utf8,
        !is_block_marker(trim(val)),
        set_outcome(v, n, key, val) is Ok,
        key_count(v.nodes[n].properties, key) == 1,
    ensures
        with_lines(v, set_outcome(v, n, key, val)->Ok_0).nodes.len() == v.nodes.len(),
        node_value(with_lines(v, set_outcome(v, n, key, val)->Ok_0), n, key) == trim(val),
{
    lemma_set_existing(v, n, key, val);
    lemma_wf(v);
    let props = v.nodes[n].properties;
    let q = first_key(props, key)->0;
    let p = props[q];
    let i = p.line;
    let body = v.lines[i as int].body;
    let body2 = body.subrange(0, value_start(body)) + encode_utf8(val);
    let lines2 = set_outcome(v, n, key, val)->Ok_0;
    let tv = trim(val);
    lemma_props_read(v.lines, true, v.lines.len());
    assert(read_from_line(p, v.lines, true));
    let t1 = trim(line_text(body, true));
    let c = find(t1, ':')->0;
    assert(index_step(index_upto(v.lines, true, i as nat), i, body2, true, v.lines.len() as usize)
        == patch_state(index_upto(v.lines, true, (i + 1) as nat), i, tv)) by {
        assert(body.contains(58u8));
        assert(valid_utf8(body)) by {
            reveal(lines_utf8);
        }
        lemma_value_line(body, val);
        lemma_patch_at(v.lines, true, i, body2, tv, c);
    }
    lemma_upto_patched(v.lines, lines2, true, i, tv, v.lines.len());
    lemma_patched_value(v, with_lines(v, lines2), n, key, i, tv);
}

proof fn lemma_patched_value(v: DocumentView, nv: DocumentView, n: int, key: Seq<char>, i: usize, val: Seq<char>)
    requires
        0 <= n < v.nodes.len(),
        nv.nodes == patch_nodes(v.nodes, i, val),
        first_key(v.nodes[n].properties, key) is Some,
        v.nodes[n].properties[first_key(v.nodes[n].properties, key)->0].line == i,
    ensures
        nv.nodes.len() == v.nodes.len(),
        node_value(nv, n, key) == val,
{
    let props = v.nodes[n].properties;
    lemma_first_key(props, key);
    let q = first_key(props, key)->0;
    let props2 = nv.nodes[n].properties;
    assert(props2 == patch_props(props, i, val));
    lemma_first_key(props2, key);
    assert(props2[q].key == key);
    assert(first_key(props2, key) == Some(q)) by {
        let f = first_key(props2, key)->0;
        if f < q {
            assert(props2[f].key == props[f].key);
        }
    }
}

/// A line number after a line is inserted below line `l`.
spec fn sh(x: usize, l: usize) -> usize {
    if x > l {
        (x + 1) as usize
    } else {
        x
    }
}

spec fn shift_prop(p: PropertyView, l: usize) -> PropertyView {
    PropertyView { line: sh(p.line, l), ..p }
}

spec fn shift_node(nd: NodeView, l: usize, extra: Seq<PropertyView>) -> NodeView {
    NodeView {
        line: sh(nd.line, l),
        end: sh(nd.end, l),
        properties: extra + nd.properties.map_values(|p: PropertyView| shift_prop(p, l)),
        ..nd
    }
}

/// The nodes once a line is inserted below line `l`, node `n` having the
/// properties `extra` first.
spec fn shift_nodes(ns: Seq<NodeView>, l: usize, n: int, extra: Seq<PropertyView>) -> Seq<NodeView> {
    Seq::new(
        ns.len(),
        |j: int|
            shift_node(
                ns[j],
                l,
                if j == n {
                    extra
                } else {
                    Seq::empty()
                },
            ),
    )
}

spec fn shifted(sn: IndexState, so: IndexState, l: usize, n: int, extra: Seq<PropertyView>) -> bool {
    &&& sn.nodes == shift_nodes(so.nodes, l, n, extra)
    &&& sn.stack == so.stack
    &&& sn.block == so.block
}

#[verifier::spinoff_prover]
#[verifier::rlimit(40)]
proof fn lemma_shift_close(
    nodes: Seq<NodeView>,
    stack: Seq<usize>,
    indent: usize,
    k: usize,
    l: usize,
    n: int,
    extra: Seq<PropertyView>,
)
    requires
        stack_ok(nodes, stack),
    ensures
        close_nodes(shift_nodes(nodes, l, n, extra), stack, indent, sh(k, l)) == (
            shift_nodes(close_nodes(nodes, stack, indent, k).0, l, n, extra),
            close_nodes(nodes, stack, indent, k).1,
        ),
    decreases stack.len(),
{
    let sn = shift_nodes(nodes, l, n, extra);
    if stack.len() > 0 && nodes[stack.last() as int].indent >= indent {
        let t = stack.last() as int;
        assert(stack[stack.len() - 1] < nodes.len());
        assert(sn[t].indent == nodes[t].indent);
        let nodes1 = nodes.update(t, NodeView { end: k, ..nodes[t] });
        let stack1 = stack.drop_last();
        assert forall|s: int| 0 <= s < stack1.len() implies (#[trigger] stack1[s]) < nodes1.len() by {
            assert(stack1[s] == stack[s]);
            assert(stack[s] < nodes.len());
        }
        lemma_shift_close(nodes1, stack1, indent, k, l, n, extra);
        assert(sn.update(t, NodeView { end: sh(k, l), ..sn[t] }) =~= shift_nodes(nodes1, l, n, extra));
    } else {
        if stack.len() > 0 {
            let t = stack.last() as int;
            assert(stack[stack.len() - 1] < nodes.len());
            assert(sn[t].indent == nodes[t].indent);
        }
    }
}

/// One step of the indexer commutes with inserting a line below line `l`.
#[verifier::spinoff_prover]
#[verifier::rlimit(40)]
proof fn lemma_shift_step(
    sn: IndexState,
    so: IndexState,
    lines: Seq<LineView>,
    utf8: bool,
    j: usize,
    l: usize,
    n: int,
    extra: Seq<PropertyView>,
)
    requires
        j < lines.len(),
        l < lines.len(),
        lines.len() + 1 <= usize::MAX,
        state_ok(so, lines, j as nat),
        shifted(sn, so, l, n, extra),
        extra.len() == 0 || 0 <= n < so.nodes.len(),
    ensures
        shifted(
            index_step(sn, sh(j, l), lines[j as int].body, utf8, (lines.len() + 1) as usize),
            index_step(so, j, lines[j as int].body, utf8, lines.len() as usize),
            l,
            n,
            extra,
        ),
        index_step(so, j, lines[j as int].body, utf8, lines.len() as usize).nodes.len()
            >= so.nodes.len(),
{
    let body = lines[j as int].body;
    let text = trim(line_text(body, utf8));
    let indent = lead_spaces(body) as usize;
    let big = lines.len() as usize;
    assert(sh(big, l) == (lines.len() + 1) as usize);
    if is_comment(text) || (so.block is Some && indent > so.block->0) {
    } else {
        lemma_close_nodes(so.nodes, so.stack, indent, j, lines);
        lemma_shift_close(so.nodes, so.stack, indent, j, l, n, extra);
        let closed = close_nodes(so.nodes, so.stack, indent, j);
        let nodes = closed.0;
        let stack = closed.1;
        let snodes = shift_nodes(nodes, l, n, extra);
        match find(text, ':') {
            Some(c) => {
                if stack.len() > 0 {
                    let parent = stack.last() as int;
                    assert(stack[stack.len() - 1] < nodes.len());
                    let key = trim(text.subrange(0, c));
                    let v = trim(text.subrange(c + 1, text.len() as int));
                    let prop = PropertyView { line: j, key, value: v, block: is_block_marker(v) || v.len() == 0 };
                    let sprop = PropertyView { line: sh(j, l), ..prop };
                    let nodes2 = nodes.update(
                        parent,
                        NodeView { properties: nodes[parent].properties.push(prop), ..nodes[parent] },
                    );
                    let snodes2 = snodes.update(
                        parent,
                        NodeView { properties: snodes[parent].properties.push(sprop), ..snodes[parent] },
                    );
                    assert(snodes2 =~= shift_nodes(nodes2, l, n, extra)) by {
                        assert forall|q: int| 0 <= q < snodes2.len() implies #[trigger] snodes2[q]
                            == shift_nodes(nodes2, l, n, extra)[q] by {
                            if q == parent {
                                let ex = if q == n {
                                    extra
                                } else {
                                    Seq::<PropertyView>::empty()
                                };
                                let ps = nodes[parent].properties;
                                assert(ex + ps.push(prop).map_values(|p: PropertyView| shift_prop(p, l))
                                    =~= (ex + ps.map_values(|p: PropertyView| shift_prop(p, l))).push(
                                    sprop,
                                ));
                            }
                        }
                    }
                    let fresh = NodeView {
                        line: j,
                        end: big,
                        parent: Some(parent as usize),
                        indent,
                        name: key,
                        widget: false,
                        properties: Seq::empty(),
                    };
                    let sfresh = NodeView { line: sh(j, l), end: (lines.len() + 1) as usize, ..fresh };
                    assert(nodes2.len() != n || extra.len() == 0);
                    assert(snodes2.push(sfresh) =~= shift_nodes(nodes2.push(fresh), l, n, extra)) by {
                        let q = nodes2.len() as int;
                        let ex = if q == n {
                            extra
                        } else {
                            Seq::<PropertyView>::empty()
                        };
                        assert(ex + fresh.properties.map_values(|p: PropertyView| shift_prop(p, l))
                            =~= Seq::<PropertyView>::empty());
                        assert forall|q2: int| 0 <= q2 < snodes2.len() implies #[trigger] snodes2[q2]
                            == shift_nodes(nodes2.push(fresh), l, n, extra)[q2] by {
                            assert(nodes2.push(fresh)[q2] == nodes2[q2]);
                        }
                    }
                }
            },
            None => {
                let fresh = NodeView {
                    line: j,
                    end: big,
                    parent: if stack.len() > 0 {
                        Some(stack.last())
                    } else {
                        None
                    },
                    indent,
                    name: text,
                    widget: text[0] != '$',
                    properties: Seq::empty(),
                };
                let sfresh = NodeView { line: sh(j, l), end: (lines.len() + 1) as usize, ..fresh };
                assert(snodes.push(sfresh) =~= shift_nodes(nodes.push(fresh), l, n, extra)) by {
                    let q = nodes.len() as int;
                    let ex = if q == n {
                        extra
                    } else {
                        Seq::<PropertyView>::empty()
                    };
                    assert(ex + fresh.properties.map_values(|p: PropertyView| shift_prop(p, l))
                        =~= Seq::<PropertyView>::empty());
                    assert forall|q2: int| 0 <= q2 < snodes.len() implies #[trigger] snodes[q2]
                        == shift_nodes(nodes.push(fresh), l, n, extra)[q2] by {
                        assert(nodes.push(fresh)[q2] == nodes[q2]);
                    }
                }
            },
        }
    }
}

#[verifier::spinoff_prover]
#[verifier::rlimit(40)]
proof fn lemma_shift_upto_before(
    lines: Seq<LineView>,
    lines2: Seq<LineView>,
    utf8: bool,
    l: usize,
    k: nat,
)
    requires
        l < lines.len(),
        lines.len() + 1 <= usize::MAX,
        bodies_fit(lines),
        lines2.len() == lines.len() + 1,
        k <= l + 1,
        forall|j: int| 0 <= j <= l ==> #[trigger] lines2[j].body == lines[j].body,
    ensures
        shifted(index_upto(lines2, utf8, k), index_upto(lines, utf8, k), l, 0, Seq::empty()),
    decreases k,
{
    if k == 0 {
        assert(shift_nodes(Seq::<NodeView>::empty(), l, 0, Seq::empty()) =~= Seq::<NodeView>::empty());
    } else {
        lemma_shift_upto_before(lines, lines2, utf8, l, (k - 1) as nat);
        lemma_index_upto(lines, utf8, (k - 1) as nat);
        assert(lines2[k - 1].body == lines[k - 1].body);
        lemma_shift_step(
            index_upto(lines2, utf8, (k - 1) as nat),
            index_upto(lines, utf8, (k - 1) as nat),
            lines,
            utf8,
            (k - 1) as usize,
            l,
            0,
            Seq::empty(),
        );
    }
}

#[verifier::spinoff_prover]
#[verifier::rlimit(40)]
proof fn lemma_shift_upto_after(
    lines: Seq<LineView>,
    lines2: Seq<LineView>,
    utf8: bool,
    l: usize,
    n: int,
    extra: Seq<PropertyView>,
    k: nat,
)
    requires
        l < lines.len(),
        lines.len() + 1 <= usize::MAX,
        bodies_fit(lines),
        lines2.len() == lines.len() + 1,
        l + 1 <= k <= lines.len(),
        forall|j: int| l < j < lines.len() ==> #[trigger] lines2[j + 1].body == lines[j].body,
        shifted(index_upto(lines2, utf8, (l + 2) as nat), index_upto(lines, utf8, (l + 1) as nat), l, n, extra),
        0 <= n < index_upto(lines, utf8, (l + 1) as nat).nodes.len(),
    ensures
        shifted(index_upto(lines2, utf8, k + 1), index_upto(lines, utf8, k), l, n, extra),
        0 <= n < index_upto(lines, utf8, k).nodes.len(),
    decreases k,
{
    if k > l + 1 {
        lemma_shift_upto_after(lines, lines2, utf8, l, n, extra, (k - 1) as nat);
        lemma_index_upto(lines, utf8, (k - 1) as nat);
        assert(lines2[k as int].body == lines[k - 1].body);
        assert(sh((k - 1) as usize, l) == k);
        lemma_shift_step(
            index_upto(lines2, utf8, k),
            index_upto(lines, utf8, (k - 1) as nat),
            lines,
            utf8,
            (k - 1) as usize,
            l,
            n,
            extra,
        );
    }
}

/// Node `j` was added by the step over its own line.
spec fn nodes_made(lines: Seq<LineView>, utf8: bool, nodes: Seq<NodeView>) -> bool {
    forall|j: int|
        0 <= j < nodes.len() ==> index_upto(lines, utf8, (#[trigger] nodes[j]).line as nat).nodes.len() == j
            && index_upto(lines, utf8, (nodes[j].line + 1) as nat).nodes.len() == j + 1
}

#[verifier::spinoff_prover]
#[verifier::rlimit(40)]
proof fn lemma_nodes_made(lines: Seq<LineView>, utf8: bool, k: nat)
    requires
        k <= lines.len(),
        lines.len() <= usize::MAX,
        bodies_fit(lines),
    ensures
        nodes_made(lines, utf8, index_upto(lines, utf8, k).nodes),
    decreases k,
{
    if k > 0 {
        let i = (k - 1) as usize;
        lemma_nodes_made(lines, utf8, (k - 1) as nat);
        lemma_index_upto(lines, utf8, (k - 1) as nat);
        let st = index_upto(lines, utf8, (k - 1) as nat);
        let body = lines[i as int].body;
        let text = trim(line_text(body, utf8));
        let indent = lead_spaces(body) as usize;
        let r = index_upto(lines, utf8, k);
        if is_comment(text) || (st.block is Some && indent > st.block->0) {
        } else {
            lemma_close_nodes(st.nodes, st.stack, indent, i, lines);
            let closed = close_nodes(st.nodes, st.stack, indent, i);
            let nodes = closed.0;
            let stack = closed.1;
            if stack.len() > 0 {
                assert(stack[stack.len() - 1] < nodes.len());
            }
            assert forall|j: int| 0 <= j < r.nodes.len() implies index_upto(
                lines,
                utf8,
                (#[trigger] r.nodes[j]).line as nat,
            ).nodes.len() == j && index_upto(lines, utf8, (r.nodes[j].line + 1) as nat).nodes.len()
                == j + 1 by {
                if j < st.nodes.len() {
                    assert(r.nodes[j].line == nodes[j].line);
                    assert(nodes[j].line == st.nodes[j].line);
                    assert(index_upto(lines, utf8, st.nodes[j].line as nat).nodes.len() == j);
                } else {
                    assert(r.nodes[j].line == i);
                }
            }
        }
    }
}

/// The step over a line that added a node leaves that node open on top of
/// the stack, with no properties, outside any block.
#[verifier::spinoff_prover]
#[verifier::rlimit(40)]
proof fn lemma_made_step(lines: Seq<LineView>, utf8: bool, l: usize)
    requires
        l < lines.len(),
        lines.len() <= usize::MAX,
        bodies_fit(lines),
        index_upto(lines, utf8, (l + 1) as nat).nodes.len() == index_upto(lines, utf8, l as nat).nodes.len() + 1,
    ensures
        ({
            let s = index_upto(lines, utf8, (l + 1) as nat);
            let m = index_upto(lines, utf8, l as nat).nodes.len() as int;
            &&& s.stack.len() > 0
            &&& s.stack.last() == m
            &&& s.nodes[m].properties.len() == 0
            &&& s.nodes[m].line == l
            &&& s.block is None
        }),
{
    let st = index_upto(lines, utf8, l as nat);
    lemma_index_upto(lines, utf8, l as nat);
    let body = lines[l as int].body;
    let text = trim(line_text(body, utf8));
    let indent = lead_spaces(body) as usize;
    if is_comment(text) || (st.block is Some && indent > st.block->0) {
    } else {
        lemma_close_nodes(st.nodes, st.stack, indent, l, lines);
        let closed = close_nodes(st.nodes, st.stack, indent, l);
        let stack = closed.1;
        if stack.len() > 0 {
            assert(stack[stack.len() - 1] < closed.0.len());
        }
    }
}

/// The text of a line `key: val` indented by `ind + 2` spaces.
#[verifier::spinoff_prover]
#[verifier::rlimit(40)]
proof fn lemma_inserted_line(ind: nat, key: Seq<char>, val: Seq<char>)
    requires
        valid_key(encode_utf8(key)),
        trim(val).len() > 0,
    ensures
        ({
            let nb = spaces(ind + 2) + encode_utf8(key) + seq![58u8, 32u8] + encode_utf8(val);
            let t = trim(line_text(nb, true));
            &&& valid_utf8(nb)
            &&& !is_comment(t)
            &&& lead_spaces(nb) == ind + 2
            &&& ind + 2 < nb.len()
            &&& nb[ind + 2int] != 9
            &&& find(t, ':') == Some(key.len() as int)
            &&& trim(t.subrange(0, key.len() as int)) == key
            &&& trim(t.subrange(key.len() + 1int, t.len() as int)) == trim(val)
        }),
{
    let kb = encode_utf8(key);
    let sp = spaces(ind + 2);
    let pre = sp + kb + seq![58u8, 32u8];
    let data = encode_utf8(val);
    let nb = sp + kb + seq![58u8, 32u8] + data;
    assert(nb =~= pre + data);
    assert forall|j: int| 0 <= j < kb.len() implies #[trigger] kb[j] <= 0x7f by {
        assert(key_byte_ok(kb[j]));
    }
    assert forall|j: int| 0 <= j < pre.len() implies #[trigger] pre[j] <= 0x7f by {
        if j >= sp.len() && j < sp.len() + kb.len() {
            assert(pre[j] == kb[j - sp.len()]);
        }
    }
    lemma_ascii_valid(pre);
    lemma_ascii_valid(kb);
    encode_utf8_decode_utf8(key);
    assert(key == ascii_chars(kb));
    encode_utf8_valid_utf8(val);
    encode_utf8_decode_utf8(val);
    lemma_decode_concat(pre, data);
    let kc = ascii_chars(sp) + key;
    let sc = seq![':', ' '];
    assert((58u8 as char) == ':' && (32u8 as char) == ' ');
    assert(ascii_chars(pre) =~= kc + sc);
    assert(line_text(nb, true) =~= kc + sc + val);
    assert forall|j: int| 0 <= j < key.len() implies #[trigger] key[j] == kb[j] as char by {}
    assert forall|j: int| 0 <= j < kc.len() implies kc[j] != ':' by {
        if j >= sp.len() {
            assert(kc[j] == key[j - sp.len()]);
            assert(key_byte_ok(kb[j - sp.len()]));
        }
    }
    assert(is_ws(sc[1]));
    lemma_colon_text(kc, sc, val);
    let kp = kc.push(':');
    assert(kb.len() > 0);
    assert forall|j: int| 0 <= j < ind + 2 implies is_ws(#[trigger] kp[j]) by {}
    assert(kp[ind + 2int] == key[0]);
    assert(key_byte_ok(kb[0]));
    assert(!is_ws(key[0]));
    lemma_ws_prefix_exact(kp, (ind + 2) as nat);
    let t = trim(kc + sc + val);
    let c = key.len() as int;
    assert(kp.subrange((ind + 2) as int, kc.len() as int + 1) =~= key.push(':'));
    assert(t.subrange(0, c) =~= key) by {
        assert forall|j: int| 0 <= j < c implies #[trigger] t[j] == key[j] by {
            assert(t[j] == t.subrange(0, c + 1)[j]);
        }
    }
    assert forall|j: int| 0 <= j < key.len() implies !is_ws(#[trigger] key[j]) by {
        assert(key_byte_ok(kb[j]));
    }
    lemma_ws_prefix_exact(key, 0);
    lemma_ws_suffix_exact(key, 0);
    assert(trim(key) =~= key);
    assert(t[0] == key[0]) by {
        assert(t[0] == t.subrange(0, c + 1)[0]);
    }
    assert(!is_comment(t));
    assert forall|j: int| 0 <= j < ind + 2 implies #[trigger] nb[j] == 32 by {
        assert(nb[j] == pre[j]);
    }
    assert(nb[ind + 2int] == kb[0]);
    lemma_lead_spaces_exact(nb, (ind + 2) as nat);
}

/// The step over a line `key: val` inserted below line `l`, where the step
/// over line `l` added a node: the line becomes that node's first property.
#[verifier::spinoff_prover]
#[verifier::rlimit(40)]
proof fn lemma_insert_step(
    lines: Seq<LineView>,
    lines2: Seq<LineView>,
    l: usize,
    key: Seq<char>,
    val: Seq<char>,
)
    requires
        l < lines.len(),
        lines.len() + 1 <= usize::MAX,
        bodies_fit(lines),
        lines2.len() == lines.len() + 1,
        forall|j: int| 0 <= j <= l ==> #[trigger] lines2[j].body == lines[j].body,
        index_upto(lines, true, (l + 1) as nat).nodes.len() == index_upto(lines, true, l as nat).nodes.len() + 1,
        valid_key(encode_utf8(key)),
        trim(val).len() > 0,
        !is_block_marker(trim(val)),
        lines2[l + 1].body == spaces((lead_spaces(lines[l as int].body) + 2) as nat) + encode_utf8(key)
            + seq![58u8, 32u8] + encode_utf8(val),
        lines[l as int].body.len() + 2 <= usize::MAX,
    ensures
        shifted(
            index_upto(lines2, true, (l + 2) as nat),
            index_upto(lines, true, (l + 1) as nat),
            l,
            index_upto(lines, true, l as nat).nodes.len() as int,
            seq![PropertyView { line: (l + 1) as usize, key, value: trim(val), block: false }],
        ),
{
    let m = index_upto(lines, true, l as nat).nodes.len() as int;
    let s = index_upto(lines, true, (l + 1) as nat);
    let nn = index_upto(lines2, true, (l + 1) as nat);
    lemma_shift_upto_before(lines, lines2, true, l, (l + 1) as nat);
    lemma_made_step(lines, true, l);
    lemma_index_upto(lines, true, (l + 1) as nat);
    assert(node_ok(s.nodes[m], m, lines, (l + 1) as nat));
    let ind = lead_spaces(lines[l as int].body);
    assert(s.nodes[m].indent == ind);
    lemma_inserted_line(ind, key, val);
    assert(nn.stack == s.stack && nn.block == s.block);
    assert(nn.nodes[m].indent == ind);
    let prop = PropertyView { line: (l + 1) as usize, key, value: trim(val), block: false };
    let r = index_upto(lines2, true, (l + 2) as nat);
    lemma_lead_spaces(lines[l as int].body);
    assert(nn.stack.len() > 0 && nn.stack.last() == m);
    assert(nn.nodes[nn.stack.last() as int].indent < (ind + 2) as usize);
    assert(close_nodes(nn.nodes, nn.stack, (ind + 2) as usize, (l + 1) as usize) == (nn.nodes, nn.stack));
    let ex = seq![prop];
    let target = shift_nodes(s.nodes, l, m, ex);
    assert(nn.nodes[m].properties =~= Seq::<PropertyView>::empty());
    assert(r.nodes =~= target) by {
        assert forall|q: int| 0 <= q < r.nodes.len() implies #[trigger] r.nodes[q] == target[q] by {
            if q == m {
                assert(ex + s.nodes[m].properties.map_values(|p: PropertyView| shift_prop(p, l)) =~= ex);
                assert(Seq::<PropertyView>::empty().push(prop) =~= ex);
            } else {
                assert(r.nodes[q] == nn.nodes[q]);
            }
        }
    }
}

#[verifier::spinoff_prover]
#[verifier::rlimit(40)]
proof fn lemma_set_inserted(v: DocumentView, n: int, key: Seq<char>, val: Seq<char>)
    requires
        v.wf(),
        v.utf8,
        set_outcome(v, n, key, val) is Ok,
        key_count(v.nodes[n].properties, key) == 0,
    ensures
        ({
            let node = v.nodes[n];
            let ls = set_outcome(v, n, key, val)->Ok_0;
            &&& node.line < v.lines.len()
            &&& v.lines[node.line as int].body.len() + 2 <= usize::MAX
            &&& trim(val).len() > 0
            &&& valid_key(encode_utf8(key))
            &&& v.is_otui
            &&& ls.len() == v.lines.len() + 1
            &&& forall|j: int| 0 <= j <= node.line ==> #[trigger] ls[j].body == v.lines[j].body
            &&& forall|j: int| node.line < j < v.lines.len() ==> #[trigger] ls[j + 1].body == v.lines[j].body
            &&& ls[node.line + 1].body == spaces((lead_spaces(v.lines[node.line as int].body) + 2) as nat)
                + encode_utf8(key) + seq![58u8, 32u8] + encode_utf8(val)
        }),
{
    lemma_wf(v);
    assert(node_ok(v.nodes[n], n, v.lines, v.lines.len()));
    assert(valid_value(val));
    assert(v.is_otui) by {
        if !v.is_otui {
            assert(v.nodes == index_start().nodes);
        }
    }
    let node = v.nodes[n];
    let l = node.line as int;
    let eol = default_eol(v.lines);
    let lines1 = if v.lines[l].eol.len() == 0 {
        v.lines.update(l, LineView { eol, ..v.lines[l] })
    } else {
        v.lines
    };
    let ls = set_outcome(v, n, key, val)->Ok_0;
    assert forall|j: int| 0 <= j <= node.line implies #[trigger] ls[j].body == v.lines[j].body by {
        assert(ls[j] == lines1[j]);
    }
    assert forall|j: int| node.line < j < v.lines.len() implies #[trigger] ls[j + 1].body == v.lines[j].body by {
        assert(ls[j + 1] == lines1[j]);
    }
}

#[verifier::spinoff_prover]
#[verifier::rlimit(40)]
proof fn lemma_set_reads_new(v: DocumentView, n: int, key: Seq<char>, val: Seq<char>)
    requires
        v.wf(),
        v.utf8,
        !is_block_marker(trim(val)),
        set_outcome(v, n, key, val) is Ok,
        key_count(v.nodes[n].properties, key) == 0,
    ensures
        with_lines(v, set_outcome(v, n, key, val)->Ok_0).nodes.len() == v.nodes.len(),
        node_value(with_lines(v, set_outcome(v, n, key, val)->Ok_0), n, key) == trim(val),
{
    lemma_set_inserted(v, n, key, val);
    lemma_wf(v);
    let node = v.nodes[n];
    let l = node.line;
    let lines2 = set_outcome(v, n, key, val)->Ok_0;
    lemma_nodes_made(v.lines, true, v.lines.len());
    assert(index_upto(v.lines, true, l as nat).nodes.len() == n);
    let prop = PropertyView { line: (l + 1) as usize, key, value: trim(val), block: false };
    let ex = seq![prop];
    lemma_insert_step(v.lines, lines2, l, key, val);
    lemma_shift_upto_after(v.lines, lines2, true, l, n, ex, v.lines.len());
    let nv = with_lines(v, lines2);
    assert(nv.nodes == shift_nodes(v.nodes, l, n, ex));
    let props2 = nv.nodes[n].properties;
    assert(props2[0] == prop);
    lemma_first_key(props2, key);
    assert(first_key(props2, key) == Some(0int));
}

/// The lines of well-formed UTF-8 are each well-formed UTF-8.
#[verifier::spinoff_prover]
#[verifier::rlimit(40)]
proof fn lemma_split_lines_utf8(d: Seq<u8>)
    requires
        valid_utf8(d),
    ensures
        lines_utf8(split_lines(d)),
    decreases d.len(),
{
    reveal(lines_utf8);
    if d.len() > 0 {
        lemma_newline_at(d);
        let k = piece_len(d);
        let p = d.subrange(0, k);
        let rest = d.subrange(k, d.len() as int);
        let nl = newline_at(d) as int;
        let body = line_of(p).body;
        if nl < d.len() {
            is_char_boundary_iff_not_is_continuation_byte(d, nl);
            valid_utf8_split(d, nl);
            let tail = d.subrange(nl, d.len() as int);
            assert(tail[0] == 10);
            lemma_ascii_prefix(tail, 1);
            assert(tail.subrange(1, tail.len() as int) =~= rest);
            let head = d.subrange(0, nl);
            if p.len() >= 2 && p[p.len() - 2] == 13 && p[p.len() - 1] == 10 {
                assert(head[nl - 1] == 13);
                is_char_boundary_iff_not_is_continuation_byte(head, nl - 1);
                valid_utf8_split(head, nl - 1);
                assert(body =~= head.subrange(0, nl - 1));
            } else {
                assert(body =~= head);
            }
        } else {
            assert(p =~= d);
            assert(body =~= d);
            assert(rest =~= Seq::<u8>::empty());
        }
        lemma_split_lines_utf8(rest);
        let ls = split_lines(d);
        assert forall|j: int| 0 <= j < ls.len() implies valid_utf8(#[trigger] ls[j].body) by {
            if j > 0 {
                assert(ls[j] == split_lines(rest)[j - 1]);
            }
        }
    }
}

/// The lines that `set` writes keep the line bodies of a UTF-8 document
/// well-formed.
#[verifier::spinoff_prover]
#[verifier::rlimit(40)]
proof fn lemma_set_lines_utf8(v: DocumentView, n: int, key: Seq<char>, val: Seq<char>)
    requires
        v.wf(),
        set_outcome(v, n, key, val) is Ok,
    ensures
        v.utf8 ==> lines_utf8(set_outcome(v, n, key, val)->Ok_0),
{
    if v.utf8 {
        lemma_wf(v);
        reveal(lines_utf8);
        let props = v.nodes[n].properties;
        let ls = set_outcome(v, n, key, val)->Ok_0;
        if key_count(props, key) == 1 {
            lemma_set_existing(v, n, key, val);
            let p = props[first_key(props, key)->0];
            let body = v.lines[p.line as int].body;
            assert(body.contains(58u8));
            lemma_value_line(body, val);
            assert forall|j: int| 0 <= j < ls.len() implies valid_utf8(#[trigger] ls[j].body) by {
                if j != p.line {
                    assert(ls[j] == v.lines[j]);
                }
            }
        } else {
            lemma_set_inserted(v, n, key, val);
            let l = v.nodes[n].line as int;
            lemma_inserted_line(lead_spaces(v.lines[l].body), key, val);
            assert forall|j: int| 0 <= j < ls.len() implies valid_utf8(#[trigger] ls[j].body) by {
                if j > l + 1 {
                    assert(ls[(j - 1) + 1].body == v.lines[j - 1].body);
                }
            }
        }
    }
}

/// A value set in the inspector reads back: when `set` succeeds on a UTF-8
/// document, whether the node had the property (its line is rewritten) or
/// not (a line is inserted below the node's line), the document has as many
/// nodes as before and the node's value for the key is the trimmed new
/// value. The new value is one that does not open a multi-line block, which
/// would change how the lines below it are read.
pub proof fn law_set_reads_back(v: DocumentView, n: int, key: Seq<char>, val: Seq<char>)
    requires
        v.wf(),
        v.utf8,
        !is_block_marker(trim(val)),
        set_outcome(v, n, key, val) is Ok,
    ensures
        with_lines(v, set_outcome(v, n, key, val)->Ok_0).nodes.len() == v.nodes.len(),
        node_value(with_lines(v, set_outcome(v, n, key, val)->Ok_0), n, key) == trim(val),
{
    if key_count(v.nodes[n].properties, key) == 1 {
        lemma_set_reads_existing(v, n, key, val);
    } else {
        lemma_set_reads_new(v, n, key, val);
    }
}

/// The tree shape of the indexer's state over lines ending at `n_lines`:
/// nodes in line order, each less indented than its children, open nodes
/// on a stack in creation order and not yet ended, and each property inside
/// its node's span.
spec fn tree_ok(st: IndexState, n_lines: usize) -> bool {
    &&& forall|j: int| 0 <= j < st.nodes.len() - 1 ==> #[trigger] st.nodes[j].line < st.nodes[j + 1].line
    &&& forall|j: int|
        0 <= j < st.nodes.len() && #[trigger] st.nodes[j].parent is Some ==> st.nodes[st.nodes[j].parent->0 as int].indent
            < st.nodes[j].indent
    &&& forall|s: int| 0 <= s < st.stack.len() ==> st.nodes[#[trigger] st.stack[s] as int].end == n_lines
    &&& forall|s: int, t: int| 0 <= s < t < st.stack.len() ==> #[trigger] st.stack[s] < #[trigger] st.stack[t]
    &&& forall|j: int, q: int|
        0 <= j < st.nodes.len() && 0 <= q < st.nodes[j].properties.len() ==> st.nodes[j].line
            < (#[trigger] st.nodes[j].properties[q]).line < st.nodes[j].end
}

proof fn lemma_close_keeps(nodes: Seq<NodeView>, stack: Seq<usize>, indent: usize, i: usize)
    requires
        stack_ok(nodes, stack),
        forall|s: int, t: int| 0 <= s < t < stack.len() ==> #[trigger] stack[s] < #[trigger] stack[t],
    ensures
        ({
            let r = close_nodes(nodes, stack, indent, i);
            &&& forall|s: int| 0 <= s < r.1.len() ==> r.0[#[trigger] stack[s] as int] == nodes[stack[s] as int]
            &&& forall|j: int| 0 <= j < nodes.len() ==> #[trigger] r.0[j].end == nodes[j].end || r.0[j].end == i
        }),
    decreases stack.len(),
{
    if stack.len() > 0 && nodes[stack.last() as int].indent >= indent {
        let n = stack.last() as int;
        assert(stack[stack.len() - 1] < nodes.len());
        let nodes1 = nodes.update(n, NodeView { end: i, ..nodes[n] });
        let stack1 = stack.drop_last();
        assert forall|s: int| 0 <= s < stack1.len() implies (#[trigger] stack1[s]) < nodes1.len() by {
            assert(stack1[s] == stack[s]);
            assert(stack[s] < nodes.len());
        }
        assert forall|s: int, t: int| 0 <= s < t < stack1.len() implies #[trigger] stack1[s] < #[trigger] stack1[t] by {
            assert(stack1[s] == stack[s] && stack1[t] == stack[t]);
        }
        lemma_close_keeps(nodes1, stack1, indent, i);
        let r = close_nodes(nodes, stack, indent, i);
        lemma_close_nodes_len(nodes1, stack1, indent, i);
        assert forall|s: int| 0 <= s < r.1.len() implies r.0[#[trigger] stack[s] as int] == nodes[stack[s] as int] by {
            assert(stack1[s] == stack[s]);
            assert(stack[s] < stack[stack.len() - 1]);
        }
    }
}

proof fn lemma_close_nodes_len(nodes: Seq<NodeView>, stack: Seq<usize>, indent: usize, i: usize)
    ensures
        close_nodes(nodes, stack, indent, i).1.len() <= stack.len(),
        forall|s: int| 0 <= s < close_nodes(nodes, stack, indent, i).1.len() ==> close_nodes(nodes, stack, indent, i).1[s] == stack[s],
    decreases stack.len(),
{
    if stack.len() > 0 && nodes[stack.last() as int].indent >= indent {
        let n = stack.last() as int;
        let nodes1 = nodes.update(n, NodeView { end: i, ..nodes[n] });
        let stack1 = stack.drop_last();
        lemma_close_nodes_len(nodes1, stack1, indent, i);
        let r = close_nodes(nodes1, stack1, indent, i);
        assert forall|s: int| 0 <= s < r.1.len() implies r.1[s] == stack[s] by {
            assert(stack1[s] == stack[s]);
        }
    }
}

#[verifier::spinoff_prover]
#[verifier::rlimit(40)]
proof fn lemma_tree_ok(lines: Seq<LineView>, utf8: bool, k: nat)
    requires
        k <= lines.len(),
        lines.len() <= usize::MAX,
        bodies_fit(lines),
    ensures
        tree_ok(index_upto(lines, utf8, k), lines.len() as usize),
    decreases k,
{
    if k > 0 {
        let i = (k - 1) as usize;
        lemma_tree_ok(lines, utf8, (k - 1) as nat);
        lemma_index_upto(lines, utf8, (k - 1) as nat);
        let st = index_upto(lines, utf8, (k - 1) as nat);
        let big = lines.len() as usize;
        let body = lines[i as int].body;
        let text = trim(line_text(body, utf8));
        let indent = lead_spaces(body) as usize;
        let r = index_upto(lines, utf8, k);
        if is_comment(text) || (st.block is Some && indent > st.block->0) {
        } else {
            lemma_close_nodes(st.nodes, st.stack, indent, i, lines);
            lemma_close_keeps(st.nodes, st.stack, indent, i);
            let closed = close_nodes(st.nodes, st.stack, indent, i);
            let nodes = closed.0;
            let stack = closed.1;
            let mid = IndexState { nodes, stack, issues: st.issues, block: None };
            assert forall|j: int| 0 <= j < nodes.len() implies node_ok(#[trigger] nodes[j], j, lines, i as nat) by {}
            assert(tree_ok(mid, big)) by {
                assert forall|j: int| 0 <= j < nodes.len() - 1 implies #[trigger] nodes[j].line < nodes[j + 1].line by {
                    assert(nodes[j].line == st.nodes[j].line);
                    assert(nodes[j + 1].line == st.nodes[j + 1].line);
                }
                assert forall|j: int|
                    0 <= j < nodes.len() && #[trigger] nodes[j].parent is Some implies nodes[nodes[j].parent->0 as int].indent
                        < nodes[j].indent by {
                    assert(nodes[j].parent == st.nodes[j].parent);
                    assert(node_ok(st.nodes[j], j, lines, i as nat));
                }
                assert forall|s: int| 0 <= s < stack.len() implies nodes[#[trigger] stack[s] as int].end == big by {
                    assert(stack[s] == st.stack[s]);
                }
                assert forall|s: int, t: int| 0 <= s < t < stack.len() implies #[trigger] stack[s] < #[trigger] stack[t] by {
                    assert(stack[s] == st.stack[s] && stack[t] == st.stack[t]);
                }
                assert forall|j: int, q: int|
                    0 <= j < nodes.len() && 0 <= q < nodes[j].properties.len() implies nodes[j].line
                        < (#[trigger] nodes[j].properties[q]).line < nodes[j].end by {
                    assert(nodes[j].properties == st.nodes[j].properties);
                    assert(node_ok(st.nodes[j], j, lines, i as nat));
                    assert(st.nodes[j].properties[q].line < i);
                }
            }
            match find(text, ':') {
                Some(c) => {
                    if stack.len() > 0 {
                        let parent = stack.last() as int;
                        assert(stack[stack.len() - 1] < nodes.len());
                        assert(nodes[parent].end == big);
                        assert(node_ok(nodes[parent], parent, lines, i as nat));
                        assert forall|j: int, q: int|
                            0 <= j < r.nodes.len() && 0 <= q < r.nodes[j].properties.len() implies r.nodes[j].line
                                < (#[trigger] r.nodes[j].properties[q]).line < r.nodes[j].end by {
                            if j < nodes.len() {
                                if j == parent && q == nodes[j].properties.len() {
                                } else {
                                    assert(r.nodes[j].properties[q] == nodes[j].properties[q]);
                                }
                            }
                        }
                        assert forall|j: int|
                            0 <= j < r.nodes.len() && #[trigger] r.nodes[j].parent is Some implies r.nodes[r.nodes[j].parent->0 as int].indent
                                < r.nodes[j].indent by {
                            if j < nodes.len() {
                                assert(r.nodes[j].parent == nodes[j].parent);
                                assert(node_ok(nodes[j], j, lines, i as nat));
                            }
                        }
                        assert forall|j: int| 0 <= j < r.nodes.len() - 1 implies #[trigger] r.nodes[j].line < r.nodes[j + 1].line by {
                            if j + 1 < nodes.len() {
                                assert(nodes[j].line < nodes[j + 1].line);
                            } else {
                                assert(node_ok(nodes[j], j, lines, i as nat));
                            }
                        }
                        assert forall|s: int| 0 <= s < r.stack.len() implies r.nodes[#[trigger] r.stack[s] as int].end == big by {
                            if s < stack.len() {
                                assert(stack[s] < nodes.len());
                            }
                        }
                        assert forall|s: int, t: int| 0 <= s < t < r.stack.len() implies #[trigger] r.stack[s] < #[trigger] r.stack[t] by {
                            if t == stack.len() {
                                assert(stack[s] < nodes.len());
                            }
                        }
                    }
                },
                None => {
                    assert forall|j: int| 0 <= j < r.nodes.len() - 1 implies #[trigger] r.nodes[j].line < r.nodes[j + 1].line by {
                        if j + 1 < nodes.len() {
                            assert(nodes[j].line < nodes[j + 1].line);
                        } else {
                            assert(node_ok(nodes[j], j, lines, i as nat));
                        }
                    }
                    assert forall|j: int|
                        0 <= j < r.nodes.len() && #[trigger] r.nodes[j].parent is Some implies r.nodes[r.nodes[j].parent->0 as int].indent
                            < r.nodes[j].indent by {
                        if j < nodes.len() {
                            assert(r.nodes[j] == nodes[j]);
                        } else {
                            assert(stack[stack.len() - 1] < nodes.len());
                        }
                    }
                    assert forall|s: int| 0 <= s < r.stack.len() implies r.nodes[#[trigger] r.stack[s] as int].end == big by {
                        if s < stack.len() {
                            assert(stack[s] < nodes.len());
                        }
                    }
                    assert forall|s: int, t: int| 0 <= s < t < r.stack.len() implies #[trigger] r.stack[s] < #[trigger] r.stack[t] by {
                        if t == stack.len() {
                            assert(stack[s] < nodes.len());
                        }
                    }
                    assert forall|j: int, q: int|
                        0 <= j < r.nodes.len() && 0 <= q < r.nodes[j].properties.len() implies r.nodes[j].line
                            < (#[trigger] r.nodes[j].properties[q]).line < r.nodes[j].end by {
                        assert(r.nodes[j] == nodes[j]);
                    }
                },
            }
        }
    }
}

/// Node ends within its parent's, and open nodes are on the stack, for the
/// state after the step over line `i - 1` (ends are `n_lines` or at most `i`).
spec fn nest_ok(nodes: Seq<NodeView>, stack: Seq<usize>, n_lines: usize, i: int) -> bool {
    &&& forall|j: int|
        0 <= j < nodes.len() && #[trigger] nodes[j].parent is Some ==> nodes[j].end
            <= nodes[nodes[j].parent->0 as int].end
    &&& forall|j: int|
        0 <= j < nodes.len() && nodes[j].end == n_lines ==> #[trigger] on_stack(stack, j)
    &&& forall|j: int| 0 <= j < nodes.len() ==> #[trigger] nodes[j].end == n_lines || nodes[j].end <= i
}

spec fn on_stack(stack: Seq<usize>, j: int) -> bool {
    exists|s: int| 0 <= s < stack.len() && stack[s] == j
}

proof fn lemma_close_nest(
    nodes: Seq<NodeView>,
    stack: Seq<usize>,
    indent: usize,
    i: usize,
    n_lines: usize,
    lines: Seq<LineView>,
)
    requires
        i < n_lines,
        n_lines == lines.len(),
        stack_ok(nodes, stack),
        nodes_ok(nodes, lines, i as nat),
        forall|s: int, t: int| 0 <= s < t < stack.len() ==> #[trigger] stack[s] < #[trigger] stack[t],
        forall|s: int| 0 <= s < stack.len() ==> nodes[#[trigger] stack[s] as int].end == n_lines,
        nest_ok(nodes, stack, n_lines, i as int),
    ensures
        nest_ok(close_nodes(nodes, stack, indent, i).0, close_nodes(nodes, stack, indent, i).1, n_lines, i as int),
    decreases stack.len(),
{
    if stack.len() > 0 && nodes[stack.last() as int].indent >= indent {
        let t = stack.last() as int;
        assert(stack[stack.len() - 1] < nodes.len());
        let nodes1 = nodes.update(t, NodeView { end: i, ..nodes[t] });
        let stack1 = stack.drop_last();
        assert forall|s: int| 0 <= s < stack1.len() implies (#[trigger] stack1[s]) < nodes1.len() by {
            assert(stack1[s] == stack[s]);
            assert(stack[s] < nodes.len());
        }
        assert forall|s: int, u: int| 0 <= s < u < stack1.len() implies #[trigger] stack1[s] < #[trigger] stack1[u] by {
            assert(stack1[s] == stack[s] && stack1[u] == stack[u]);
        }
        assert forall|s: int| 0 <= s < stack1.len() implies nodes1[#[trigger] stack1[s] as int].end == n_lines by {
            assert(stack1[s] == stack[s]);
            assert(stack[s] < stack[stack.len() - 1]);
        }
        assert forall|j: int| 0 <= j < nodes1.len() implies node_ok(#[trigger] nodes1[j], j, lines, i as nat) by {
            assert(node_ok(nodes[j], j, lines, i as nat));
        }
        assert(nest_ok(nodes1, stack1, n_lines, i as int)) by {
            assert forall|j: int|
                0 <= j < nodes1.len() && #[trigger] nodes1[j].parent is Some implies nodes1[j].end
                    <= nodes1[nodes1[j].parent->0 as int].end by {
                let p = nodes1[j].parent->0 as int;
                assert(nodes[j].parent == nodes1[j].parent);
                assert(node_ok(nodes[j], j, lines, i as nat));
                if j == t {
                    assert(nodes[j].end <= nodes[p].end);
                } else if p == t {
                    if nodes[j].end == n_lines {
                        assert(on_stack(stack, j));
                        let s = choose|s: int| 0 <= s < stack.len() && stack[s] == j;
                        if s < stack.len() - 1 {
                            assert(stack[s] < stack[stack.len() - 1]);
                        }
                    }
                }
            }
            assert forall|j: int|
                0 <= j < nodes1.len() && nodes1[j].end == n_lines implies #[trigger] on_stack(stack1, j) by {
                assert(j != t);
                assert(nodes[j].end == n_lines);
                assert(on_stack(stack, j));
                let s = choose|s: int| 0 <= s < stack.len() && stack[s] == j;
                assert(s != stack.len() - 1);
                assert(stack1[s] == j);
            }
            assert forall|j: int| 0 <= j < nodes1.len() implies #[trigger] nodes1[j].end == n_lines
                || nodes1[j].end <= i by {}
        }
        lemma_close_nest(nodes1, stack1, indent, i, n_lines, lines);
    }
}

#[verifier::spinoff_prover]
#[verifier::rlimit(40)]
proof fn lemma_nest_ok(lines: Seq<LineView>, utf8: bool, k: nat)
    requires
        k <= lines.len(),
        lines.len() <= usize::MAX,
        bodies_fit(lines),
    ensures
        nest_ok(index_upto(lines, utf8, k).nodes, index_upto(lines, utf8, k).stack, lines.len() as usize, k as int),
    decreases k,
{
    let big = lines.len() as usize;
    if k > 0 {
        let i = (k - 1) as usize;
        lemma_nest_ok(lines, utf8, (k - 1) as nat);
        lemma_tree_ok(lines, utf8, (k - 1) as nat);
        lemma_index_upto(lines, utf8, (k - 1) as nat);
        let st = index_upto(lines, utf8, (k - 1) as nat);
        let body = lines[i as int].body;
        let text = trim(line_text(body, utf8));
        let indent = lead_spaces(body) as usize;
        let r = index_upto(lines, utf8, k);
        if is_comment(text) || (st.block is Some && indent > st.block->0) {
            assert forall|j: int| 0 <= j < r.nodes.len() implies #[trigger] r.nodes[j].end == big
                || r.nodes[j].end <= k by {}
        } else {
            lemma_close_nodes(st.nodes, st.stack, indent, i, lines);
            lemma_close_keeps(st.nodes, st.stack, indent, i);
            lemma_close_nest(st.nodes, st.stack, indent, i, big, lines);
            let closed = close_nodes(st.nodes, st.stack, indent, i);
            let nodes = closed.0;
            let stack = closed.1;
            assert forall|s: int| 0 <= s < stack.len() implies nodes[#[trigger] stack[s] as int].end == big by {
                assert(stack[s] == st.stack[s]);
            }
            assert(nest_ok(nodes, stack, big, i as int));
            if stack.len() > 0 {
                assert(stack[stack.len() - 1] < nodes.len());
            }
            assert forall|j: int|
                0 <= j < r.nodes.len() && #[trigger] r.nodes[j].parent is Some implies r.nodes[j].end
                    <= r.nodes[r.nodes[j].parent->0 as int].end by {
                if j < nodes.len() {
                    assert(node_ok(nodes[j], j, lines, i as nat));
                    assert(r.nodes[j].end == nodes[j].end && r.nodes[j].parent == nodes[j].parent);
                    assert(r.nodes[nodes[j].parent->0 as int].end == nodes[nodes[j].parent->0 as int].end);
                }
            }
            assert forall|j: int|
                0 <= j < r.nodes.len() && r.nodes[j].end == big implies #[trigger] on_stack(r.stack, j) by {
                if j < nodes.len() {
                    assert(r.nodes[j].end == nodes[j].end);
                    assert(on_stack(stack, j));
                    let s = choose|s: int| 0 <= s < stack.len() && stack[s] == j;
                    assert(r.stack[s] == j);
                } else {
                    assert(r.stack[r.stack.len() - 1] == j);
                }
            }
            assert forall|j: int| 0 <= j < r.nodes.len() implies #[trigger] r.nodes[j].end == big
                || r.nodes[j].end <= k by {
                if j < nodes.len() {
                    assert(r.nodes[j].end == nodes[j].end);
                }
            }
        }
    }
}

/// The index of a document has the shape of a tree over its lines: each
/// node starts on a line before the one where it ends, at most at the last
/// line, at the indentation of its line; nodes come in line order; a node's
/// parent comes before it, is less indented and does not end before it;
/// each property lies on a line inside its node's span and holds a `:`; and
/// a document that is not an interface file has no nodes and no issues.
pub proof fn law_index_shape(v: DocumentView)
    requires
        v.wf(),
    ensures
        forall|j: int|
            0 <= j < v.nodes.len() ==> #[trigger] v.nodes[j].line < v.nodes[j].end <= v.lines.len()
                && v.nodes[j].indent == lead_spaces(v.lines[v.nodes[j].line as int].body),
        forall|j: int| 0 <= j < v.nodes.len() - 1 ==> #[trigger] v.nodes[j].line < v.nodes[j + 1].line,
        forall|j: int|
            0 <= j < v.nodes.len() && #[trigger] v.nodes[j].parent is Some ==> v.nodes[j].parent->0 < j
                && v.nodes[v.nodes[j].parent->0 as int].indent < v.nodes[j].indent
                && v.nodes[j].end <= v.nodes[v.nodes[j].parent->0 as int].end,
        forall|j: int, q: int|
            0 <= j < v.nodes.len() && 0 <= q < v.nodes[j].properties.len() ==> v.nodes[j].line
                < (#[trigger] v.nodes[j].properties[q]).line < v.nodes[j].end
                && v.lines[v.nodes[j].properties[q].line as int].body.contains(58u8),
        !v.is_otui ==> v.nodes.len() == 0 && v.issues.len() == 0,
{
    lemma_wf(v);
    if v.is_otui {
        lemma_tree_ok(v.lines, v.utf8, v.lines.len());
        lemma_nest_ok(v.lines, v.utf8, v.lines.len());
        assert forall|j: int| 0 <= j < v.nodes.len() && #[trigger] v.nodes[j].parent is Some implies v.nodes[j].parent->0 < j by {
            assert(node_ok(v.nodes[j], j, v.lines, v.lines.len()));
        }
        assert forall|j: int| 0 <= j < v.nodes.len() implies #[trigger] v.nodes[j].line < v.nodes[j].end <= v.lines.len()
            && v.nodes[j].indent == lead_spaces(v.lines[v.nodes[j].line as int].body) by {
            assert(node_ok(v.nodes[j], j, v.lines, v.lines.len()));
        }
    }
}

/// Lines as splitting their bytes gives them: no body holds a `\n`, only
/// the last line may lack a terminator, and a body ending in `\r` is not
/// terminated by a lone `\n`.
pub open spec fn lines_canonical(ls: Seq<LineView>) -> bool {
    &&& forall|i: int| 0 <= i < ls.len() ==> !(#[trigger] ls[i]).body.contains(10u8)
    &&& forall|i: int| 0 <= i < ls.len() - 1 ==> (#[trigger] ls[i]).eol.len() > 0
    &&& forall|i: int|
        0 <= i < ls.len() && (#[trigger] ls[i]).eol == seq![10u8] && ls[i].body.len() > 0 ==> ls[i].body.last()
            != 13
}

/// Lines of that shape are what splitting their bytes gives back.
#[verifier::spinoff_prover]
#[verifier::rlimit(40)]
pub proof fn lemma_split_canonical(ls: Seq<LineView>)
    requires
        lines_nonempty(ls),
        eols_ok(ls),
        lines_canonical(ls),
    ensures
        split_lines(lines_bytes(ls)) == ls,
    decreases ls.len(),
{
    if ls.len() == 0 {
        assert(split_lines(lines_bytes(ls)) =~= ls);
    } else {
        let b0 = ls[0].body;
        let e0 = ls[0].eol;
        let rest = ls.drop_first();
        let r = lines_bytes(rest);
        let d = lines_bytes(ls);
        assert(d == b0 + e0 + r);
        assert forall|i: int| 0 <= i < rest.len() implies (#[trigger] rest[i]).body.len() + rest[i].eol.len() > 0 by {
            assert(rest[i] == ls[i + 1]);
        }
        assert forall|i: int| 0 <= i < rest.len() implies (#[trigger] rest[i]).eol == Seq::<u8>::empty()
            || rest[i].eol == seq![10u8] || rest[i].eol == seq![13u8, 10u8] by {
            assert(rest[i] == ls[i + 1]);
        }
        assert forall|i: int| 0 <= i < rest.len() implies !(#[trigger] rest[i]).body.contains(10u8) by {
            assert(rest[i] == ls[i + 1]);
        }
        assert forall|i: int| 0 <= i < rest.len() - 1 implies (#[trigger] rest[i]).eol.len() > 0 by {
            assert(rest[i] == ls[i + 1]);
        }
        assert forall|i: int|
            0 <= i < rest.len() && (#[trigger] rest[i]).eol == seq![10u8] && rest[i].body.len() > 0 implies rest[i].body.last()
                != 13 by {
            assert(rest[i] == ls[i + 1]);
        }
        lemma_split_canonical(rest);
        assert(!ls[0].body.contains(10u8));
        assert(e0 == Seq::<u8>::empty() || e0 == seq![10u8] || e0 == seq![13u8, 10u8]);
        if e0.len() > 0 {
            let k = (b0.len() + e0.len() - 1) as nat;
            assert(d[k as int] == 10);
            assert forall|j: int| 0 <= j < k implies #[trigger] d[j] != 10 by {
                if j < b0.len() {
                    assert(d[j] == b0[j]);
                } else {
                    assert(d[j] == e0[0]);
                }
            }
            lemma_newline_at_exact(d, k);
            let p = d.subrange(0, k + 1int);
            assert(p =~= b0 + e0);
            assert(d.subrange(k + 1int, d.len() as int) =~= r);
            if e0 == seq![13u8, 10u8] {
                assert(p.subrange(0, p.len() - 2) =~= b0);
            } else {
                if b0.len() > 0 {
                    assert(p[p.len() - 2] == b0.last());
                }
                assert(p.subrange(0, p.len() - 1) =~= b0);
            }
            assert(line_of(p) == ls[0]);
            assert(split_lines(d) =~= ls);
        } else {
            assert(ls.len() == 1);
            assert(rest.len() == 0);
            assert(d =~= b0);
            assert forall|j: int| 0 <= j < d.len() implies #[trigger] d[j] != 10 by {}
            lemma_newline_at_exact(d, d.len());
            assert(d.subrange(0, d.len() as int) =~= d);
            assert(d.subrange(d.len() as int, d.len() as int) =~= Seq::<u8>::empty());
            assert(line_of(d) == ls[0]);
            assert(split_lines(d) =~= ls);
        }
    }
}

/// Splitting bytes into lines gives lines of that shape.
#[verifier::spinoff_prover]
#[verifier::rlimit(40)]
proof fn lemma_split_lines_canonical(d: Seq<u8>)
    ensures
        lines_canonical(split_lines(d)),
    decreases d.len(),
{
    if d.len() > 0 {
        lemma_newline_at(d);
        let k = piece_len(d);
        let p = d.subrange(0, k);
        let rest = d.subrange(k, d.len() as int);
        let nl = newline_at(d) as int;
        let first = line_of(p);
        lemma_split_lines_canonical(rest);
        let tail = split_lines(rest);
        let ls = split_lines(d);
        assert(ls == seq![first] + tail);
        assert(!first.body.contains(10u8)) by {
            if first.body.contains(10u8) {
                let j = choose|j: int| 0 <= j < first.body.len() && first.body[j] == 10u8;
                assert(first.body[j] == d[j]);
            }
        }
        if nl >= d.len() {
            assert(rest.len() == 0);
            assert(tail.len() == 0);
        } else {
            assert(p[p.len() - 1] == 10);
            assert(first.eol.len() > 0);
        }
        if first.eol == seq![10u8] && first.body.len() > 0 {
            assert(first.body.last() == p[p.len() - 2]);
        }
        assert forall|i: int| 0 <= i < ls.len() implies !(#[trigger] ls[i]).body.contains(10u8) by {
            if i > 0 {
                assert(ls[i] == tail[i - 1]);
            }
        }
        assert forall|i: int| 0 <= i < ls.len() - 1 implies (#[trigger] ls[i]).eol.len() > 0 by {
            if i > 0 {
                assert(ls[i] == tail[i - 1]);
            }
        }
        assert forall|i: int|
            0 <= i < ls.len() && (#[trigger] ls[i]).eol == seq![10u8] && ls[i].body.len() > 0 implies ls[i].body.last()
                != 13 by {
            if i > 0 {
                assert(ls[i] == tail[i - 1]);
            }
        }
    }
}

/// A document as parsed from bytes has lines of that shape, and lines that
/// start with a byte order mark only when the document has one.
pub proof fn lemma_parsed_shape(b: Seq<u8>, is_otui: bool)
    requires
        parse_refusal(b) is None,
    ensures
        lines_canonical(parsed(b, is_otui).lines),
        parsed(b, is_otui).bom || !has_bom(lines_bytes(parsed(b, is_otui).lines)),
{
    lemma_split_lines_canonical(payload(b));
    lemma_split_lines(payload(b));
}

/// Edits keep whether the document is an interface file.
pub proof fn lemma_edits_keep_kind(v: DocumentView, es: Seq<Edit>)
    requires
        edits_outcome(v, es) is Ok,
    ensures
        edits_outcome(v, es)->Ok_0.is_otui == v.is_otui,
    decreases es.len(),
{
    if es.len() > 0 {
        let v2 = edit_outcome(v, es[0])->Ok_0;
        assert(v2.is_otui == v.is_otui);
        lemma_edits_keep_kind(v2, es.drop_first());
    }
}

/// Reading a UTF-8 document's own bytes again gives back the document (its
/// `saved` bytes aside): the same lines, byte order mark, encoding, nodes
/// and issues, when its lines are as splitting their bytes gives them, the
/// bytes parse, and its lines do not themselves start with a byte order
/// mark unless it has one.
pub proof fn law_reparse_own_bytes(v: DocumentView, w: DocumentView)
    requires
        v.wf(),
        v.utf8,
        lines_canonical(v.lines),
        v.bom || !has_bom(lines_bytes(v.lines)),
        parse_refusal(content(v)) is None,
        w.is_otui == v.is_otui,
    ensures
        reparsed(w, content(v)) matches Ok(d2) && d2 == (DocumentView { saved: w.saved, ..v }),
{
    lemma_wf(v);
    lemma_split_canonical(v.lines);
    let lb = lines_bytes(v.lines);
    if v.bom {
        assert(content(v) =~= bom_bytes() + lb);
        assert(content(v).subrange(0, 3) =~= bom_bytes());
        assert(content(v)[0] == 0xef && content(v)[1] == 0xbb && content(v)[2] == 0xbf);
        assert(has_bom(content(v)));
        assert(payload(content(v)) =~= lb);
    } else {
        assert(content(v) =~= lb);
        assert(payload(content(v)) == lb);
    }
    let d2 = reparsed(w, content(v))->Ok_0;
    assert(d2 =~= (DocumentView { saved: w.saved, ..v }));
}

/// Removing a widget drops its whole block, starting at its own line: the
/// new lines are the lines before the widget's line followed by the lines
/// from some `e` on, where `e` is past the widget's line and within its
/// span, the lines from `e` to the end of its span are blank or comments
/// (they stay), and the last line dropped is the widget's own line or not a
/// blank or comment line.
pub proof fn law_remove_drops_block(v: DocumentView, n: int)
    requires
        v.wf(),
        remove_outcome(v, n) is Ok,
    ensures
        exists|e: int|
            #![trigger v.lines.subrange(e, v.lines.len() as int)]
            v.nodes[n].line < e <= v.nodes[n].end && remove_outcome(v, n)->Ok_0 == v.lines.subrange(
                0,
                v.nodes[n].line as int,
            ) + v.lines.subrange(e, v.lines.len() as int) && (forall|j: int|
                e <= j < v.nodes[n].end ==> #[trigger] is_comment(trim(line_text(v.lines[j].body, v.utf8))))
                && (e == v.nodes[n].line + 1 || !is_comment(trim(line_text(v.lines[e - 1].body, v.utf8)))),
{
    lemma_wf(v);
    assert(node_ok(v.nodes[n], n, v.lines, v.lines.len()));
    let start = v.nodes[n].line as int;
    let end = v.nodes[n].end as int;
    lemma_widget_end(v.lines, v.utf8, start, end);
    lemma_widget_end_trail(v.lines, v.utf8, start, end);
    let e = widget_end(v.lines, v.utf8, start, end);
    assert(v.lines.subrange(e, v.lines.len() as int) == v.lines.subrange(e, v.lines.len() as int));
}

proof fn lemma_widget_end_trail(ls: Seq<LineView>, utf8: bool, start: int, end: int)
    requires
        0 <= start < end <= ls.len(),
    ensures
        forall|j: int| widget_end(ls, utf8, start, end) <= j < end ==> #[trigger] is_comment(trim(line_text(ls[j].body, utf8))),
        widget_end(ls, utf8, start, end) == start + 1 || !is_comment(
            trim(line_text(ls[widget_end(ls, utf8, start, end) - 1].body, utf8)),
        ),
    decreases end,
{
    if end > start + 1 && 0 < end <= ls.len() && is_comment(trim(line_text(ls[end - 1].body, utf8))) {
        lemma_widget_end_trail(ls, utf8, start, end - 1);
    }
}

/// Removing a property removes exactly its line: when it succeeds, node `n`
/// has exactly one property named `key`, not a block, and the new lines are
/// the old ones without that property's line. It succeeds whenever the
/// document has no tab in its indentation, `n` is a node, and the key names
/// exactly one property of it that is not a block.
pub proof fn law_remove_property_drops_line(v: DocumentView, n: int, key: Seq<char>)
    requires
        v.wf(),
    ensures
        remove_property_outcome(v, n, key) is Ok ==> exists|q: int|
            #![trigger v.nodes[n].properties[q]]
            0 <= q < v.nodes[n].properties.len() && v.nodes[n].properties[q].key == key
                && !v.nodes[n].properties[q].block && (forall|q2: int|
                0 <= q2 < v.nodes[n].properties.len() && #[trigger] v.nodes[n].properties[q2].key == key
                    ==> q2 == q) && remove_property_outcome(v, n, key)->Ok_0 == v.lines.remove(
                v.nodes[n].properties[q].line as int,
            ) && v.nodes[n].properties[q].line < v.lines.len(),
        (!has_tab_issue(v) && 0 <= n < v.nodes.len() && exists|q: int|
            #![trigger v.nodes[n].properties[q]]
            0 <= q < v.nodes[n].properties.len() && v.nodes[n].properties[q].key == key
                && !v.nodes[n].properties[q].block && (forall|q2: int|
                0 <= q2 < v.nodes[n].properties.len() && #[trigger] v.nodes[n].properties[q2].key == key
                    ==> q2 == q)) ==> remove_property_outcome(v, n, key) is Ok,
{
    if 0 <= n < v.nodes.len() {
        let props = v.nodes[n].properties;
        lemma_first_key(props, key);
        lemma_key_count_positive(props, key);
        lemma_key_count_one(props, key);
        lemma_wf(v);
        assert(node_ok(v.nodes[n], n, v.lines, v.lines.len()));
    }
}

/// `key_count` is one exactly when the key names exactly one property.
proof fn lemma_key_count_one(props: Seq<PropertyView>, key: Seq<char>)
    ensures
        (key_count(props, key) == 1) == (exists|q: int|
            0 <= q < props.len() && props[q].key == key && forall|q2: int|
                0 <= q2 < props.len() && #[trigger] props[q2].key == key ==> q2 == q),
    decreases props.len(),
{
    if props.len() > 0 {
        let init = props.drop_last();
        let l = props.len() - 1;
        lemma_key_count_one(init, key);
        lemma_key_count_positive(init, key);
        if props.last().key == key {
            if key_count(init, key) == 0 {
                assert forall|q2: int| 0 <= q2 < props.len() && #[trigger] props[q2].key == key implies q2 == l by {
                    if q2 < l {
                        assert(init[q2].key == key);
                    }
                }
            } else {
                let w = choose|i: int| 0 <= i < init.len() && init[i].key == key;
                assert(props[w].key == key);
                if exists|q: int|
                    0 <= q < props.len() && props[q].key == key && forall|q2: int|
                        0 <= q2 < props.len() && #[trigger] props[q2].key == key ==> q2 == q {
                    let q = choose|q: int|
                        0 <= q < props.len() && props[q].key == key && forall|q2: int|
                            0 <= q2 < props.len() && #[trigger] props[q2].key == key ==> q2 == q;
                    assert(props[l].key == key);
                }
            }
        } else {
            if exists|q: int|
                0 <= q < init.len() && init[q].key == key && forall|q2: int|
                    0 <= q2 < init.len() && #[trigger] init[q2].key == key ==> q2 == q {
                let q = choose|q: int|
                    0 <= q < init.len() && init[q].key == key && forall|q2: int|
                        0 <= q2 < init.len() && #[trigger] init[q2].key == key ==> q2 == q;
                assert(props[q].key == key);
                assert forall|q2: int| 0 <= q2 < props.len() && #[trigger] props[q2].key == key implies q2 == q by {
                    if q2 < l {
                        assert(init[q2].key == key);
                    }
                }
            }
            if exists|q: int|
                0 <= q < props.len() && props[q].key == key && forall|q2: int|
                    0 <= q2 < props.len() && #[trigger] props[q2].key == key ==> q2 == q {
                let q = choose|q: int|
                    0 <= q < props.len() && props[q].key == key && forall|q2: int|
                        0 <= q2 < props.len() && #[trigger] props[q2].key == key ==> q2 == q;
                assert(q < l);
                assert(init[q].key == key);
                assert forall|q2: int| 0 <= q2 < init.len() && #[trigger] init[q2].key == key implies q2 == q by {
                    assert(props[q2].key == key);
                }
            }
        }
    }
}

/// The terminator of the first line that has one, or `\n`.
proof fn lemma_default_eol_first(ls: Seq<LineView>)
    ensures
        (exists|j: int|
            0 <= j < ls.len() && ls[j].eol.len() > 0 && (forall|i: int| 0 <= i < j ==> #[trigger] ls[i].eol.len() == 0)
                && default_eol(ls) == ls[j].eol) || ((forall|i: int| 0 <= i < ls.len() ==> #[trigger] ls[i].eol.len() == 0)
            && default_eol(ls) == seq![10u8]),
    decreases ls.len(),
{
    if ls.len() > 0 && ls[0].eol.len() == 0 {
        let t = ls.drop_first();
        lemma_default_eol_first(t);
        if exists|j: int|
            0 <= j < t.len() && t[j].eol.len() > 0 && (forall|i: int| 0 <= i < j ==> #[trigger] t[i].eol.len() == 0)
                && default_eol(t) == t[j].eol {
            let j = choose|j: int|
                0 <= j < t.len() && t[j].eol.len() > 0 && (forall|i: int| 0 <= i < j ==> #[trigger] t[i].eol.len() == 0)
                    && default_eol(t) == t[j].eol;
            assert(ls[j + 1] == t[j]);
            assert forall|i: int| 0 <= i < j + 1 implies #[trigger] ls[i].eol.len() == 0 by {
                if i > 0 {
                    assert(ls[i] == t[i - 1]);
                }
            }
        } else {
            assert forall|i: int| 0 <= i < ls.len() implies #[trigger] ls[i].eol.len() == 0 by {
                if i > 0 {
                    assert(ls[i] == t[i - 1]);
                }
            }
        }
    }
}

/// Adding a widget inserts three lines and touches nothing else but the
/// terminator of the line before them: at the end of the parent's span (or
/// of the document without a parent), indented two spaces deeper than the
/// parent (or not at all), the widget's kind, then `id: ` and the id, then
/// `size: 120 32`, two spaces deeper still. The new lines end like the
/// first line of the document that has a terminator (or with `\n`), and the
/// line before them gets that terminator when it had none.
pub proof fn law_add_inserts_widget(v: DocumentView, parent: Option<usize>, kind: Seq<char>, id: Seq<char>)
    requires
        v.wf(),
        add_outcome(v, parent, kind, id) is Ok,
    ensures
        ({
            let at: int = match parent {
                Some(p) => v.nodes[p as int].end as int,
                None => v.lines.len() as int,
            };
            let ind: nat = match parent {
                Some(p) => (v.nodes[p as int].indent + 2) as nat,
                None => 0,
            };
            let ls = add_outcome(v, parent, kind, id)->Ok_0;
            let eol = ls[at].eol;
            &&& 0 <= at <= v.lines.len()
            &&& ls.len() == v.lines.len() + 3
            &&& ls[at].body == Seq::new(ind, |_i: int| 32u8) + encode_utf8(kind)
            &&& ls[at + 1].body == Seq::new(ind + 2, |_i: int| 32u8) + seq![105u8, 100u8, 58u8, 32u8]
                + encode_utf8(id)
            &&& ls[at + 2].body == Seq::new(ind + 2, |_i: int| 32u8) + seq![115u8, 105u8, 122u8, 101u8, 58u8,
                32u8, 49u8, 50u8, 48u8, 32u8, 51u8, 50u8]
            &&& ls[at + 1].eol == eol && ls[at + 2].eol == eol
            &&& ((exists|j: int|
                0 <= j < v.lines.len() && v.lines[j].eol.len() > 0 && (forall|i: int|
                    0 <= i < j ==> #[trigger] v.lines[i].eol.len() == 0) && eol == v.lines[j].eol) || ((
            forall|i: int| 0 <= i < v.lines.len() ==> #[trigger] v.lines[i].eol.len() == 0) && eol == seq![10u8]))
            &&& forall|j: int| 0 <= j < at - 1 ==> #[trigger] ls[j] == v.lines[j]
            &&& at > 0 ==> ls[at - 1].body == v.lines[at - 1].body && ls[at - 1].eol == (if v.lines[at
                - 1].eol.len() == 0 {
                eol
            } else {
                v.lines[at - 1].eol
            })
            &&& forall|j: int| at <= j < v.lines.len() ==> #[trigger] ls[j + 3] == v.lines[j]
        }),
{
    lemma_wf(v);
    lemma_default_eol_first(v.lines);
    if let Some(p) = parent {
        assert(node_ok(v.nodes[p as int], p as int, v.lines, v.lines.len()));
    }
    let (at, ind) = add_place(v, parent);
    let ls = add_outcome(v, parent, kind, id)->Ok_0;
    let eol = default_eol(v.lines);
    let lines1 = if at > 0 && v.lines[at - 1].eol.len() == 0 {
        v.lines.update(at - 1, LineView { eol, ..v.lines[at - 1] })
    } else {
        v.lines
    };
    assert(spaces(ind) =~= Seq::new(ind, |_i: int| 32u8));
    assert(spaces(ind + 2) =~= Seq::new(ind + 2, |_i: int| 32u8));
    assert forall|j: int| 0 <= j < at - 1 implies #[trigger] ls[j] == v.lines[j] by {
        assert(ls[j] == lines1[j]);
    }
    assert forall|j: int| at <= j < v.lines.len() implies #[trigger] ls[j + 3] == v.lines[j] by {
        assert(ls[j + 3] == lines1[j]);
    }
    if at > 0 {
        assert(ls[at - 1] == lines1[at - 1]);
    }
}

/// Whether a file with this extension is an interface file (`otui`, in any
/// ASCII case); other files are kept as plain source.
pub fn is_otui_extension(extension: &str) -> (r: bool)
    ensures
        r == (crate::text::lower(extension@) == "otui"@),
{
    let e = chars_of(extension);
    let l = crate::text::lowered(e.as_slice());
    let w = chars_of("otui");
    same_chars(l.as_slice(), w.as_slice())
}

/// The refusal of a save that would overwrite a change made outside the editor.
pub open spec fn msg_changed_outside() -> Seq<char> {
    "Arquivo mudou fora do editor. Reabra ou salve uma cópia."@
}

/// The refusal of a save onto another existing file without leave to overwrite.
pub open spec fn msg_target_exists() -> Seq<char> {
    "Destino já existe."@
}

/// At most this many documents are open at once.
pub const MAX_TABS: usize = 8;

/// The refusal to open a file when every tab is in use.
pub open spec fn msg_close_a_tab() -> Seq<char> {
    "Feche uma aba antes de abrir outro documento."@
}

/// The refusal of a new document when every tab is in use.
pub open spec fn msg_tab_limit() -> Seq<char> {
    "Limite de oito documentos."@
}

/// Where opening a file leads, given the tab that already holds it, if
/// any, and how many tabs are open: to that tab; else to a new tab
/// (`Ok(None)`) unless every tab is in use.
pub fn open_target(existing: Option<usize>, open_tabs: usize) -> (r: Result<Option<usize>, String>)
    ensures
        match existing {
            Some(i) => r matches Ok(Some(j)) && j == i,
            None => if open_tabs >= MAX_TABS {
                r matches Err(e) && e@ == msg_close_a_tab()
            } else {
                r matches Ok(None)
            },
        },
{
    match existing {
        Some(i) => Ok(Some(i)),
        None => if open_tabs >= MAX_TABS {
            Err(String::from_str("Feche uma aba antes de abrir outro documento."))
        } else {
            Ok(None)
        },
    }
}

/// Whether a new document may be opened beside `open_tabs` others.
pub fn new_tab_check(open_tabs: usize) -> (r: Result<(), String>)
    ensures
        r is Ok <==> open_tabs < MAX_TABS,
        r matches Err(e) ==> e@ == msg_tab_limit(),
{
    if open_tabs >= MAX_TABS {
        Err(String::from_str("Limite de oito documentos."))
    } else {
        Ok(())
    }
}

/// The decision before saving: `same` tells that the target is the
/// document's own file, `unchanged` that its bytes on disk are still those
/// last saved or loaded (only read when `same`), `exists` that the target
/// exists. Refused when the own file changed on disk, or when another existing
/// file may not be overwritten; else `Ok(backup)`, where `backup` tells that
/// the old file is kept as a `.bak` copy first.
pub fn save_check(same: bool, unchanged: bool, exists: bool, overwrite: bool) -> (r: Result<bool, String>)
    ensures
        same && !unchanged ==> r is Err && r->Err_0@ == msg_changed_outside(),
        !(same && !unchanged) && exists && !same && !overwrite ==> r is Err && r->Err_0@ == msg_target_exists(),
        !(same && !unchanged) && !(exists && !same && !overwrite) ==> r == Ok::<bool, String>(exists),
{
    if same && !unchanged {
        return Err(String::from_str("Arquivo mudou fora do editor. Reabra ou salve uma cópia."));
    }
    if exists && !same && !overwrite {
        return Err(String::from_str("Destino já existe."));
    }
    Ok(exists)
}

impl Document {
    /// Whether the bytes are those last saved or loaded.
    pub fn matches_saved(&self, bytes: &[u8]) -> (r: bool)
        ensures
            r == (bytes@ == self@.saved),
    {
        if bytes.len() != self.saved.len() {
            return false;
        }
        let mut i: usize = 0;
        while i < bytes.len()
            invariant
                bytes@.len() == self@.saved.len(),
                i <= bytes@.len(),
                forall|j: int| 0 <= j < i ==> bytes@[j] == self@.saved[j],
            decreases bytes.len() - i,
        {
            if bytes[i] != self.saved[i] {
                return false;
            }
            i = i + 1;
        }
        assert(bytes@ =~= self@.saved);
        true
    }

    /// The document was written to `path`: its bytes become the saved ones.
    pub fn mark_saved(&mut self, path: std::path::PathBuf)
        ensures
            final(self)@ == (DocumentView { saved: content(old(self)@), ..old(self)@ }),
            final(self).path_value() == Some(path),
    {
        self.saved = self.bytes();
        self.path = Some(path);
        proof {
            assert(self@ =~= DocumentView { saved: content(old(self)@), ..old(self)@ });
        }
    }

    /// Node `n`, if it exists.
    pub fn node(&self, n: usize) -> (r: Option<&Node>)
        ensures
            match r {
                Some(x) => n < self@.nodes.len() && x@ == self@.nodes[n as int],
                None => n >= self@.nodes.len(),
            },
    {
        if n < self.nodes.len() {
            Some(&self.nodes[n])
        } else {
            None
        }
    }

    /// Number of nodes.
    pub fn node_count(&self) -> (r: usize)
        ensures
            r == self@.nodes.len(),
    {
        self.nodes.len()
    }
}

} // verus!
