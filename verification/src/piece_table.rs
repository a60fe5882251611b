//! A piece table: the text is kept as a list of pieces, each of which
//! points into one of two buffers, the original text and the text added
//! since. The buffers hold characters, and the pieces are kept counting
//! characters of them; the pieces that `nodes` and
//! `get_node_where_it_got_inserted_and_index` give, and the text positions
//! that `insert`, `remove` and `get_node_where_it_got_inserted_and_index`
//! take and give, count bytes of the UTF-8 encoding.
use vstd::prelude::*;
use vstd::utf8::encode_utf8;

use crate::encoding::{
    byte_len, byte_pos, bytes_of, char_pos, char_position, is_char_pos, lemma_byte_pos_mono,
    lemma_byte_len_bounds, lemma_byte_len_concat, lemma_char_pos, lemma_char_pos_order,
};
use crate::text::{
    append_chars, chars_of, count_newlines, join_lines, lemma_join_split, lemma_split_lines_len,
    lemma_split_lines_no_newline, newline_count, no_newline, split_into_lines, split_lines,
    string_of, sub_chars, views,
};

verus! {

/// The buffer a piece points into.
#[allow(non_camel_case_types)]
#[derive(Clone, Copy, Debug, PartialEq, Eq, Structural)]
pub enum NodeType {
    ORIGINAL,
    ADDED,
}

/// A piece: `length` characters of a buffer, from `start` on.
#[derive(Clone, Copy, Debug, PartialEq, Eq, Structural)]
pub struct Node {
    pub node_type: NodeType,
    pub start: u32,
    pub length: usize,
}

/// A text as a list of pieces over two buffers.
#[derive(Debug, Clone)]
pub struct PieceTable {
    original: Vec<char>,
    added: Vec<char>,
    nodes: Vec<Node>,
}

/// The buffer that a piece of the given type points into.
pub open spec fn buffer(orig: Seq<char>, added: Seq<char>, t: NodeType) -> Seq<char> {
    match t {
        NodeType::ORIGINAL => orig,
        NodeType::ADDED => added,
    }
}

/// The characters a piece stands for.
pub open spec fn piece(orig: Seq<char>, added: Seq<char>, n: Node) -> Seq<char> {
    buffer(orig, added, n.node_type).subrange(n.start as int, n.start + n.length)
}

/// The text that a list of pieces stands for: their characters one after
/// the other.
pub open spec fn text_of(orig: Seq<char>, added: Seq<char>, nodes: Seq<Node>) -> Seq<char>
    decreases nodes.len(),
{
    if nodes.len() == 0 {
        Seq::<char>::empty()
    } else {
        text_of(orig, added, nodes.drop_last()) + piece(orig, added, nodes.last())
    }
}

/// The sum of the lengths of the pieces.
pub open spec fn lengths(nodes: Seq<Node>) -> int
    decreases nodes.len(),
{
    if nodes.len() == 0 {
        0
    } else {
        lengths(nodes.drop_last()) + nodes.last().length
    }
}

/// Every piece lies inside its buffer.
pub open spec fn nodes_fit(orig: Seq<char>, added: Seq<char>, nodes: Seq<Node>) -> bool {
    forall|i: int|
        0 <= i < nodes.len() ==> #[trigger] nodes[i].start + nodes[i].length <= buffer(
            orig,
            added,
            nodes[i].node_type,
        ).len()
}

/// The pieces after `push` of `n` characters: the last piece grows when it
/// ends where the added buffer ends, else a new piece follows it.
pub open spec fn push_nodes(nodes: Seq<Node>, added_len: int, n: int) -> Seq<Node> {
    let last = nodes.last();
    if last.node_type == NodeType::ADDED && last.start + last.length == added_len {
        nodes.update(
            nodes.len() - 1,
            Node { node_type: NodeType::ADDED, start: last.start, length: (last.length + n) as usize },
        )
    } else {
        nodes.push(Node { node_type: NodeType::ADDED, start: added_len as u32, length: n as usize })
    }
}

/// From `i` on, the first piece at the end of which the text has reached
/// position `index`.
pub open spec fn find_node_from(nodes: Seq<Node>, i: int, index: int) -> int
    decreases nodes.len() - i,
{
    if i < 0 || i >= nodes.len() {
        nodes.len() as int
    } else if lengths(nodes.take(i + 1)) >= index {
        i
    } else {
        find_node_from(nodes, i + 1, index)
    }
}

/// The piece into which a text inserted at `index` goes: the first one at
/// the end of which the text has reached `index`.
pub open spec fn insertion_node_index(nodes: Seq<Node>, index: int) -> int {
    find_node_from(nodes, 0, index)
}

/// The pieces that replace `node` when `n` characters, which start at
/// `added_start` in the added buffer, go in after its first `before_len`
/// characters. The first part and the new text make one piece when they
/// lie side by side in the added buffer.
pub open spec fn split_nodes(node: Node, before_len: int, added_start: int, n: int) -> Seq<Node> {
    let before = Node { node_type: node.node_type, start: node.start, length: before_len as usize };
    let new_node = Node { node_type: NodeType::ADDED, start: added_start as u32, length: n as usize };
    let after = Node {
        node_type: node.node_type,
        start: (node.start + before_len) as u32,
        length: (node.length - before_len) as usize,
    };
    if node.start + before_len == added_start && node.node_type == NodeType::ADDED {
        seq![
            Node { node_type: node.node_type, start: node.start, length: (before_len + n) as usize },
            after,
        ]
    } else {
        seq![before, new_node, after]
    }
}

/// The pieces that are not empty, in order.
pub open spec fn non_empty(nodes: Seq<Node>) -> Seq<Node>
    decreases nodes.len(),
{
    if nodes.len() == 0 {
        nodes
    } else if nodes.last().length == 0 {
        non_empty(nodes.drop_last())
    } else {
        non_empty(nodes.drop_last()).push(nodes.last())
    }
}

/// The pieces after inserting `n` characters at `index`, the characters
/// lying at `added_start` in the added buffer.
pub open spec fn insert_nodes(nodes: Seq<Node>, index: int, added_start: int, n: int) -> Seq<
    Node,
> {
    let i = insertion_node_index(nodes, index);
    let offset = lengths(nodes.take(i));
    nodes.take(i) + non_empty(split_nodes(nodes[i], index - offset, added_start, n)) + nodes.skip(
        i + 1,
    )
}

/// What becomes of the piece `n`, which starts at text position `ns`, when
/// the text positions `rs..re` are removed.
pub open spec fn remove_from_node(n: Node, ns: int, rs: int, re: int) -> Seq<Node> {
    let ne = ns + n.length;
    if ns < rs && ne > re {
        seq![
            Node { node_type: n.node_type, start: n.start, length: (rs - ns) as usize },
            Node {
                node_type: n.node_type,
                start: (n.start + (re - ns)) as u32,
                length: (n.length - (re - ns)) as usize,
            },
        ]
    } else if ns >= rs && ne <= re {
        Seq::<Node>::empty()
    } else if ns < re && rs <= ns {
        seq![
            Node {
                node_type: n.node_type,
                start: (n.start + (re - ns)) as u32,
                length: (n.length - (re - ns)) as usize,
            },
        ]
    } else if ne > rs && rs >= ns {
        seq![Node { node_type: n.node_type, start: n.start, length: (rs - ns) as usize }]
    } else {
        seq![n]
    }
}

/// The pieces after removing the text positions `rs..re`.
pub open spec fn removed_nodes(nodes: Seq<Node>, rs: int, re: int) -> Seq<Node>
    decreases nodes.len(),
{
    if nodes.len() == 0 {
        nodes
    } else {
        removed_nodes(nodes.drop_last(), rs, re) + remove_from_node(
            nodes.last(),
            lengths(nodes.drop_last()),
            rs,
            re,
        )
    }
}

/// The text without the positions `rs..re`.
pub open spec fn delete_range(t: Seq<char>, rs: int, re: int) -> Seq<char> {
    let lo = if rs < t.len() { rs } else { t.len() as int };
    let hi = if re < t.len() { re } else { t.len() as int };
    t.subrange(0, lo) + t.subrange(hi, t.len() as int)
}

/// The lines with an index in `start..stop`.
pub open spec fn lines_in_range(lines: Seq<Seq<char>>, start: int, stop: int) -> Seq<Seq<char>> {
    let lo = if start < lines.len() { start } else { lines.len() as int };
    let hi = if stop < lines.len() { stop } else { lines.len() as int };
    if lo < hi {
        lines.subrange(lo, hi)
    } else {
        Seq::<Seq<char>>::empty()
    }
}

// ---------------------------------------------------------------------
// Lemmas on lists of pieces
// ---------------------------------------------------------------------

/// Pieces that lie in their buffers stand for as many characters as their
/// lengths add up to.
pub proof fn lemma_text_len(orig: Seq<char>, added: Seq<char>, nodes: Seq<Node>)
    requires
        nodes_fit(orig, added, nodes),
    ensures
        text_of(orig, added, nodes).len() == lengths(nodes),
    decreases nodes.len(),
{
    if nodes.len() > 0 {
        let p = nodes.drop_last();
        assert(nodes_fit(orig, added, p)) by {
            assert forall|i: int| 0 <= i < p.len() implies #[trigger] p[i].start + p[i].length
                <= buffer(orig, added, p[i].node_type).len() by {
                assert(p[i] == nodes[i]);
            }
        }
        lemma_text_len(orig, added, p);
        assert(nodes.last() == nodes[nodes.len() - 1]);
    }
}

/// The text of two lists of pieces one after the other.
pub proof fn lemma_text_concat(orig: Seq<char>, added: Seq<char>, a: Seq<Node>, b: Seq<Node>)
    ensures
        text_of(orig, added, a + b) == text_of(orig, added, a) + text_of(orig, added, b),
    decreases b.len(),
{
    if b.len() == 0 {
        assert(a + b == a);
    } else {
        lemma_text_concat(orig, added, a, b.drop_last());
        assert((a + b).drop_last() == a + b.drop_last());
        assert((a + b).last() == b.last());
    }
}

/// The lengths of two lists of pieces one after the other.
pub proof fn lemma_lengths_concat(a: Seq<Node>, b: Seq<Node>)
    ensures
        lengths(a + b) == lengths(a) + lengths(b),
    decreases b.len(),
{
    if b.len() == 0 {
        assert(a + b == a);
    } else {
        lemma_lengths_concat(a, b.drop_last());
        assert((a + b).drop_last() == a + b.drop_last());
        assert((a + b).last() == b.last());
    }
}

/// Lengths are never negative, and a prefix has no more than the whole.
pub proof fn lemma_lengths_prefix(nodes: Seq<Node>, k: int)
    requires
        0 <= k <= nodes.len(),
    ensures
        0 <= lengths(nodes.take(k)) <= lengths(nodes),
    decreases nodes.len(),
{
    if k < nodes.len() {
        let p = nodes.drop_last();
        lemma_lengths_prefix(p, k);
        assert(p.take(k) == nodes.take(k));
    } else {
        assert(nodes.take(k) == nodes);
        lemma_lengths_nonneg(nodes);
    }
}

/// Lengths are never negative.
pub proof fn lemma_lengths_nonneg(nodes: Seq<Node>)
    ensures
        lengths(nodes) >= 0,
    decreases nodes.len(),
{
    if nodes.len() > 0 {
        lemma_lengths_nonneg(nodes.drop_last());
    }
}

/// Taking one piece more adds its length.
pub proof fn lemma_lengths_take_succ(nodes: Seq<Node>, k: int)
    requires
        0 <= k < nodes.len(),
    ensures
        lengths(nodes.take(k + 1)) == lengths(nodes.take(k)) + nodes[k].length,
{
    assert(nodes.take(k + 1).drop_last() == nodes.take(k));
}

/// Taking one piece more adds its characters.
pub proof fn lemma_text_take_succ(orig: Seq<char>, added: Seq<char>, nodes: Seq<Node>, k: int)
    requires
        0 <= k < nodes.len(),
    ensures
        text_of(orig, added, nodes.take(k + 1)) == text_of(orig, added, nodes.take(k)) + piece(
            orig,
            added,
            nodes[k],
        ),
{
    assert(nodes.take(k + 1).drop_last() == nodes.take(k));
}

/// A part of a list of fitting pieces fits.
pub proof fn lemma_fit_subrange(
    orig: Seq<char>,
    added: Seq<char>,
    nodes: Seq<Node>,
    lo: int,
    hi: int,
)
    requires
        nodes_fit(orig, added, nodes),
        0 <= lo <= hi <= nodes.len(),
    ensures
        nodes_fit(orig, added, nodes.subrange(lo, hi)),
{
    let s = nodes.subrange(lo, hi);
    assert forall|i: int| 0 <= i < s.len() implies #[trigger] s[i].start + s[i].length <= buffer(
        orig,
        added,
        s[i].node_type,
    ).len() by {
        assert(s[i] == nodes[lo + i]);
    }
}

/// Two lists of fitting pieces, one after the other, fit.
pub proof fn lemma_fit_concat(orig: Seq<char>, added: Seq<char>, a: Seq<Node>, b: Seq<Node>)
    requires
        nodes_fit(orig, added, a),
        nodes_fit(orig, added, b),
    ensures
        nodes_fit(orig, added, a + b),
{
    let s = a + b;
    assert forall|i: int| 0 <= i < s.len() implies #[trigger] s[i].start + s[i].length <= buffer(
        orig,
        added,
        s[i].node_type,
    ).len() by {
        if i < a.len() {
            assert(s[i] == a[i]);
        } else {
            assert(s[i] == b[i - a.len()]);
        }
    }
}

/// Pieces that fit keep their text when the added buffer grows.
pub proof fn lemma_text_grow_added(
    orig: Seq<char>,
    added: Seq<char>,
    more: Seq<char>,
    nodes: Seq<Node>,
)
    requires
        nodes_fit(orig, added, nodes),
    ensures
        text_of(orig, added + more, nodes) == text_of(orig, added, nodes),
        nodes_fit(orig, added + more, nodes),
    decreases nodes.len(),
{
    if nodes.len() > 0 {
        let p = nodes.drop_last();
        lemma_fit_subrange(orig, added, nodes, 0, nodes.len() - 1);
        assert(p == nodes.subrange(0, nodes.len() - 1));
        lemma_text_grow_added(orig, added, more, p);
        let n = nodes.last();
        assert(n == nodes[nodes.len() - 1]);
        assert(piece(orig, added + more, n) == piece(orig, added, n));
    }
}

/// The non-empty pieces stand for the same text, and fit where all fit.
pub proof fn lemma_non_empty(orig: Seq<char>, added: Seq<char>, nodes: Seq<Node>)
    requires
        nodes_fit(orig, added, nodes),
    ensures
        text_of(orig, added, non_empty(nodes)) == text_of(orig, added, nodes),
        nodes_fit(orig, added, non_empty(nodes)),
        lengths(non_empty(nodes)) == lengths(nodes),
        forall|i: int|
            0 <= i < non_empty(nodes).len() ==> #[trigger] non_empty(nodes)[i].length != 0,
    decreases nodes.len(),
{
    if nodes.len() > 0 {
        let p = nodes.drop_last();
        lemma_fit_subrange(orig, added, nodes, 0, nodes.len() - 1);
        assert(p == nodes.subrange(0, nodes.len() - 1));
        lemma_non_empty(orig, added, p);
        let n = nodes.last();
        assert(n == nodes[nodes.len() - 1]);
        if n.length == 0 {
            assert(piece(orig, added, n) =~= Seq::<char>::empty());
            assert(text_of(orig, added, nodes) =~= text_of(orig, added, p));
        } else {
            let q = non_empty(p);
            assert(q.push(n).drop_last() == q);
            assert(nodes_fit(orig, added, q.push(n))) by {
                assert forall|i: int| 0 <= i < q.push(n).len() implies #[trigger] q.push(n)[i].start
                    + q.push(n)[i].length <= buffer(orig, added, q.push(n)[i].node_type).len() by {
                    if i < q.len() {
                        assert(q.push(n)[i] == q[i]);
                    }
                }
            }
            assert forall|i: int| 0 <= i < q.push(n).len() implies #[trigger] q.push(n)[i].length
                != 0 by {
                if i < q.len() {
                    assert(q.push(n)[i] == q[i]);
                }
            }
        }
    }
}

/// The piece found for an insertion at `index` holds that position: the
/// text before it is no longer than `index`, and with it the text reaches
/// `index`.
pub proof fn lemma_find_node_from(nodes: Seq<Node>, j: int, index: int)
    requires
        0 <= j < nodes.len(),
        index <= lengths(nodes),
        lengths(nodes.take(j)) <= index,
    ensures
        j <= find_node_from(nodes, j, index) < nodes.len(),
        lengths(nodes.take(find_node_from(nodes, j, index))) <= index,
        index <= lengths(nodes.take(find_node_from(nodes, j, index) + 1)),
    decreases nodes.len() - j,
{
    if lengths(nodes.take(j + 1)) < index {
        if j + 1 == nodes.len() {
            assert(nodes.take(j + 1) == nodes);
        } else {
            lemma_find_node_from(nodes, j + 1, index);
        }
    }
}

/// The piece found for an insertion at a position of the text exists and
/// holds that position.
pub proof fn lemma_insertion_node(nodes: Seq<Node>, index: int)
    requires
        nodes.len() > 0,
        0 <= index <= lengths(nodes),
    ensures
        0 <= insertion_node_index(nodes, index) < nodes.len(),
        lengths(nodes.take(insertion_node_index(nodes, index))) <= index,
        index <= lengths(nodes.take(insertion_node_index(nodes, index)))
            + nodes[insertion_node_index(nodes, index)].length,
{
    assert(nodes.take(0) =~= Seq::<Node>::empty());
    lemma_find_node_from(nodes, 0, index);
    lemma_lengths_take_succ(nodes, insertion_node_index(nodes, index));
}

/// A single piece stands for its characters.
pub proof fn lemma_text_single(orig: Seq<char>, added: Seq<char>, n: Node)
    ensures
        text_of(orig, added, seq![n]) == piece(orig, added, n),
{
    assert(seq![n].drop_last() =~= Seq::<Node>::empty());
    assert(text_of(orig, added, seq![n].drop_last()) =~= Seq::<char>::empty());
    assert(seq![n].last() == n);
    assert(text_of(orig, added, seq![n]) =~= piece(orig, added, n));
}

/// The pieces that replace a piece cut at `b` for an inserted text stand
/// for its first `b` characters, the inserted text, and the rest.
pub proof fn lemma_split_text(
    orig: Seq<char>,
    added: Seq<char>,
    t: Seq<char>,
    node: Node,
    b: int,
)
    requires
        node.start + node.length <= buffer(orig, added, node.node_type).len(),
        0 <= b <= node.length,
        orig.len() <= u32::MAX,
        added.len() + t.len() <= u32::MAX,
    ensures
        nodes_fit(orig, added + t, split_nodes(node, b, added.len() as int, t.len() as int)),
        text_of(orig, added + t, split_nodes(node, b, added.len() as int, t.len() as int))
            == piece(orig, added, node).take(b) + t + piece(orig, added, node).skip(b),
{
    let added2 = added + t;
    let m = split_nodes(node, b, added.len() as int, t.len() as int);
    let p = piece(orig, added, node);
    assert(nodes_fit(orig, added2, m)) by {
        assert forall|k: int| 0 <= k < m.len() implies #[trigger] m[k].start + m[k].length
            <= buffer(orig, added2, m[k].node_type).len() by {}
    }
    if node.start + b == added.len() && node.node_type == NodeType::ADDED {
        assert(m == seq![m[0]] + seq![m[1]]);
        lemma_text_concat(orig, added2, seq![m[0]], seq![m[1]]);
        lemma_text_single(orig, added2, m[0]);
        lemma_text_single(orig, added2, m[1]);
        assert(piece(orig, added2, m[0]) =~= p.take(b) + t);
        assert(piece(orig, added2, m[1]) =~= p.skip(b));
    } else {
        assert(m == seq![m[0]] + seq![m[1]] + seq![m[2]]);
        lemma_text_concat(orig, added2, seq![m[0]], seq![m[1]]);
        lemma_text_concat(orig, added2, seq![m[0]] + seq![m[1]], seq![m[2]]);
        lemma_text_single(orig, added2, m[0]);
        lemma_text_single(orig, added2, m[1]);
        lemma_text_single(orig, added2, m[2]);
        assert(piece(orig, added2, m[0]) =~= p.take(b));
        assert(piece(orig, added2, m[1]) =~= t);
        assert(piece(orig, added2, m[2]) =~= p.skip(b));
    }
}

/// Inserting `t` at `index` puts it into the text at that position, and
/// the new pieces lie in the buffers.
#[verifier::rlimit(60)]
pub proof fn lemma_insert_text(
    orig: Seq<char>,
    added: Seq<char>,
    t: Seq<char>,
    nodes: Seq<Node>,
    index: int,
)
    requires
        nodes_fit(orig, added, nodes),
        nodes.len() > 0,
        0 <= index <= text_of(orig, added, nodes).len(),
        orig.len() <= u32::MAX,
        added.len() + t.len() <= u32::MAX,
    ensures
        nodes_fit(orig, added + t, insert_nodes(nodes, index, added.len() as int, t.len() as int)),
        text_of(orig, added + t, insert_nodes(nodes, index, added.len() as int, t.len() as int))
            == text_of(orig, added, nodes).take(index) + t + text_of(orig, added, nodes).skip(
            index,
        ),
{
    let added2 = added + t;
    lemma_text_len(orig, added, nodes);
    lemma_insertion_node(nodes, index);
    let i = insertion_node_index(nodes, index);
    let off = lengths(nodes.take(i));
    let node = nodes[i];
    let b = index - off;
    let m = split_nodes(node, b, added.len() as int, t.len() as int);
    let pre = nodes.take(i);
    let post = nodes.skip(i + 1);
    assert(nodes == pre + seq![node] + post);
    lemma_fit_subrange(orig, added, nodes, 0, i);
    lemma_fit_subrange(orig, added, nodes, i + 1, nodes.len() as int);
    assert(pre == nodes.subrange(0, i));
    assert(post == nodes.subrange(i + 1, nodes.len() as int));
    lemma_text_grow_added(orig, added, t, pre);
    lemma_text_grow_added(orig, added, t, post);
    lemma_text_len(orig, added, pre);
    assert(node.start + node.length <= buffer(orig, added, node.node_type).len());
    lemma_split_text(orig, added, t, node, b);
    let p = piece(orig, added, node);
    let x = text_of(orig, added, pre);
    let y = text_of(orig, added, post);
    lemma_non_empty(orig, added2, m);
    let f = non_empty(m);
    lemma_fit_concat(orig, added2, pre, f);
    lemma_fit_concat(orig, added2, pre + f, post);
    lemma_text_concat(orig, added2, pre, f);
    lemma_text_concat(orig, added2, pre + f, post);
    lemma_text_concat(orig, added, pre, seq![node]);
    lemma_text_concat(orig, added, pre + seq![node], post);
    lemma_text_single(orig, added, node);
    let whole = text_of(orig, added, nodes);
    assert(whole == x + p + y);
    assert(p.len() == node.length);
    assert(whole.take(index) =~= x + p.take(b));
    assert(whole.skip(index) =~= p.skip(b) + y);
    assert(text_of(orig, added2, pre + f + post) =~= x + (p.take(b) + t + p.skip(b)) + y);
}

/// The pieces left after removing `rs..re` from the first `k + 1` pieces.
pub proof fn lemma_removed_take_succ(nodes: Seq<Node>, k: int, rs: int, re: int)
    requires
        0 <= k < nodes.len(),
    ensures
        removed_nodes(nodes.take(k + 1), rs, re) == removed_nodes(nodes.take(k), rs, re)
            + remove_from_node(nodes[k], lengths(nodes.take(k)), rs, re),
{
    assert(nodes.take(k + 1).drop_last() == nodes.take(k));
    assert(nodes.take(k + 1).last() == nodes[k]);
}

/// The pieces left of one piece lie in the buffer.
pub proof fn lemma_remove_node_fit(
    orig: Seq<char>,
    added: Seq<char>,
    n: Node,
    ns: int,
    rs: int,
    re: int,
)
    requires
        n.start + n.length <= buffer(orig, added, n.node_type).len(),
        orig.len() <= u32::MAX,
        added.len() <= u32::MAX,
        0 <= ns,
        0 <= rs <= re,
    ensures
        nodes_fit(orig, added, remove_from_node(n, ns, rs, re)),
{
    let m = remove_from_node(n, ns, rs, re);
    assert forall|k: int| 0 <= k < m.len() implies #[trigger] m[k].start + m[k].length <= buffer(
        orig,
        added,
        m[k].node_type,
    ).len() by {}
}

/// The pieces left after a removal lie in the buffers.
pub proof fn lemma_remove_fit(orig: Seq<char>, added: Seq<char>, nodes: Seq<Node>, rs: int, re: int)
    requires
        nodes_fit(orig, added, nodes),
        orig.len() <= u32::MAX,
        added.len() <= u32::MAX,
        0 <= rs <= re,
    ensures
        nodes_fit(orig, added, removed_nodes(nodes, rs, re)),
    decreases nodes.len(),
{
    if nodes.len() > 0 {
        let p = nodes.drop_last();
        lemma_fit_subrange(orig, added, nodes, 0, nodes.len() - 1);
        assert(p == nodes.subrange(0, nodes.len() - 1));
        lemma_remove_fit(orig, added, p, rs, re);
        assert(nodes.last() == nodes[nodes.len() - 1]);
        lemma_lengths_nonneg(p);
        lemma_remove_node_fit(orig, added, nodes.last(), lengths(p), rs, re);
        lemma_fit_concat(
            orig,
            added,
            removed_nodes(p, rs, re),
            remove_from_node(nodes.last(), lengths(p), rs, re),
        );
    }
}

/// Removing `rs..re` from a text `a + b`, where the piece `n` stands for
/// `b`, is removing it from `a` and taking from `n` what the removal
/// leaves of it.
#[verifier::rlimit(40)]
pub proof fn lemma_remove_step(
    orig: Seq<char>,
    added: Seq<char>,
    a: Seq<char>,
    n: Node,
    rs: int,
    re: int,
)
    requires
        n.start + n.length <= buffer(orig, added, n.node_type).len(),
        orig.len() <= u32::MAX,
        added.len() <= u32::MAX,
        0 <= rs < re,
    ensures
        delete_range(a, rs, re) + text_of(orig, added, remove_from_node(n, a.len() as int, rs, re))
            == delete_range(a + piece(orig, added, n), rs, re),
{
    let ns = a.len() as int;
    let b = piece(orig, added, n);
    let ne = ns + n.length;
    let m = remove_from_node(n, ns, rs, re);
    let t = a + b;
    assert(b.len() == n.length);
    if ns < rs && ne > re {
        assert(m == seq![m[0]] + seq![m[1]]);
        lemma_text_concat(orig, added, seq![m[0]], seq![m[1]]);
        lemma_text_single(orig, added, m[0]);
        lemma_text_single(orig, added, m[1]);
        assert(piece(orig, added, m[0]) =~= b.subrange(0, rs - ns));
        assert(piece(orig, added, m[1]) =~= b.subrange(re - ns, b.len() as int));
        assert(delete_range(a, rs, re) =~= a);
        assert(delete_range(t, rs, re) =~= a + b.subrange(0, rs - ns) + b.subrange(
            re - ns,
            b.len() as int,
        ));
    } else if ns >= rs && ne <= re {
        assert(text_of(orig, added, m) =~= Seq::<char>::empty());
        assert(delete_range(t, rs, re) =~= delete_range(a, rs, re));
    } else if ns < re && rs <= ns {
        lemma_text_single(orig, added, m[0]);
        assert(m == seq![m[0]]);
        assert(piece(orig, added, m[0]) =~= b.subrange(re - ns, b.len() as int));
        assert(delete_range(a, rs, re) =~= a.subrange(0, rs));
        assert(delete_range(t, rs, re) =~= a.subrange(0, rs) + b.subrange(re - ns, b.len() as int));
    } else if ne > rs && rs >= ns {
        lemma_text_single(orig, added, m[0]);
        assert(m == seq![m[0]]);
        assert(piece(orig, added, m[0]) =~= b.subrange(0, rs - ns));
        assert(delete_range(a, rs, re) =~= a);
        assert(delete_range(t, rs, re) =~= a + b.subrange(0, rs - ns));
    } else {
        lemma_text_single(orig, added, n);
        assert(m == seq![n]);
        if ne <= rs {
            assert(delete_range(a, rs, re) =~= a);
            assert(delete_range(t, rs, re) =~= t);
        } else {
            assert(ns >= re);
            assert(delete_range(a, rs, re) =~= a.subrange(0, rs) + a.subrange(re, ns));
            assert(delete_range(t, rs, re) =~= a.subrange(0, rs) + a.subrange(re, ns) + b);
        }
    }
}

/// Removing a non-empty range `rs..re` takes out of the text the
/// characters of that range that it holds, and nothing else.
pub proof fn lemma_remove_text(
    orig: Seq<char>,
    added: Seq<char>,
    nodes: Seq<Node>,
    rs: int,
    re: int,
)
    requires
        nodes_fit(orig, added, nodes),
        orig.len() <= u32::MAX,
        added.len() <= u32::MAX,
        0 <= rs < re,
    ensures
        text_of(orig, added, removed_nodes(nodes, rs, re)) == delete_range(
            text_of(orig, added, nodes),
            rs,
            re,
        ),
    decreases nodes.len(),
{
    if nodes.len() == 0 {
        assert(delete_range(Seq::<char>::empty(), rs, re) =~= Seq::<char>::empty());
    } else {
        let p = nodes.drop_last();
        let n = nodes.last();
        lemma_fit_subrange(orig, added, nodes, 0, nodes.len() - 1);
        assert(p == nodes.subrange(0, nodes.len() - 1));
        lemma_remove_text(orig, added, p, rs, re);
        lemma_text_len(orig, added, p);
        assert(n == nodes[nodes.len() - 1]);
        lemma_remove_step(orig, added, text_of(orig, added, p), n, rs, re);
        lemma_text_concat(orig, added, removed_nodes(p, rs, re), remove_from_node(n, lengths(p), rs, re));
    }
}

/// Removing right after inserting: when a non-empty text `t` has been
/// inserted at `index`, removing `t.len()` characters at `index` gives back
/// the text there was before the insertion.
pub proof fn law_insert_then_remove(
    orig: Seq<char>,
    added: Seq<char>,
    nodes: Seq<Node>,
    index: int,
    t: Seq<char>,
)
    requires
        nodes_fit(orig, added, nodes),
        nodes.len() > 0,
        0 <= index <= text_of(orig, added, nodes).len(),
        t.len() > 0,
        orig.len() <= u32::MAX,
        added.len() + t.len() <= u32::MAX,
    ensures
        text_of(
            orig,
            added + t,
            removed_nodes(
                insert_nodes(nodes, index, added.len() as int, t.len() as int),
                index,
                index + t.len(),
            ),
        ) == text_of(orig, added, nodes),
{
    let added2 = added + t;
    let n2 = insert_nodes(nodes, index, added.len() as int, t.len() as int);
    let re = index + t.len();
    lemma_text_len(orig, added, nodes);
    lemma_insert_text(orig, added, t, nodes, index);
    lemma_remove_text(orig, added2, n2, index, re);
    let x = text_of(orig, added, nodes);
    let y = x.take(index) + t + x.skip(index);
    assert(delete_range(y, index, re) =~= x);
}

/// The lines of a text are its lines: joined by `'\n'` they give back the
/// text, there is one more of them than the text has `'\n'` (so at least
/// one), and none holds a `'\n'`.
pub proof fn law_all_lines(pt: PieceTable)
    ensures
        join_lines(split_lines(pt@)) == pt@,
        split_lines(pt@).len() == count_newlines(pt@) + 1,
        forall|i: int| 0 <= i < split_lines(pt@).len() ==> no_newline(#[trigger] split_lines(pt@)[i]),
{
    lemma_join_split(pt@);
    lemma_split_lines_len(pt@);
    lemma_split_lines_no_newline(pt@);
}

/// Removal takes out exactly the bytes asked for: for a non-empty byte
/// range `start..start + length` within the text whose ends start
/// characters (or end the text), the character positions of its ends are
/// apart, and the encoding of the text without the characters between them
/// is that of the text without the bytes of the range.
pub proof fn law_remove_takes_out_the_bytes(s: Seq<char>, start: int, length: int)
    requires
        0 <= start,
        length > 0,
        start + length <= byte_len(s),
        is_char_pos(s, start),
        is_char_pos(s, start + length),
    ensures
        char_pos(s, start) < char_pos(s, start + length),
        encode_utf8(delete_range(s, char_pos(s, start), char_pos(s, start + length)))
            == encode_utf8(s).take(start) + encode_utf8(s).skip(start + length),
        byte_len(delete_range(s, char_pos(s, start), char_pos(s, start + length))) == byte_len(s)
            - length,
{
    lemma_char_pos_order(s, start, start + length);
    let cs = char_pos(s, start);
    let ce = char_pos(s, start + length);
    if ce <= cs {
        assert(byte_pos(s, cs) == start);
        assert(byte_pos(s, ce) == start + length);
        lemma_byte_pos_mono(s, ce, cs);
    }
    lemma_byte_pos_mono(s, cs, ce);
    lemma_byte_pos_mono(s, ce, s.len() as int);
    let a = s.take(cs);
    let m = s.subrange(cs, ce);
    let c = s.skip(ce);
    assert(s =~= a + m + c);
    assert(s.take(ce) =~= a + m);
    lemma_byte_len_concat(a, m);
    lemma_byte_len_concat(a + m, c);
    assert(delete_range(s, cs, ce) =~= a + c);
    lemma_byte_len_concat(a, c);
    let e = encode_utf8(s);
    assert(e == encode_utf8(a) + encode_utf8(m) + encode_utf8(c));
    assert(encode_utf8(a).len() == start);
    assert(encode_utf8(a + m).len() == start + length);
    assert(e.take(start) =~= encode_utf8(a));
    assert(e.skip(start + length) =~= encode_utf8(c));
}

/// Two pushes in a row leave the pieces and the added buffer that one push
/// of the joined texts leaves: the second push extends the piece the first
/// one ended with.
pub proof fn law_push_push(pt: PieceTable, a: Seq<char>, b: Seq<char>)
    requires
        pt.wf(),
        pt.node_list().len() > 0,
        pt.added_chars().len() + a.len() + b.len() <= u32::MAX,
    ensures
        push_nodes(
            push_nodes(pt.node_list(), pt.added_chars().len() as int, a.len() as int),
            (pt.added_chars() + a).len() as int,
            b.len() as int,
        ) == push_nodes(pt.node_list(), pt.added_chars().len() as int, (a + b).len() as int),
        (pt.added_chars() + a) + b == pt.added_chars() + (a + b),
{
    let nodes = pt.node_list();
    let last = nodes.last();
    assert(last == nodes[nodes.len() - 1]);
    assert(last.start + last.length <= buffer(
        pt.original_chars(),
        pt.added_chars(),
        last.node_type,
    ).len());
    assert((pt.added_chars() + a) + b =~= pt.added_chars() + (a + b));
}

/// The piece of `nodes` at the end of which the text reaches `index`
/// first, its index in the list, and the text position where it starts.
fn find_insertion(nodes: &Vec<Node>, index: u32) -> (r: (Node, usize, usize))
    requires
        nodes@.len() > 0,
        index <= lengths(nodes@),
        lengths(nodes@) <= u32::MAX,
    ensures
        r.1 == insertion_node_index(nodes@, index as int),
        r.1 < nodes@.len(),
        r.0 == nodes@[r.1 as int],
        r.2 == lengths(nodes@.take(r.1 as int)),
{
    proof {
        lemma_insertion_node(nodes@, index as int);
        assert(nodes@.take(0) =~= Seq::<Node>::empty());
    }
    let ghost target = insertion_node_index(nodes@, index as int);
    let mut total_offset: usize = 0;
    let mut i: usize = 0;
    while i < nodes.len()
        invariant
            i <= nodes.len(),
            nodes@.len() > 0,
            total_offset == lengths(nodes@.take(i as int)),
            i <= target < nodes@.len(),
            find_node_from(nodes@, i as int, index as int) == target,
            target == insertion_node_index(nodes@, index as int),
            lengths(nodes@) <= u32::MAX,
            lengths(nodes@.take(i as int)) <= index,
            index <= lengths(nodes@),
        decreases nodes.len() - i,
    {
        let node = nodes[i];
        proof {
            lemma_lengths_take_succ(nodes@, i as int);
            lemma_lengths_prefix(nodes@, i as int + 1);
            lemma_find_node_from(nodes@, i as int, index as int);
        }
        let reached = total_offset + node.length;
        assert(reached == lengths(nodes@.take(i as int + 1)));
        if reached as u32 >= index {
            assert(find_node_from(nodes@, i as int, index as int) == i);
            return (node, i, total_offset);
        }
        total_offset += node.length;
        i += 1;
    }
    proof {
        assert(false);
    }
    (nodes[0], 0, 0)
}

/// The piece `n` counted in bytes: its start is the byte position of its
/// first character in its buffer, its length the number of bytes of its
/// characters (both taken as the field's type).
pub open spec fn byte_node(orig: Seq<char>, added: Seq<char>, n: Node) -> Node {
    Node {
        node_type: n.node_type,
        start: byte_pos(buffer(orig, added, n.node_type), n.start as int) as u32,
        length: byte_len(piece(orig, added, n)) as usize,
    }
}

/// The pieces counted in bytes.
pub open spec fn byte_nodes(orig: Seq<char>, added: Seq<char>, nodes: Seq<Node>) -> Seq<Node> {
    Seq::new(nodes.len(), |i: int| byte_node(orig, added, nodes[i]))
}

/// Counted in bytes, the pieces add up to the number of bytes of the text.
pub proof fn lemma_byte_lengths(orig: Seq<char>, added: Seq<char>, nodes: Seq<Node>)
    requires
        nodes_fit(orig, added, nodes),
        byte_len(text_of(orig, added, nodes)) <= u32::MAX,
    ensures
        lengths(byte_nodes(orig, added, nodes)) == byte_len(text_of(orig, added, nodes)),
    decreases nodes.len(),
{
    if nodes.len() == 0 {
        assert(byte_nodes(orig, added, nodes) =~= Seq::<Node>::empty());
        assert(encode_utf8(Seq::<char>::empty()) =~= Seq::<u8>::empty());
    } else {
        let p = nodes.drop_last();
        let n = nodes.last();
        lemma_fit_subrange(orig, added, nodes, 0, nodes.len() - 1);
        assert(p == nodes.subrange(0, nodes.len() - 1));
        lemma_byte_len_concat(text_of(orig, added, p), piece(orig, added, n));
        lemma_byte_lengths(orig, added, p);
        assert(byte_nodes(orig, added, nodes).drop_last() =~= byte_nodes(orig, added, p));
    }
}

impl View for PieceTable {
    type V = Seq<char>;

    /// The text that the pieces stand for.
    open spec fn view(&self) -> Seq<char> {
        text_of(self.original_chars(), self.added_chars(), self.node_list())
    }
}

impl PieceTable {
    /// The original buffer.
    pub closed spec fn original_chars(self) -> Seq<char> {
        self.original@
    }

    /// The added buffer.
    pub closed spec fn added_chars(self) -> Seq<char> {
        self.added@
    }

    /// The pieces, counting characters of the buffers.
    pub closed spec fn node_list(self) -> Seq<Node> {
        self.nodes@
    }

    /// The pieces counted in bytes.
    pub open spec fn byte_node_list(self) -> Seq<Node> {
        byte_nodes(self.original_chars(), self.added_chars(), self.node_list())
    }

    /// Every piece lies inside its buffer.
    pub open spec fn wf(self) -> bool {
        nodes_fit(self.original_chars(), self.added_chars(), self.node_list())
    }

    /// Piece starts and text positions stay within `u32` after `extra` more
    /// characters are added.
    pub open spec fn fits_u32(self, extra: int) -> bool {
        &&& self.original_chars().len() <= u32::MAX
        &&& self.added_chars().len() + extra <= u32::MAX
        &&& self@.len() + extra <= u32::MAX
        &&& byte_len(self@) + 4 * extra <= u32::MAX
    }

    /// A piece table whose text is `original`, held as one piece.
    pub fn new(original: String) -> (r: PieceTable)
        ensures
            r.wf(),
            r@ == original@,
            r.original_chars() == original@,
            r.added_chars() == Seq::<char>::empty(),
            r.node_list() == seq![
                Node { node_type: NodeType::ORIGINAL, start: 0, length: original@.len() as usize },
            ],
    {
        let chars = chars_of(original.as_str());
        let original_length = chars.len();
        let original_node = Node { node_type: NodeType::ORIGINAL, start: 0, length: original_length };
        let mut nodes: Vec<Node> = Vec::new();
        nodes.push(original_node);
        let r = PieceTable { original: chars, added: Vec::new(), nodes };
        proof {
            assert(r.nodes@.drop_last() =~= Seq::<Node>::empty());
            assert(r.original@.subrange(0, original_length as int) =~= r.original@);
            assert(text_of(r.original@, r.added@, r.nodes@.drop_last()) =~= Seq::<char>::empty());
            assert(text_of(r.original@, r.added@, r.nodes@) =~= r.original@);
            assert(nodes_fit(r.original@, r.added@, r.nodes@)) by {
                assert forall|i: int| 0 <= i < r.nodes@.len() implies #[trigger] r.nodes@[i].start
                    + r.nodes@[i].length <= buffer(
                    r.original@,
                    r.added@,
                    r.nodes@[i].node_type,
                ).len() by {
                    assert(i == 0);
                }
            }
        }
        r
    }

    /// The pieces counted in bytes, in order.
    pub fn nodes(&self) -> (r: Vec<Node>)
        requires
            self.wf(),
            self.fits_u32(0),
        ensures
            r@ == self.byte_node_list(),
    {
        let mut r: Vec<Node> = Vec::new();
        let mut k: usize = 0;
        while k < self.nodes.len()
            invariant
                self.wf(),
                self.fits_u32(0),
                k <= self.nodes.len(),
                r@ == self.byte_node_list().take(k as int),
            decreases self.nodes.len() - k,
        {
            let node = self.nodes[k];
            assert(node.start + node.length <= buffer(
                self.original@,
                self.added@,
                self.nodes@[k as int].node_type,
            ).len());
            let buf = match node.node_type {
                NodeType::ADDED => &self.added,
                NodeType::ORIGINAL => &self.original,
            };
            let start = node.start as usize;
            let before = sub_chars(buf, 0, start);
            let chars = sub_chars(buf, start, start + node.length);
            let byte_start = bytes_of(&before);
            let byte_length = bytes_of(&chars);
            r.push(
                Node {
                    node_type: node.node_type,
                    start: byte_start as u32,
                    length: byte_length as usize,
                },
            );
            proof {
                assert(r@ =~= self.byte_node_list().take(k as int + 1));
            }
            k += 1;
        }
        assert(self.byte_node_list().take(self.nodes.len() as int) =~= self.byte_node_list());
        r
    }

    /// The characters of the text.
    fn text_chars(&self) -> (r: Vec<char>)
        requires
            self.wf(),
        ensures
            r@ == self@,
    {
        let mut text: Vec<char> = Vec::new();
        let mut k: usize = 0;
        while k < self.nodes.len()
            invariant
                self.wf(),
                k <= self.nodes.len(),
                text@ == text_of(self.original@, self.added@, self.nodes@.take(k as int)),
            decreases self.nodes.len() - k,
        {
            let node = self.nodes[k];
            assert(node.start + node.length <= buffer(
                self.original@,
                self.added@,
                self.nodes@[k as int].node_type,
            ).len());
            assert(self.added@.len() == self.added.len());
            assert(self.original@.len() == self.original.len());
            let start = node.start as usize;
            let stop = start + node.length;
            let part = match node.node_type {
                NodeType::ADDED => sub_chars(&self.added, start, stop),
                NodeType::ORIGINAL => sub_chars(&self.original, start, stop),
            };
            append_chars(&mut text, &part);
            proof {
                lemma_text_take_succ(self.original@, self.added@, self.nodes@, k as int);
            }
            k += 1;
        }
        assert(self.nodes@.take(self.nodes.len() as int) == self.nodes@);
        text
    }

    /// The text.
    pub fn get_text(&self) -> (r: String)
        requires
            self.wf(),
        ensures
            r@ == self@,
    {
        let chars = self.text_chars();
        string_of(chars.as_slice())
    }

    /// The lines of the text with an index in `start..stop`.
    pub fn get_range_lines(&self, start: usize, stop: usize) -> (r: Vec<String>)
        requires
            self.wf(),
        ensures
            views(r@) == lines_in_range(split_lines(self@), start as int, stop as int),
    {
        let all = self.get_all_lines();
        select_lines(all, start, stop)
    }

    /// The lines of the text.
    pub fn get_all_lines(&self) -> (r: Vec<String>)
        requires
            self.wf(),
        ensures
            views(r@) == split_lines(self@),
    {
        let chars = self.text_chars();
        split_into_lines(&chars)
    }

    /// The number of lines of the text: one more than the number of `'\n'`.
    pub fn get_number_of_lines(&self) -> (r: usize)
        requires
            self.wf(),
            self@.len() < usize::MAX,
        ensures
            r == count_newlines(self@) + 1,
            r == split_lines(self@).len(),
    {
        let chars = self.text_chars();
        let n = newline_count(&chars);
        proof {
            lemma_split_lines_len(self@);
        }
        n + 1
    }

    /// The piece into which a text inserted at character position `index`
    /// goes, its index in the list, and the character position where it
    /// starts.
    fn insertion_point(&self, index: u32) -> (r: (Node, usize, usize))
        requires
            self.wf(),
            self.node_list().len() > 0,
            index <= self@.len(),
            self@.len() <= u32::MAX,
        ensures
            r.1 == insertion_node_index(self.node_list(), index as int),
            r.1 < self.node_list().len(),
            r.0 == self.node_list()[r.1 as int],
            r.2 == lengths(self.node_list().take(r.1 as int)),
    {
        proof {
            lemma_text_len(self.original@, self.added@, self.nodes@);
        }
        find_insertion(&self.nodes, index)
    }

    /// The pieces that replace `node`, which starts at text position
    /// `text_index`, when `text_len` characters that start at
    /// `added_length` in the added buffer go in at text position `index`.
    fn build_new_nodes(
        &self,
        index: u32,
        text_len: usize,
        added_length: usize,
        node_where_it_got_inserted: Node,
        text_index: usize,
    ) -> (r: Vec<Node>)
        requires
            text_index <= index <= text_index + node_where_it_got_inserted.length,
            node_where_it_got_inserted.start + node_where_it_got_inserted.length <= u32::MAX,
            added_length + text_len <= u32::MAX,
        ensures
            r@ == split_nodes(
                node_where_it_got_inserted,
                index - text_index,
                added_length as int,
                text_len as int,
            ),
    {
        let length_before_insertion_node = index - text_index as u32;
        let node_before_insertion = Node {
            node_type: node_where_it_got_inserted.node_type,
            length: length_before_insertion_node as usize,
            start: node_where_it_got_inserted.start,
        };
        let new_node = Node { node_type: NodeType::ADDED, length: text_len, start: added_length as u32 };
        let length_after_insertion = node_where_it_got_inserted.length
            - node_before_insertion.length;
        let node_after_insertion = Node {
            node_type: node_where_it_got_inserted.node_type,
            length: length_after_insertion,
            start: node_before_insertion.start + node_before_insertion.length as u32,
        };
        let is_node_at_the_end_added = node_before_insertion.start as usize
            + node_before_insertion.length == new_node.start as usize
            && node_before_insertion.node_type == NodeType::ADDED;
        let mut r: Vec<Node> = Vec::new();
        if is_node_at_the_end_added {
            r.push(
                Node {
                    node_type: node_before_insertion.node_type,
                    start: node_before_insertion.start,
                    length: node_before_insertion.length + new_node.length,
                },
            );
            r.push(node_after_insertion);
        } else {
            r.push(node_before_insertion);
            r.push(new_node);
            r.push(node_after_insertion);
        }
        assert(r@ =~= split_nodes(
            node_where_it_got_inserted,
            index - text_index,
            added_length as int,
            text_len as int,
        ));
        r
    }

    /// The piece, counted in bytes, into which a text inserted at byte
    /// position `index` goes: the first at the end of which the text has
    /// reached `index` bytes; its index in the list, and the byte position
    /// where it starts.
    pub fn get_node_where_it_got_inserted_and_index(&self, index: u32) -> (r: (Node, usize, usize))
        requires
            self.wf(),
            self.fits_u32(0),
            self.node_list().len() > 0,
            index <= byte_len(self@),
        ensures
            r.1 == insertion_node_index(self.byte_node_list(), index as int),
            r.1 < self.node_list().len(),
            r.0 == self.byte_node_list()[r.1 as int],
            r.2 == lengths(self.byte_node_list().take(r.1 as int)),
    {
        let nodes = self.nodes();
        proof {
            lemma_byte_lengths(self.original@, self.added@, self.nodes@);
        }
        find_insertion(&nodes, index)
    }

    /// Inserts `text` at the byte position `index`, which starts a
    /// character of the text or ends it.
    pub fn insert(&mut self, index: u32, text: String)
        requires
            old(self).wf(),
            old(self).node_list().len() > 0,
            is_char_pos(old(self)@, index as int),
            old(self).fits_u32(text@.len() as int),
        ensures
            final(self).wf(),
            final(self)@ == old(self)@.take(char_pos(old(self)@, index as int)) + text@ + old(
                self,
            )@.skip(char_pos(old(self)@, index as int)),
            final(self).original_chars() == old(self).original_chars(),
            final(self).added_chars() == old(self).added_chars() + text@,
            final(self).node_list() == insert_nodes(
                old(self).node_list(),
                char_pos(old(self)@, index as int),
                old(self).added_chars().len() as int,
                text@.len() as int,
            ),
    {
        let chars = self.text_chars();
        let k = match char_position(&chars, index as u64) {
            Some(k) => k,
            None => {
                proof {
                    assert(false);
                }
                0
            },
        };
        proof {
            let j = choose|j: int| 0 <= j <= self@.len() && #[trigger] byte_pos(self@, j) == index;
            lemma_char_pos(self@, j);
            lemma_byte_pos_mono(self@, j, self@.len() as int);
        }
        self.insert_at(k as u32, text);
    }

    /// Removes the bytes `start_index..start_index + length` of the text,
    /// each end starting a character or lying at or past the end of the
    /// text: the characters they span go. A piece that holds the removed
    /// range strictly inside is cut in two around it. Removing nothing
    /// leaves the text as it is but for one case: a non-empty piece that
    /// starts where the empty range is is cut to length 0, and its text
    /// goes.
    pub fn remove(&mut self, start_index: u32, length: usize)
        requires
            old(self).wf(),
            old(self).fits_u32(0),
            start_index + length <= usize::MAX,
            start_index >= byte_len(old(self)@) || is_char_pos(old(self)@, start_index as int),
            start_index + length >= byte_len(old(self)@) || is_char_pos(
                old(self)@,
                start_index + length,
            ),
        ensures
            final(self).wf(),
            char_pos(old(self)@, start_index as int) < char_pos(old(self)@, start_index + length)
                ==> final(self)@ == delete_range(
                old(self)@,
                char_pos(old(self)@, start_index as int),
                char_pos(old(self)@, start_index + length),
            ),
            final(self).original_chars() == old(self).original_chars(),
            final(self).added_chars() == old(self).added_chars(),
            final(self).node_list() == removed_nodes(
                old(self).node_list(),
                char_pos(old(self)@, start_index as int),
                char_pos(old(self)@, start_index + length),
            ),
    {
        let chars = self.text_chars();
        let ghost s = self@;
        proof {
            lemma_text_len(self.original@, self.added@, self.nodes@);
            lemma_byte_pos_mono(s, 0, s.len() as int);
        }
        let stop = start_index as u64 + length as u64;
        let cs = match char_position(&chars, start_index as u64) {
            Some(k) => k,
            None => {
                proof {
                    assert(false);
                }
                0
            },
        };
        let ce = match char_position(&chars, stop) {
            Some(k) => k,
            None => {
                proof {
                    assert(false);
                }
                0
            },
        };
        proof {
            lemma_char_pos_order(s, start_index as int, start_index + length);
        }
        self.remove_chars(cs as u32, ce - cs);
    }

    /// Inserts `text` at the character position `index`.
    fn insert_at(&mut self, index: u32, text: String)
        requires
            old(self).wf(),
            old(self).node_list().len() > 0,
            index <= old(self)@.len(),
            old(self).fits_u32(text@.len() as int),
        ensures
            final(self).wf(),
            final(self)@ == old(self)@.take(index as int) + text@ + old(self)@.skip(index as int),
            final(self).original_chars() == old(self).original_chars(),
            final(self).added_chars() == old(self).added_chars() + text@,
            final(self).node_list() == insert_nodes(
                old(self).node_list(),
                index as int,
                old(self).added_chars().len() as int,
                text@.len() as int,
            ),
    {
        let ghost old_added = self.added@;
        let chars = chars_of(text.as_str());
        let add_start_index = self.added.len();
        append_chars(&mut self.added, &chars);
        proof {
            lemma_text_grow_added(self.original@, old_added, chars@, self.nodes@);
            lemma_insert_text(self.original@, old_added, chars@, self.nodes@, index as int);
            lemma_text_len(self.original@, self.added@, self.nodes@);
        }
        let (node_where_it_got_inserted, index_node_where_it_got_inserted, text_index) =
            self.insertion_point(index);
        proof {
            let i = index_node_where_it_got_inserted as int;
            lemma_insertion_node(self.nodes@, index as int);
            assert(node_where_it_got_inserted.start + node_where_it_got_inserted.length
                <= buffer(self.original@, self.added@, self.nodes@[i].node_type).len());
        }
        let new_nodes = self.build_new_nodes(
            index,
            chars.len(),
            add_start_index,
            node_where_it_got_inserted,
            text_index,
        );
        let mut nodes: Vec<Node> = Vec::new();
        extend_nodes(&mut nodes, &self.nodes, 0, index_node_where_it_got_inserted);
        let kept = non_empty_nodes(&new_nodes);
        extend_nodes(&mut nodes, &kept, 0, kept.len());
        extend_nodes(
            &mut nodes,
            &self.nodes,
            index_node_where_it_got_inserted + 1,
            self.nodes.len(),
        );
        proof {
            let i = index_node_where_it_got_inserted as int;
            assert(kept@.subrange(0, kept@.len() as int) == kept@);
            assert(self.nodes@.subrange(0, i) == self.nodes@.take(i));
            assert(self.nodes@.subrange(i + 1, self.nodes@.len() as int) == self.nodes@.skip(
                i + 1,
            ));
        }
        self.nodes = nodes;
    }

    /// Removes the character positions `start_index..start_index + length`.
    /// A piece that holds the removed range strictly inside is cut in two
    /// around it; an empty range at the start of a piece cuts that piece to
    /// length 0.
    fn remove_chars(&mut self, start_index: u32, length: usize)
        requires
            old(self).wf(),
            old(self).fits_u32(0),
            start_index + length <= usize::MAX,
        ensures
            final(self).wf(),
            length > 0 ==> final(self)@ == delete_range(
                old(self)@,
                start_index as int,
                start_index + length,
            ),
            final(self).original_chars() == old(self).original_chars(),
            final(self).added_chars() == old(self).added_chars(),
            final(self).node_list() == removed_nodes(
                old(self).node_list(),
                start_index as int,
                start_index + length,
            ),
    {
        let remove_start_index = start_index as usize;
        let remove_stop_index = remove_start_index + length;
        let ghost rs = remove_start_index as int;
        let ghost re = remove_stop_index as int;
        proof {
            lemma_text_len(self.original@, self.added@, self.nodes@);
            lemma_remove_fit(self.original@, self.added@, self.nodes@, rs, re);
            if rs < re {
                lemma_remove_text(self.original@, self.added@, self.nodes@, rs, re);
            }
            assert(self.nodes@.take(0) =~= Seq::<Node>::empty());
        }
        let mut text_index: usize = 0;
        let mut result: Vec<Node> = Vec::new();
        let mut k: usize = 0;
        while k < self.nodes.len()
            invariant
                self.wf(),
                self.fits_u32(0),
                k <= self.nodes.len(),
                rs == remove_start_index,
                re == remove_stop_index,
                rs <= re,
                lengths(self.nodes@) <= u32::MAX,
                text_index == lengths(self.nodes@.take(k as int)),
                result@ == removed_nodes(self.nodes@.take(k as int), rs, re),
            decreases self.nodes.len() - k,
        {
            let node = self.nodes[k];
            proof {
                lemma_lengths_take_succ(self.nodes@, k as int);
                lemma_lengths_prefix(self.nodes@, k as int + 1);
                lemma_lengths_prefix(self.nodes@, k as int);
                lemma_removed_take_succ(self.nodes@, k as int, rs, re);
                assert(node.start + node.length <= buffer(
                    self.original@,
                    self.added@,
                    self.nodes@[k as int].node_type,
                ).len());
            }
            let node_start_index = text_index;
            let node_stop_index = text_index + node.length;
            let current_text_index = text_index;
            text_index += node.length;
            if PieceTable::is_deletion_within_the_node(
                node_start_index,
                node_stop_index,
                remove_start_index,
                remove_stop_index,
            ) {
                let second_node_start = node.start + (remove_stop_index - current_text_index) as u32;
                result.push(
                    Node {
                        node_type: node.node_type,
                        start: node.start,
                        length: remove_start_index - node_start_index,
                    },
                );
                result.push(
                    Node {
                        node_type: node.node_type,
                        start: second_node_start,
                        length: node.length - (second_node_start as usize - node.start as usize),
                    },
                );
            } else if PieceTable::is_node_within_deletion(
                node_start_index,
                node_stop_index,
                remove_start_index,
                remove_stop_index,
            ) {
            } else if PieceTable::is_deletion_at_the_beginning_of_node(
                node_start_index,
                node_stop_index,
                remove_start_index,
                remove_stop_index,
            ) {
                let start_diff = remove_stop_index - node_start_index;
                result.push(
                    Node {
                        node_type: node.node_type,
                        start: node.start + start_diff as u32,
                        length: node.length - start_diff,
                    },
                );
            } else if PieceTable::is_deletion_at_the_end_of_node(
                node_start_index,
                node_stop_index,
                remove_start_index,
                remove_stop_index,
            ) {
                result.push(
                    Node {
                        node_type: node.node_type,
                        start: node.start,
                        length: remove_start_index - node_start_index,
                    },
                );
            } else {
                result.push(node);
            }
            proof {
                assert(result@ =~= removed_nodes(self.nodes@.take(k as int + 1), rs, re));
            }
            k += 1;
        }
        assert(self.nodes@.take(self.nodes.len() as int) == self.nodes@);
        self.nodes = result;
    }

    /// The piece holds the removed range strictly inside.
    fn is_deletion_within_the_node(
        node_start_index: usize,
        node_stop_index: usize,
        remove_start_index: usize,
        remove_stop_index: usize,
    ) -> (r: bool)
        ensures
            r == (node_start_index < remove_start_index && node_stop_index > remove_stop_index),
    {
        node_start_index < remove_start_index && node_stop_index > remove_stop_index
    }

    /// The removed range holds the whole piece.
    fn is_node_within_deletion(
        node_start_index: usize,
        node_stop_index: usize,
        remove_start_index: usize,
        remove_stop_index: usize,
    ) -> (r: bool)
        ensures
            r == (node_start_index >= remove_start_index && node_stop_index <= remove_stop_index),
    {
        node_start_index >= remove_start_index && node_stop_index <= remove_stop_index
    }

    /// The removed range covers the beginning of the piece.
    fn is_deletion_at_the_beginning_of_node(
        node_start_index: usize,
        _node_stop_index: usize,
        remove_start_index: usize,
        remove_stop_index: usize,
    ) -> (r: bool)
        ensures
            r == (node_start_index < remove_stop_index && remove_start_index <= node_start_index),
    {
        node_start_index < remove_stop_index && remove_start_index <= node_start_index
    }

    /// The removed range covers the end of the piece.
    fn is_deletion_at_the_end_of_node(
        node_start_index: usize,
        node_stop_index: usize,
        remove_start_index: usize,
        _remove_stop_index: usize,
    ) -> (r: bool)
        ensures
            r == (node_stop_index > remove_start_index && remove_start_index >= node_start_index),
    {
        node_stop_index > remove_start_index && remove_start_index >= node_start_index
    }

    /// Whether every piece lies inside its buffer.
    pub fn is_well_formed(&self) -> (r: bool)
        ensures
            r == self.wf(),
    {
        let mut k: usize = 0;
        while k < self.nodes.len()
            invariant
                k <= self.nodes.len(),
                forall|i: int|
                    0 <= i < k ==> #[trigger] self.nodes@[i].start + self.nodes@[i].length
                        <= buffer(self.original@, self.added@, self.nodes@[i].node_type).len(),
            decreases self.nodes.len() - k,
        {
            let node = self.nodes[k];
            let buffer_len = match node.node_type {
                NodeType::ORIGINAL => self.original.len(),
                NodeType::ADDED => self.added.len(),
            };
            assert(buffer_len == buffer(self.original@, self.added@, node.node_type).len());
            if node.length > buffer_len || (node.start as usize) > buffer_len - node.length {
                assert(self.nodes@[k as int].start + self.nodes@[k as int].length > buffer(
                    self.original@,
                    self.added@,
                    self.nodes@[k as int].node_type,
                ).len());
                return false;
            }
            k += 1;
        }
        true
    }

    /// The number of characters of the text.
    pub fn text_len(&self) -> (r: usize)
        requires
            self.wf(),
        ensures
            r == self@.len(),
    {
        self.text_chars().len()
    }

    /// Whether piece starts and text positions stay within `u32` after
    /// `extra` more characters are added.
    pub fn fits_u32_with(&self, extra: usize) -> (r: bool)
        requires
            self.wf(),
        ensures
            r == self.fits_u32(extra as int),
    {
        let max = u32::MAX as usize;
        let chars = self.text_chars();
        let text_len = chars.len();
        if !(self.original.len() <= max && extra <= max && self.added.len() <= max - extra
            && text_len <= max - extra) {
            return false;
        }
        let bytes = bytes_of(&chars);
        proof {
            lemma_byte_len_bounds(chars@);
        }
        bytes + 4 * (extra as u64) <= u32::MAX as u64
    }

    /// A piece table with the same buffers and pieces.
    pub fn duplicate(&self) -> (r: PieceTable)
        ensures
            r.original_chars() == self.original_chars(),
            r.added_chars() == self.added_chars(),
            r.node_list() == self.node_list(),
    {
        let mut original: Vec<char> = Vec::new();
        append_chars(&mut original, &self.original);
        let mut added: Vec<char> = Vec::new();
        append_chars(&mut added, &self.added);
        let mut nodes: Vec<Node> = Vec::new();
        extend_nodes(&mut nodes, &self.nodes, 0, self.nodes.len());
        assert(self.nodes@.subrange(0, self.nodes@.len() as int) == self.nodes@);
        assert(original@ =~= self.original@);
        assert(added@ =~= self.added@);
        PieceTable { original, added, nodes }
    }

    /// The text followed by `text`. The added characters join the last
    /// piece when it ends where the added buffer ends.
    pub fn push(self, text: String) -> (r: PieceTable)
        requires
            self.wf(),
            self.node_list().len() > 0,
            self.added_chars().len() + text@.len() <= u32::MAX,
        ensures
            r.wf(),
            r@ == self@ + text@,
            r.original_chars() == self.original_chars(),
            r.added_chars() == self.added_chars() + text@,
            r.node_list() == push_nodes(
                self.node_list(),
                self.added_chars().len() as int,
                text@.len() as int,
            ),
    {
        let mut pt = self;
        let ghost old_added = pt.added@;
        let ghost old_nodes = pt.nodes@;
        let chars = chars_of(text.as_str());
        let last_index = pt.nodes.len() - 1;
        let previous_node = pt.nodes[last_index];
        let should_update_previous_node = previous_node.node_type == NodeType::ADDED
            && previous_node.start as usize + previous_node.length == pt.added.len();
        proof {
            assert(previous_node == old_nodes[last_index as int]);
            assert(previous_node.start + previous_node.length <= buffer(
                pt.original@,
                old_added,
                previous_node.node_type,
            ).len());
        }
        if should_update_previous_node {
            let new_node = Node {
                node_type: NodeType::ADDED,
                start: previous_node.start,
                length: previous_node.length + chars.len(),
            };
            pt.nodes.set(last_index, new_node);
        } else {
            let new_node = Node {
                node_type: NodeType::ADDED,
                start: pt.added.len() as u32,
                length: chars.len(),
            };
            pt.nodes.push(new_node);
        }
        append_chars(&mut pt.added, &chars);
        proof {
            let orig = pt.original@;
            let p = old_nodes.drop_last();
            lemma_fit_subrange(orig, old_added, old_nodes, 0, old_nodes.len() - 1);
            assert(p == old_nodes.subrange(0, old_nodes.len() - 1));
            lemma_text_grow_added(orig, old_added, chars@, p);
            lemma_text_grow_added(orig, old_added, chars@, old_nodes);
            let added2 = old_added + chars@;
            assert(pt.added@ == added2);
            if should_update_previous_node {
                assert(pt.nodes@.drop_last() == p);
                let m = pt.nodes@.last();
                assert(piece(orig, added2, m) =~= piece(orig, old_added, previous_node) + chars@);
                assert(text_of(orig, old_added, old_nodes) == text_of(orig, old_added, p) + piece(
                    orig,
                    old_added,
                    previous_node,
                ));
                assert forall|i: int| 0 <= i < pt.nodes@.len() implies #[trigger] pt.nodes@[i].start
                    + pt.nodes@[i].length <= buffer(orig, added2, pt.nodes@[i].node_type).len() by {
                    if i < p.len() {
                        assert(pt.nodes@[i] == old_nodes[i]);
                    }
                }
            } else {
                assert(pt.nodes@.drop_last() == old_nodes);
                let m = pt.nodes@.last();
                assert(piece(orig, added2, m) =~= chars@);
                assert forall|i: int| 0 <= i < pt.nodes@.len() implies #[trigger] pt.nodes@[i].start
                    + pt.nodes@[i].length <= buffer(orig, added2, pt.nodes@[i].node_type).len() by {
                    if i < old_nodes.len() {
                        assert(pt.nodes@[i] == old_nodes[i]);
                    }
                }
            }
        }
        pt
    }
}

impl PartialEq for PieceTable {
    /// Two piece tables are equal when their buffers and their pieces are.
    fn eq(&self, other: &PieceTable) -> (r: bool) {
        chars_equal(&self.original, &other.original) && chars_equal(&self.added, &other.added)
            && nodes_equal(&self.nodes, &other.nodes)
    }
}

impl vstd::std_specs::cmp::PartialEqSpecImpl for PieceTable {
    open spec fn obeys_eq_spec() -> bool {
        true
    }

    open spec fn eq_spec(&self, other: &PieceTable) -> bool {
        &&& self.original_chars() == other.original_chars()
        &&& self.added_chars() == other.added_chars()
        &&& self.node_list() == other.node_list()
    }
}

/// Whether two character vectors hold the same characters.
fn chars_equal(a: &Vec<char>, b: &Vec<char>) -> (r: bool)
    ensures
        r == (a@ == b@),
{
    if a.len() != b.len() {
        return false;
    }
    let mut k: usize = 0;
    while k < a.len()
        invariant
            k <= a.len() == b.len(),
            forall|j: int| 0 <= j < k ==> a@[j] == b@[j],
        decreases a.len() - k,
    {
        if a[k] != b[k] {
            return false;
        }
        k += 1;
    }
    assert(a@ =~= b@);
    true
}

/// Whether two piece lists hold the same pieces.
fn nodes_equal(a: &Vec<Node>, b: &Vec<Node>) -> (r: bool)
    ensures
        r == (a@ == b@),
{
    if a.len() != b.len() {
        return false;
    }
    let mut k: usize = 0;
    while k < a.len()
        invariant
            k <= a.len() == b.len(),
            forall|j: int| 0 <= j < k ==> a@[j] == b@[j],
        decreases a.len() - k,
    {
        let x = a[k];
        let y = b[k];
        if !(x.node_type == y.node_type && x.start == y.start && x.length == y.length) {
            return false;
        }
        k += 1;
    }
    assert(a@ =~= b@);
    true
}

/// Appends `src[from..to]` to `dst`.
fn extend_nodes(dst: &mut Vec<Node>, src: &Vec<Node>, from: usize, to: usize)
    requires
        from <= to <= src.len(),
    ensures
        final(dst)@ == old(dst)@ + src@.subrange(from as int, to as int),
{
    let mut k: usize = from;
    while k < to
        invariant
            from <= k <= to <= src.len(),
            dst@ == old(dst)@ + src@.subrange(from as int, k as int),
        decreases to - k,
    {
        dst.push(src[k]);
        assert(src@.subrange(from as int, k + 1) == src@.subrange(from as int, k as int).push(
            src@[k as int],
        ));
        k += 1;
    }
}

/// The pieces that are not empty.
fn non_empty_nodes(v: &Vec<Node>) -> (r: Vec<Node>)
    ensures
        r@ == non_empty(v@),
{
    let mut r: Vec<Node> = Vec::new();
    let mut k: usize = 0;
    while k < v.len()
        invariant
            k <= v.len(),
            r@ == non_empty(v@.take(k as int)),
        decreases v.len() - k,
    {
        assert(v@.take(k + 1).drop_last() == v@.take(k as int));
        assert(v@.take(k + 1).last() == v@[k as int]);
        if v[k].length != 0 {
            r.push(v[k]);
        }
        k += 1;
    }
    assert(v@.take(v.len() as int) == v@);
    r
}

/// The lines with an index in `start..stop`, in order.
pub fn select_lines(lines: Vec<String>, start: usize, stop: usize) -> (r: Vec<String>)
    ensures
        views(r@) == lines_in_range(views(lines@), start as int, stop as int),
{
    let mut r: Vec<String> = Vec::new();
    let mut i: usize = 0;
    let ghost all = views(lines@);
    let ghost lo: int = if (start as int) < all.len() { start as int } else { all.len() as int };
    let ghost hi: int = if (stop as int) < all.len() { stop as int } else { all.len() as int };
    while i < lines.len()
        invariant
            i <= lines.len(),
            all == views(lines@),
            lo == (if (start as int) < all.len() { start as int } else { all.len() as int }),
            views(r@) == (if lo < hi && lo < i {
                all.subrange(lo, if i < hi { i as int } else { hi })
            } else {
                Seq::<Seq<char>>::empty()
            }),
            hi == (if (stop as int) < all.len() { stop as int } else { all.len() as int }),
        decreases lines.len() - i,
    {
        if i >= start && i < stop {
            let line = lines[i].clone();
            proof {
                if lo < i {
                    assert(all.subrange(lo, i + 1) == all.subrange(lo, i as int).push(all[i as int]));
                } else {
                    assert(all.subrange(lo, i + 1) =~= seq![all[i as int]]);
                }
                assert(views(r@.push(line)) == views(r@).push(line@));
            }
            r.push(line);
        }
        i += 1;
    }
    r
}

} // verus!
