use vstd::prelude::*;

verus! {

use crate::node::{
    Node, NodeV, Content, ContentV, node_v, children_v, spec_size, sizes_sum, lemma_children_v,
    lemma_child_size_lt,
};
use crate::screen::{
    Screen, Anchor, AnchorEntry, entries_v, lemma_entries_v, entries_wf, coord_lt, MAX_TREE,
};
use crate::Coords;
use vstd::utf8::is_scalar;

/// 256 to the `k`.
pub open spec fn pow256(k: nat) -> int
    decreases k,
{
    if k == 0 {
        1
    } else {
        256 * pow256((k - 1) as nat)
    }
}

/// A nonnegative value as `k` little-endian base-256 digits.
pub open spec fn le_bytes(v: int, k: nat) -> Seq<u8>
    decreases k,
{
    if k == 0 {
        Seq::empty()
    } else {
        seq![(v % 256) as u8] + le_bytes(v / 256, (k - 1) as nat)
    }
}

/// The value read from `k` little-endian digits, and the position after.
pub open spec fn p_le(b: Seq<u8>, pos: int, k: nat) -> Option<(int, int)>
    decreases k,
{
    if k == 0 {
        Some((0, pos))
    } else if 0 <= pos < b.len() {
        match p_le(b, pos + 1, (k - 1) as nat) {
            Some((v, p2)) => Some((b[pos] + 256 * v, p2)),
            None => None,
        }
    } else {
        None
    }
}

/// `le_bytes` always yields `k` digits.
pub proof fn lemma_le_bytes_len(v: int, k: nat)
    ensures
        le_bytes(v, k).len() == k,
    decreases k,
{
    if k > 0 {
        lemma_le_bytes_len(v / 256, (k - 1) as nat);
    }
}

/// Reading back the digits of a value in range yields the value.
pub proof fn lemma_le_roundtrip(b: Seq<u8>, pos: int, v: int, k: nat)
    requires
        0 <= v < pow256(k),
        0 <= pos,
        pos + k <= b.len(),
        b.subrange(pos, pos + k) == le_bytes(v, k),
    ensures
        p_le(b, pos, k) == Some((v, pos + k)),
    decreases k,
{
    if k > 0 {
        lemma_le_bytes_len(v, k);
        lemma_le_bytes_len(v / 256, (k - 1) as nat);
        assert(b.subrange(pos, pos + k)[0] == b[pos]);
        assert(b[pos] == (v % 256) as u8);
        assert(v / 256 < pow256((k - 1) as nat)) by (nonlinear_arith)
            requires
                v < pow256(k),
                pow256(k) == 256 * pow256((k - 1) as nat),
                0 <= v,
        ;
        assert(b.subrange(pos + 1, pos + k) =~= le_bytes(v / 256, (k - 1) as nat)) by {
            assert forall|j: int| 0 <= j < k - 1 implies #[trigger] b.subrange(pos + 1, pos + k)[j]
                == le_bytes(v / 256, (k - 1) as nat)[j] by {
                assert(b.subrange(pos + 1, pos + k)[j] == b.subrange(pos, pos + k)[j + 1]);
            }
        }
        lemma_le_roundtrip(b, pos + 1, v / 256, (k - 1) as nat);
        assert(b[pos] + 256 * (v / 256) == v);
    }
}

/// The encoding of a payload: a tag byte, a length, then the characters as
/// 4-byte scalars or the samples as 8-byte words.
pub open spec fn enc_content(c: ContentV) -> Seq<u8> {
    match c {
        ContentV::Text { text } => seq![0u8] + le_bytes(text.len() as int, 8) + enc_chars(
            text,
            0,
        ),
        ContentV::Plot { samples } => seq![1u8] + le_bytes(samples.len() as int, 8) + enc_samples(
            samples,
            0,
        ),
    }
}

/// The characters from index `i` on, each as a 4-byte little-endian scalar.
pub open spec fn enc_chars(text: Seq<char>, i: int) -> Seq<u8>
    decreases text.len() - i,
{
    if i < 0 || i >= text.len() {
        Seq::empty()
    } else {
        le_bytes(text[i] as u32 as int, 4) + enc_chars(text, i + 1)
    }
}

/// The samples from index `i` on, each as an 8-byte little-endian word.
pub open spec fn enc_samples(s: Seq<i64>, i: int) -> Seq<u8>
    decreases s.len() - i,
{
    if i < 0 || i >= s.len() {
        Seq::empty()
    } else {
        le_bytes(s[i] as u64 as int, 8) + enc_samples(s, i + 1)
    }
}

/// The encoding of a subtree: its payload, its collapsed flag, the number
/// of children, then each child in order. Identity and the selected flag
/// are transient and not persisted.
pub open spec fn enc_node(n: NodeV) -> Seq<u8>
    decreases n, 0nat,
{
    enc_content(n.content) + seq![if n.collapsed { 1u8 } else { 0u8 }] + le_bytes(
        n.children.len() as int,
        8,
    ) + enc_children(n.children, 0)
}

/// The encodings of the children from index `i` on, in order.
pub open spec fn enc_children(cs: Seq<NodeV>, i: int) -> Seq<u8>
    decreases cs, cs.len() - i,
{
    if i < 0 || i >= cs.len() {
        Seq::empty()
    } else {
        enc_node(cs[i]) + enc_children(cs, i + 1)
    }
}

/// The encoding of a whole registry: the anchor count, then each anchor's
/// coordinates and tree in registry order.
pub open spec fn enc_screen(es: Seq<(Coords, NodeV)>) -> Seq<u8> {
    le_bytes(es.len() as int, 8) + enc_entries(es, 0)
}

/// The encodings of the registry entries from index `i` on.
pub open spec fn enc_entries(es: Seq<(Coords, NodeV)>, i: int) -> Seq<u8>
    decreases es.len() - i,
{
    if i < 0 || i >= es.len() {
        Seq::empty()
    } else {
        le_bytes(es[i].0.0 as int, 2) + le_bytes(es[i].0.1 as int, 2) + enc_node(es[i].1)
            + enc_entries(es, i + 1)
    }
}

/// A subtree with its transient state cleared: identity 0, not selected.
/// Two nodes are structurally equal exactly when their stripped forms are
/// equal: same payloads, same collapsed flags, same tree shape.
pub open spec fn strip(n: NodeV) -> NodeV
    decreases n, 0nat,
{
    NodeV {
        id: 0,
        content: n.content,
        selected: false,
        collapsed: n.collapsed,
        children: strip_seq(n.children, n.children.len() as int),
    }
}

/// The stripped forms of the first `i` nodes.
pub open spec fn strip_seq(cs: Seq<NodeV>, i: int) -> Seq<NodeV>
    decreases cs, i,
{
    if i <= 0 || i > cs.len() {
        Seq::empty()
    } else {
        strip_seq(cs, i - 1).push(strip(cs[i - 1]))
    }
}

/// The stripped registry: positions kept, every tree stripped.
pub open spec fn strip_entries(es: Seq<(Coords, NodeV)>, i: int) -> Seq<(Coords, NodeV)>
    decreases i,
{
    if i <= 0 || i > es.len() {
        Seq::empty()
    } else {
        strip_entries(es, i - 1).push((es[i - 1].0, strip(es[i - 1].1)))
    }
}

/// Stripping keeps the node count.
pub proof fn lemma_strip_size(n: NodeV)
    ensures
        spec_size(strip(n)) == spec_size(n),
        strip_seq(n.children, n.children.len() as int).len() == n.children.len(),
    decreases n, 0nat,
{
    lemma_strip_seq_size(n.children, n.children.len() as int);
}

proof fn lemma_strip_seq_size(cs: Seq<NodeV>, i: int)
    requires
        i <= cs.len(),
    ensures
        strip_seq(cs, i).len() == (if i < 0 {
            0
        } else {
            i
        }),
        sizes_sum(strip_seq(cs, i), i) == sizes_sum(cs, i),
        forall|j: int| 0 <= j < i ==> strip_seq(cs, i)[j] == strip(cs[j]),
    decreases cs, i,
{
    if 0 < i <= cs.len() {
        lemma_strip_seq_size(cs, i - 1);
        lemma_strip_size(cs[i - 1]);
        assert forall|j: int| 0 <= j < i implies strip_seq(cs, i)[j] == strip(cs[j]) by {
            if j < i - 1 {
                assert(strip_seq(cs, i)[j] == strip_seq(cs, i - 1)[j]);
            }
        }
        assert(sizes_sum(strip_seq(cs, i), i) == sizes_sum(strip_seq(cs, i), i - 1) + spec_size(
            strip_seq(cs, i)[i - 1],
        ));
        crate::node::lemma_sizes_sum_agree(strip_seq(cs, i), strip_seq(cs, i - 1), i - 1);
    }
}

/// Characters parsed from `cnt` consecutive 4-byte scalars.
pub open spec fn sp_chars(b: Seq<u8>, pos: int, cnt: int) -> Option<(Seq<char>, int)>
    decreases cnt,
{
    if cnt <= 0 {
        Some((Seq::empty(), pos))
    } else {
        match p_le(b, pos, 4) {
            Some((v, p2)) => if is_scalar(v as u32) {
                match sp_chars(b, p2, cnt - 1) {
                    Some((t, p3)) => Some((seq![(v as u32) as char] + t, p3)),
                    None => None,
                }
            } else {
                None
            },
            None => None,
        }
    }
}

/// Samples parsed from `cnt` consecutive 8-byte words.
pub open spec fn sp_samples(b: Seq<u8>, pos: int, cnt: int) -> Option<(Seq<i64>, int)>
    decreases cnt,
{
    if cnt <= 0 {
        Some((Seq::empty(), pos))
    } else {
        match p_le(b, pos, 8) {
            Some((v, p2)) => match sp_samples(b, p2, cnt - 1) {
                Some((t, p3)) => Some((seq![(v as u64) as i64] + t, p3)),
                None => None,
            },
            None => None,
        }
    }
}

/// A payload parsed from its tag, length and elements.
pub open spec fn sp_content(b: Seq<u8>, pos: int) -> Option<(ContentV, int)> {
    if 0 <= pos < b.len() {
        if b[pos] == 0 {
            match p_le(b, pos + 1, 8) {
                Some((cnt, p2)) => match sp_chars(b, p2, cnt) {
                    Some((t, p3)) => Some((ContentV::Text { text: t }, p3)),
                    None => None,
                },
                None => None,
            }
        } else if b[pos] == 1 {
            match p_le(b, pos + 1, 8) {
                Some((cnt, p2)) => match sp_samples(b, p2, cnt) {
                    Some((t, p3)) => Some((ContentV::Plot { samples: t }, p3)),
                    None => None,
                },
                None => None,
            }
        } else {
            None
        }
    } else {
        None
    }
}

/// A subtree parsed from the byte stream: payload, collapsed flag, child
/// count, then the children; identity 0 and not selected, as persisted
/// data carries neither.
pub open spec fn sp_node(b: Seq<u8>, pos: int) -> Option<(NodeV, int)>
    decreases b.len() - pos, 0int,
{
    if pos < 0 || pos >= b.len() {
        None
    } else {
        match sp_content(b, pos) {
            Some((c, p1)) => if pos < p1 && p1 + 9 <= b.len() && (b[p1] == 0 || b[p1] == 1) {
                let coll = b[p1] == 1;
                match p_le(b, p1 + 1, 8) {
                    Some((cnt, p2)) => if pos < p2 && p2 <= b.len() {
                        match sp_children(b, p2, cnt) {
                            Some((cs, p3)) => Some(
                                (
                                    NodeV {
                                        id: 0,
                                        content: c,
                                        selected: false,
                                        collapsed: coll,
                                        children: cs,
                                    },
                                    p3,
                                ),
                            ),
                            None => None,
                        }
                    } else {
                        None
                    },
                    None => None,
                }
            } else {
                None
            },
            None => None,
        }
    }
}

/// `cnt` subtrees parsed one after another.
pub open spec fn sp_children(b: Seq<u8>, pos: int, cnt: int) -> Option<(Seq<NodeV>, int)>
    decreases b.len() - pos, cnt,
{
    if cnt <= 0 {
        Some((Seq::empty(), pos))
    } else if pos < 0 || pos > b.len() {
        None
    } else {
        match sp_node(b, pos) {
            Some((n, p2)) => if pos < p2 && p2 <= b.len() {
                match sp_children(b, p2, cnt - 1) {
                    Some((cs, p3)) => Some((seq![n] + cs, p3)),
                    None => None,
                }
            } else {
                None
            },
            None => None,
        }
    }
}

/// Registry entries parsed one after another: coordinates, then the tree.
pub open spec fn sp_entries(b: Seq<u8>, pos: int, cnt: int) -> Option<(Seq<(Coords, NodeV)>, int)>
    decreases b.len() - pos, cnt,
{
    if cnt <= 0 {
        Some((Seq::empty(), pos))
    } else if pos < 0 || pos > b.len() {
        None
    } else {
        match p_le(b, pos, 2) {
            Some((x, px)) => match p_le(b, px, 2) {
                Some((y, py)) => match sp_node(b, py) {
                    Some((n, p2)) => if pos < p2 && p2 <= b.len() {
                        match sp_entries(b, p2, cnt - 1) {
                            Some((es, p3)) => Some(
                                (seq![((x as u16, y as u16), n)] + es, p3),
                            ),
                            None => None,
                        }
                    } else {
                        None
                    },
                    None => None,
                },
                None => None,
            },
            None => None,
        }
    }
}

/// A whole registry parsed from a byte stream; trailing bytes are refused.
pub open spec fn sp_screen(b: Seq<u8>) -> Option<Seq<(Coords, NodeV)>> {
    match p_le(b, 0, 8) {
        Some((cnt, p)) => match sp_entries(b, p, cnt) {
            Some((es, p2)) => if p2 == b.len() {
                Some(es)
            } else {
                None
            },
            None => None,
        },
        None => None,
    }
}

/// A payload whose lengths fit the 8-byte length fields.
pub open spec fn content_ok(c: ContentV) -> bool {
    match c {
        ContentV::Text { text } => text.len() < pow256(8),
        ContentV::Plot { samples } => samples.len() < pow256(8),
    }
}

/// A subtree whose lengths all fit their length fields. Every tree built
/// from executable nodes satisfies this.
pub open spec fn enc_ok(n: NodeV) -> bool
    decreases n, 0nat,
{
    content_ok(n.content) && n.children.len() < pow256(8) && enc_ok_seq(n.children, 0)
}

/// The bound from index `i` on.
pub open spec fn enc_ok_seq(cs: Seq<NodeV>, i: int) -> bool
    decreases cs, cs.len() - i,
{
    if i < 0 || i >= cs.len() {
        true
    } else {
        enc_ok(cs[i]) && enc_ok_seq(cs, i + 1)
    }
}

/// Every executable node's model fits the length fields.
pub proof fn lemma_node_v_enc_ok(n: Node)
    ensures
        enc_ok(n@),
    decreases n,
{
    broadcast use vstd::std_specs::vec::axiom_spec_len;

    lemma_pow256_large();
    match &n.content {
        Content::Text { text } => {
            assert(text@.len() == vstd::std_specs::vec::spec_vec_len(text));
        },
        Content::Plot(samples) => {
            assert(samples@.len() == vstd::std_specs::vec::spec_vec_len(samples));
        },
    }
    assert(n.children@.len() == vstd::std_specs::vec::spec_vec_len(&n.children));
    lemma_children_v(n.children@, n.children@.len() as int);
    lemma_node_seq_enc_ok(n.children@, 0);
}

proof fn lemma_node_seq_enc_ok(cs: Seq<Node>, i: int)
    requires
        0 <= i <= cs.len(),
    ensures
        enc_ok_seq(children_v(cs, cs.len() as int), i),
    decreases cs, cs.len() - i,
{
    lemma_children_v(cs, cs.len() as int);
    if i < cs.len() {
        lemma_node_v_enc_ok(cs[i]);
        lemma_node_seq_enc_ok(cs, i + 1);
    }
}

/// A byte range that holds a concatenation splits at the seam.
proof fn lemma_split(b: Seq<u8>, pos: int, a: Seq<u8>, c: Seq<u8>)
    requires
        0 <= pos,
        pos + a.len() + c.len() <= b.len(),
        b.subrange(pos, pos + a.len() + c.len()) == a + c,
    ensures
        b.subrange(pos, pos + a.len()) == a,
        b.subrange(pos + a.len(), pos + a.len() + c.len()) == c,
{
    assert forall|j: int| 0 <= j < a.len() implies #[trigger] b.subrange(pos, pos + a.len())[j]
        == a[j] by {
        assert(b.subrange(pos, pos + a.len() + c.len())[j] == (a + c)[j]);
    }
    assert(b.subrange(pos, pos + a.len()) =~= a);
    assert forall|j: int| 0 <= j < c.len() implies #[trigger] b.subrange(
        pos + a.len(),
        pos + a.len() + c.len(),
    )[j] == c[j] by {
        assert(b.subrange(pos, pos + a.len() + c.len())[a.len() + j] == (a + c)[a.len() + j]);
        assert((a + c)[a.len() + j] == c[j]);
        assert(b.subrange(pos, pos + a.len() + c.len())[a.len() + j] == b[pos + a.len() + j]);
        assert(b.subrange(pos + a.len(), pos + a.len() + c.len())[j] == b[pos + a.len() + j]);
    }
    assert(b.subrange(pos + a.len(), pos + a.len() + c.len()) =~= c);
}

/// Parsing the encoding of characters from `i` on yields those characters.
proof fn lemma_sp_chars_rt(b: Seq<u8>, pos: int, text: Seq<char>, i: int)
    requires
        0 <= i <= text.len(),
        0 <= pos,
        pos + enc_chars(text, i).len() <= b.len(),
        b.subrange(pos, pos + enc_chars(text, i).len()) == enc_chars(text, i),
    ensures
        enc_chars(text, i).len() == 4 * (text.len() - i),
        sp_chars(b, pos, text.len() - i) == Some(
            (text.subrange(i, text.len() as int), pos + 4 * (text.len() - i)),
        ),
    decreases text.len() - i,
{
    lemma_pow256_large();
    if i < text.len() {
        let cv = text[i] as u32 as int;
        vstd::utf8::char_is_scalar(text[i]);
        vstd::utf8::char_u32_cast(text[i], text[i] as u32);
        lemma_le_bytes_len(cv, 4);
        lemma_split(b, pos, le_bytes(cv, 4), enc_chars(text, i + 1));
        lemma_le_roundtrip(b, pos, cv, 4);
        lemma_sp_chars_rt(b, pos + 4, text, i + 1);
        assert(cv as u32 == text[i] as u32);
        assert(is_scalar(text[i] as u32));
        assert((cv as u32) as char == text[i]);
        assert(seq![text[i]] + text.subrange(i + 1, text.len() as int) =~= text.subrange(
            i,
            text.len() as int,
        ));
    } else {
        assert(text.subrange(i, text.len() as int) =~= Seq::<char>::empty());
    }
}

/// Parsing the encoding of samples from `i` on yields those samples.
proof fn lemma_sp_samples_rt(b: Seq<u8>, pos: int, s: Seq<i64>, i: int)
    requires
        0 <= i <= s.len(),
        0 <= pos,
        pos + enc_samples(s, i).len() <= b.len(),
        b.subrange(pos, pos + enc_samples(s, i).len()) == enc_samples(s, i),
    ensures
        enc_samples(s, i).len() == 8 * (s.len() - i),
        sp_samples(b, pos, s.len() - i) == Some(
            (s.subrange(i, s.len() as int), pos + 8 * (s.len() - i)),
        ),
    decreases s.len() - i,
{
    lemma_pow256_large();
    if i < s.len() {
        let sv = s[i] as u64 as int;
        lemma_le_bytes_len(sv, 8);
        lemma_split(b, pos, le_bytes(sv, 8), enc_samples(s, i + 1));
        lemma_le_roundtrip(b, pos, sv, 8);
        lemma_sp_samples_rt(b, pos + 8, s, i + 1);
        let x = s[i];
        assert(x as u64 as i64 == x) by (bit_vector);
        assert(seq![s[i]] + s.subrange(i + 1, s.len() as int) =~= s.subrange(i, s.len() as int));
    } else {
        assert(s.subrange(i, s.len() as int) =~= Seq::<i64>::empty());
    }
}

/// Parsing the encoding of a payload yields the payload.
proof fn lemma_sp_content_rt(b: Seq<u8>, pos: int, c: ContentV)
    requires
        content_ok(c),
        0 <= pos,
        pos + enc_content(c).len() <= b.len(),
        b.subrange(pos, pos + enc_content(c).len()) == enc_content(c),
    ensures
        enc_content(c).len() >= 9,
        sp_content(b, pos) == Some((c, pos + enc_content(c).len())),
{
    lemma_pow256_large();
    match c {
        ContentV::Text { text } => {
            lemma_le_bytes_len(text.len() as int, 8);
            lemma_split(
                b,
                pos,
                seq![0u8] + le_bytes(text.len() as int, 8),
                enc_chars(text, 0),
            );
            assert(seq![0u8] + (le_bytes(text.len() as int, 8) + enc_chars(text, 0))
                =~= enc_content(c));
            lemma_split(b, pos, seq![0u8], le_bytes(text.len() as int, 8) + enc_chars(text, 0));
            lemma_split(b, pos + 1, le_bytes(text.len() as int, 8), enc_chars(text, 0));
            assert(b[pos] == 0) by {
                assert(b.subrange(pos, pos + 1)[0] == seq![0u8][0]);
            }
            lemma_le_roundtrip(b, pos + 1, text.len() as int, 8);
            lemma_sp_chars_rt(b, pos + 9, text, 0);
            assert(text.subrange(0, text.len() as int) =~= text);
        },
        ContentV::Plot { samples } => {
            lemma_le_bytes_len(samples.len() as int, 8);
            lemma_split(
                b,
                pos,
                seq![1u8] + le_bytes(samples.len() as int, 8),
                enc_samples(samples, 0),
            );
            assert(seq![1u8] + (le_bytes(samples.len() as int, 8) + enc_samples(samples, 0))
                =~= enc_content(c));
            lemma_split(
                b,
                pos,
                seq![1u8],
                le_bytes(samples.len() as int, 8) + enc_samples(samples, 0),
            );
            lemma_split(b, pos + 1, le_bytes(samples.len() as int, 8), enc_samples(samples, 0));
            assert(b[pos] == 1) by {
                assert(b.subrange(pos, pos + 1)[0] == seq![1u8][0]);
            }
            lemma_le_roundtrip(b, pos + 1, samples.len() as int, 8);
            lemma_sp_samples_rt(b, pos + 9, samples, 0);
            assert(samples.subrange(0, samples.len() as int) =~= samples);
        },
    }
}

/// Parsing the encoding of a subtree yields its stripped form.
pub proof fn lemma_sp_node_rt(b: Seq<u8>, pos: int, n: NodeV)
    requires
        enc_ok(n),
        0 <= pos,
        pos + enc_node(n).len() <= b.len(),
        b.subrange(pos, pos + enc_node(n).len()) == enc_node(n),
    ensures
        enc_node(n).len() >= 18,
        sp_node(b, pos) == Some((strip(n), pos + enc_node(n).len())),
    decreases n, 0nat,
{
    lemma_pow256_large();
    let cb = seq![if n.collapsed { 1u8 } else { 0u8 }];
    let lenb = le_bytes(n.children.len() as int, 8);
    let kids = enc_children(n.children, 0);
    lemma_le_bytes_len(n.children.len() as int, 8);
    assert(enc_content(n.content) + (cb + lenb + kids) =~= enc_node(n));
    lemma_split(b, pos, enc_content(n.content), cb + lenb + kids);
    let p1 = pos + enc_content(n.content).len();
    assert(cb + (lenb + kids) =~= cb + lenb + kids);
    lemma_split(b, p1, cb, lenb + kids);
    lemma_split(b, p1 + 1, lenb, kids);
    lemma_sp_content_rt(b, pos, n.content);
    assert(b[p1] == (if n.collapsed { 1u8 } else { 0u8 })) by {
        assert(b.subrange(p1, p1 + 1)[0] == cb[0]);
    }
    lemma_le_roundtrip(b, p1 + 1, n.children.len() as int, 8);
    let p2 = p1 + 9;
    lemma_sp_children_rt(b, p2, n.children, 0);
    lemma_strip_size(n);
    assert(strip_seq(n.children, n.children.len() as int).subrange(
        0,
        n.children.len() as int,
    ) =~= strip_seq(n.children, n.children.len() as int));
    assert(sp_node(b, pos) == Some((strip(n), pos + enc_node(n).len())));
}

/// Parsing the encodings of the children from `i` on yields their stripped
/// forms, in order.
pub proof fn lemma_sp_children_rt(b: Seq<u8>, pos: int, cs: Seq<NodeV>, i: int)
    requires
        enc_ok_seq(cs, i),
        0 <= i <= cs.len(),
        0 <= pos,
        pos + enc_children(cs, i).len() <= b.len(),
        b.subrange(pos, pos + enc_children(cs, i).len()) == enc_children(cs, i),
    ensures
        sp_children(b, pos, cs.len() - i) == Some(
            (
                strip_seq(cs, cs.len() as int).subrange(i, cs.len() as int),
                pos + enc_children(cs, i).len(),
            ),
        ),
    decreases cs, cs.len() - i,
{
    lemma_strip_seq_size(cs, cs.len() as int);
    if i < cs.len() {
        lemma_split(b, pos, enc_node(cs[i]), enc_children(cs, i + 1));
        lemma_sp_node_rt(b, pos, cs[i]);
        let p2 = pos + enc_node(cs[i]).len();
        lemma_sp_children_rt(b, p2, cs, i + 1);
        assert(seq![strip(cs[i])] + strip_seq(cs, cs.len() as int).subrange(
            i + 1,
            cs.len() as int,
        ) =~= strip_seq(cs, cs.len() as int).subrange(i, cs.len() as int));
    } else {
        assert(strip_seq(cs, cs.len() as int).subrange(i, cs.len() as int) =~= Seq::<
            NodeV,
        >::empty());
    }
}

/// The 8-byte length field covers every machine-sized length.
pub proof fn lemma_pow256_large()
    ensures
        pow256(8) == 0x1_0000_0000_0000_0000,
        pow256(4) == 0x1_0000_0000,
        pow256(2) == 0x1_0000,
{
    reveal_with_fuel(pow256, 10);
}

/// Powers of 256 are positive.
pub proof fn lemma_pow256_pos(k: nat)
    ensures
        pow256(k) >= 1,
    decreases k,
{
    if k > 0 {
        lemma_pow256_pos((k - 1) as nat);
    }
}

/// Powers of 256 grow with the exponent.
pub proof fn lemma_pow256_mono(a: nat, b: nat)
    requires
        a <= b,
    ensures
        pow256(a) <= pow256(b),
    decreases b,
{
    if a < b {
        lemma_pow256_mono(a, (b - 1) as nat);
        lemma_pow256_pos((b - 1) as nat);
    }
}

/// A parsed value lies below the field's range and consumes exactly its
/// bytes.
pub proof fn lemma_p_le_props(b: Seq<u8>, pos: int, k: nat)
    ensures
        p_le(b, pos, k) matches Some((v, p)) ==> 0 <= v < pow256(k) && p == pos + k,
        k > 0 && 0 <= pos && pos + k <= b.len() ==> p_le(b, pos, k) is Some,
        k > 0 && (p_le(b, pos, k) is Some) ==> 0 <= pos && pos + k <= b.len(),
    decreases k,
{
    lemma_pow256_pos(k);
    if k > 0 {
        lemma_p_le_props(b, pos + 1, (k - 1) as nat);
    }
}

/// Append a value as `k` little-endian bytes.
fn ser_le(out: &mut Vec<u8>, v: u64, k: usize)
    ensures
        final(out)@ == old(out)@ + le_bytes(v as int, k as nat),
{
    let mut cur: u64 = v;
    let mut j: usize = 0;
    while j < k
        invariant
            j <= k,
            out@ + le_bytes(cur as int, (k - j) as nat) == old(out)@ + le_bytes(
                v as int,
                k as nat,
            ),
        decreases k - j,
    {
        let ghost pre = out@;
        let ghost c0 = cur as int;
        out.push((cur % 256) as u8);
        assert(out@ + le_bytes(c0 / 256, (k - j - 1) as nat) =~= pre + le_bytes(
            c0,
            (k - j) as nat,
        ));
        cur = cur / 256;
        j = j + 1;
    }
    assert(out@ =~= out@ + le_bytes(cur as int, 0));
}

/// Append the encoding of a payload.
fn ser_content(c: &Content, out: &mut Vec<u8>)
    ensures
        final(out)@ == old(out)@ + enc_content(c@),
{
    match c {
        Content::Text { text } => {
            out.push(0u8);
            ser_le(out, text.len() as u64, 8);
            let ghost base = out@;
            let mut i: usize = 0;
            while i < text.len()
                invariant
                    i <= text.len(),
                    out@ + enc_chars(text@, i as int) == base + enc_chars(text@, 0),
                decreases text.len() - i,
            {
                let c0 = text[i];
                ser_le(out, c0 as u32 as u64, 4);
                assert(out@ + enc_chars(text@, i + 1) =~= base + enc_chars(text@, 0));
                i = i + 1;
            }
            assert(out@ =~= out@ + enc_chars(text@, text@.len() as int));
            assert(final(out)@ =~= old(out)@ + enc_content(c@));
        },
        Content::Plot(samples) => {
            out.push(1u8);
            ser_le(out, samples.len() as u64, 8);
            let ghost base = out@;
            let mut i: usize = 0;
            while i < samples.len()
                invariant
                    i <= samples.len(),
                    out@ + enc_samples(samples@, i as int) == base + enc_samples(samples@, 0),
                decreases samples.len() - i,
            {
                let s0 = samples[i];
                ser_le(out, s0 as u64, 8);
                assert(out@ + enc_samples(samples@, i + 1) =~= base + enc_samples(samples@, 0));
                i = i + 1;
            }
            assert(out@ =~= out@ + enc_samples(samples@, samples@.len() as int));
            assert(final(out)@ =~= old(out)@ + enc_content(c@));
        },
    }
}

/// Append the encoding of a subtree.
fn ser_node(n: &Node, out: &mut Vec<u8>)
    ensures
        final(out)@ == old(out)@ + enc_node(n@),
    decreases spec_size(n@),
{
    let ghost cs = n@.children;
    proof {
        lemma_children_v(n.children@, n.children@.len() as int);
    }
    ser_content(&n.content, out);
    if n.collapsed {
        out.push(1u8);
    } else {
        out.push(0u8);
    }
    ser_le(out, n.children.len() as u64, 8);
    let ghost base = out@;
    assert(base =~= old(out)@ + enc_content(n@.content) + seq![
        if n@.collapsed {
            1u8
        } else {
            0u8
        },
    ] + le_bytes(cs.len() as int, 8));
    let mut i: usize = 0;
    while i < n.children.len()
        invariant
            i <= n.children.len(),
            cs == n@.children,
            cs.len() == n.children.len(),
            forall|j: int| 0 <= j < cs.len() ==> cs[j] == node_v(n.children@[j]),
            spec_size(n@) == spec_size(node_v(*n)),
            out@ + enc_children(cs, i as int) == base + enc_children(cs, 0),
        decreases n.children.len() - i,
    {
        proof {
            lemma_child_size_lt(n@, i as int);
        }
        ser_node(&n.children[i], out);
        assert(out@ + enc_children(cs, i + 1) =~= base + enc_children(cs, 0));
        i = i + 1;
    }
    assert(out@ =~= out@ + enc_children(cs, cs.len() as int));
    assert(final(out)@ =~= old(out)@ + enc_node(n@));
}

/// Serialize the full anchor registry to a self-describing byte sequence.
/// Selection state and node identities are transient and are not written.
pub fn serialize_screen(s: &Screen) -> (out: Vec<u8>)
    ensures
        out@ == enc_screen(s@.entries),
{
    let ghost es = s@.entries;
    proof {
        lemma_entries_v(s.anchors@, s.anchors@.len() as int);
    }
    let mut out: Vec<u8> = Vec::new();
    ser_le(&mut out, s.anchors.len() as u64, 8);
    let ghost base = out@;
    assert(base =~= Seq::<u8>::empty() + le_bytes(es.len() as int, 8));
    let mut i: usize = 0;
    while i < s.anchors.len()
        invariant
            i <= s.anchors.len(),
            es == s@.entries,
            es.len() == s.anchors.len(),
            forall|j: int|
                0 <= j < es.len() ==> es[j] == (
                    s.anchors@[j].coords,
                    node_v(s.anchors@[j].anchor.head),
                ),
            out@ + enc_entries(es, i as int) == base + enc_entries(es, 0),
        decreases s.anchors.len() - i,
    {
        let ec = s.anchors[i].coords;
        ser_le(&mut out, ec.0 as u64, 2);
        ser_le(&mut out, ec.1 as u64, 2);
        ser_node(&s.anchors[i].anchor.head, &mut out);
        assert(out@ + enc_entries(es, i + 1) =~= base + enc_entries(es, 0));
        i = i + 1;
    }
    assert(out@ =~= out@ + enc_entries(es, es.len() as int));
    assert(out@ =~= enc_screen(es));
    out
}

/// Relies on char::from_u32: `Some` exactly for the Unicode scalar values,
/// and there the inverse of the `as u32` cast.
#[verifier::external_body]
fn char_from_u32(u: u32) -> (r: Option<char>)
    ensures
        is_scalar(u) ==> r == Some(u as char),
        !is_scalar(u) ==> r is None,
{
    char::from_u32(u)
}

/// Read a `k`-byte little-endian field.
fn p_le_exec(bytes: &Vec<u8>, pos: usize, k: usize) -> (r: Option<(u64, usize)>)
    requires
        1 <= k <= 8,
    ensures
        match p_le(bytes@, pos as int, k as nat) {
            Some((v, p)) => r matches Some((rv, rp)) && rv as int == v && rp as int == p && rp
                <= bytes@.len(),
            None => r is None,
        },
{
    proof {
        lemma_p_le_props(bytes@, pos as int, k as nat);
        lemma_pow256_mono(k as nat, 8);
        reveal_with_fuel(pow256, 10);
    }
    let n = bytes.len();
    if pos > n || k > n - pos {
        return None;
    }
    let mut v: u64 = 0;
    let mut j: usize = k;
    while j > 0
        invariant
            j <= k,
            1 <= k <= 8,
            n == bytes@.len(),
            pos + k <= n,
            (v as int) < pow256((k - j) as nat),
            p_le(bytes@, pos + j, (k - j) as nat) == Some((v as int, pos + k)),
        decreases j,
    {
        proof {
            lemma_pow256_mono((k - j) as nat, 7);
            reveal_with_fuel(pow256, 10);
            assert((v as int) * 256 + 255 < 0x1_0000_0000_0000_0000) by (nonlinear_arith)
                requires
                    (v as int) < pow256((k - j) as nat),
                    pow256((k - j) as nat) <= 0x100_0000_0000_0000,
                    0 <= v as int,
            ;
        }
        j = j - 1;
        v = v * 256 + bytes[pos + j] as u64;
    }
    Some((v, pos + k))
}

/// Parse a payload: tag, length, elements.
fn parse_content(bytes: &Vec<u8>, pos: usize) -> (r: Option<(Content, usize)>)
    ensures
        match sp_content(bytes@, pos as int) {
            Some((cv, p)) => r matches Some((c2, p2)) && c2@ == cv && p2 as int == p && p2
                <= bytes@.len() && pos < p2,
            None => r is None,
        },
{
    if pos >= bytes.len() {
        return None;
    }
    let tag = bytes[pos];
    if tag == 0 {
        let (cnt, p2) = match p_le_exec(bytes, pos + 1, 8) {
            Some(t) => t,
            None => {
                return None;
            },
        };
        proof {
            lemma_p_le_props(bytes@, pos as int + 1, 8);
        }
        let ghost start = p2 as int;
        let mut text: Vec<char> = Vec::new();
        let mut cur: usize = p2;
        let mut k: u64 = 0;
        while k < cnt
            invariant
                k <= cnt,
                pos < p2 <= cur <= bytes@.len(),
                start == p2 as int,
                text@.len() == k,
                sp_content(bytes@, pos as int) == (match sp_chars(bytes@, start, cnt as int) {
                    Some((t, p3)) => Some((ContentV::Text { text: t }, p3)),
                    None => None::<(ContentV, int)>,
                }),
                sp_chars(bytes@, start, cnt as int) == (match sp_chars(
                    bytes@,
                    cur as int,
                    cnt - k,
                ) {
                    Some((t, p3)) => Some((text@ + t, p3)),
                    None => None::<(Seq<char>, int)>,
                }),
            decreases cnt - k,
        {
            let (u, p3) = match p_le_exec(bytes, cur, 4) {
                Some(t) => t,
                None => {
                    return None;
                },
            };
            proof {
                lemma_p_le_props(bytes@, cur as int, 4);
                lemma_pow256_large();
            }
            let c0 = match char_from_u32(u as u32) {
                Some(c0) => c0,
                None => {
                    return None;
                },
            };
            text.push(c0);
            assert(text@ + (match sp_chars(bytes@, p3 as int, cnt - k - 1) {
                Some((t, _)) => t,
                None => Seq::<char>::empty(),
            }) =~= text@.drop_last() + (seq![c0] + (match sp_chars(
                bytes@,
                p3 as int,
                cnt - k - 1,
            ) {
                Some((t, _)) => t,
                None => Seq::<char>::empty(),
            })));
            cur = p3;
            k = k + 1;
        }
        assert(sp_chars(bytes@, cur as int, 0) == Some((Seq::<char>::empty(), cur as int)));
        assert(text@ + Seq::<char>::empty() =~= text@);
        Some((Content::Text { text }, cur))
    } else if tag == 1 {
        let (cnt, p2) = match p_le_exec(bytes, pos + 1, 8) {
            Some(t) => t,
            None => {
                return None;
            },
        };
        proof {
            lemma_p_le_props(bytes@, pos as int + 1, 8);
        }
        let ghost start = p2 as int;
        let mut samples: Vec<i64> = Vec::new();
        let mut cur: usize = p2;
        let mut k: u64 = 0;
        while k < cnt
            invariant
                k <= cnt,
                pos < p2 <= cur <= bytes@.len(),
                start == p2 as int,
                samples@.len() == k,
                sp_content(bytes@, pos as int) == (match sp_samples(bytes@, start, cnt as int) {
                    Some((t, p3)) => Some((ContentV::Plot { samples: t }, p3)),
                    None => None::<(ContentV, int)>,
                }),
                sp_samples(bytes@, start, cnt as int) == (match sp_samples(
                    bytes@,
                    cur as int,
                    cnt - k,
                ) {
                    Some((t, p3)) => Some((samples@ + t, p3)),
                    None => None::<(Seq<i64>, int)>,
                }),
            decreases cnt - k,
        {
            let (u, p3) = match p_le_exec(bytes, cur, 8) {
                Some(t) => t,
                None => {
                    return None;
                },
            };
            proof {
                lemma_p_le_props(bytes@, cur as int, 8);
            }
            let s0 = u as i64;
            samples.push(s0);
            assert(samples@ + (match sp_samples(bytes@, p3 as int, cnt - k - 1) {
                Some((t, _)) => t,
                None => Seq::<i64>::empty(),
            }) =~= samples@.drop_last() + (seq![s0] + (match sp_samples(
                bytes@,
                p3 as int,
                cnt - k - 1,
            ) {
                Some((t, _)) => t,
                None => Seq::<i64>::empty(),
            })));
            cur = p3;
            k = k + 1;
        }
        assert(sp_samples(bytes@, cur as int, 0) == Some((Seq::<i64>::empty(), cur as int)));
        assert(samples@ + Seq::<i64>::empty() =~= samples@);
        Some((Content::Plot(samples), cur))
    } else {
        None
    }
}

/// The length-field bound over the entries from `i` on.
pub open spec fn enc_ok_entries(es: Seq<(Coords, NodeV)>, i: int) -> bool
    decreases es.len() - i,
{
    if i < 0 || i >= es.len() {
        true
    } else {
        enc_ok(es[i].1) && enc_ok_entries(es, i + 1)
    }
}

/// `strip_entries` keeps positions and strips each tree, pointwise.
pub proof fn lemma_strip_entries(es: Seq<(Coords, NodeV)>, i: int)
    requires
        0 <= i <= es.len(),
    ensures
        strip_entries(es, i).len() == i,
        forall|j: int| 0 <= j < i ==> strip_entries(es, i)[j] == (es[j].0, strip(es[j].1)),
    decreases i,
{
    if i > 0 {
        lemma_strip_entries(es, i - 1);
    }
}

/// Parsing the encodings of the entries from `i` on yields the stripped
/// registry tail.
pub proof fn lemma_sp_entries_rt(b: Seq<u8>, pos: int, es: Seq<(Coords, NodeV)>, i: int)
    requires
        enc_ok_entries(es, i),
        0 <= i <= es.len(),
        0 <= pos,
        pos + enc_entries(es, i).len() <= b.len(),
        b.subrange(pos, pos + enc_entries(es, i).len()) == enc_entries(es, i),
    ensures
        sp_entries(b, pos, es.len() - i) == Some(
            (
                strip_entries(es, es.len() as int).subrange(i, es.len() as int),
                pos + enc_entries(es, i).len(),
            ),
        ),
    decreases es.len() - i,
{
    lemma_pow256_large();
    lemma_strip_entries(es, es.len() as int);
    if i < es.len() {
        let xb = le_bytes(es[i].0.0 as int, 2);
        let yb = le_bytes(es[i].0.1 as int, 2);
        lemma_le_bytes_len(es[i].0.0 as int, 2);
        lemma_le_bytes_len(es[i].0.1 as int, 2);
        assert(xb + (yb + (enc_node(es[i].1) + enc_entries(es, i + 1))) =~= enc_entries(es, i));
        lemma_split(b, pos, xb, yb + (enc_node(es[i].1) + enc_entries(es, i + 1)));
        lemma_split(b, pos + 2, yb, enc_node(es[i].1) + enc_entries(es, i + 1));
        lemma_split(b, pos + 4, enc_node(es[i].1), enc_entries(es, i + 1));
        lemma_le_roundtrip(b, pos, es[i].0.0 as int, 2);
        lemma_le_roundtrip(b, pos + 2, es[i].0.1 as int, 2);
        lemma_sp_node_rt(b, pos + 4, es[i].1);
        let p2 = pos + 4 + enc_node(es[i].1).len();
        lemma_sp_entries_rt(b, p2, es, i + 1);
        assert((es[i].0.0 as int) as u16 == es[i].0.0);
        assert((es[i].0.1 as int) as u16 == es[i].0.1);
        assert(seq![(es[i].0, strip(es[i].1))] + strip_entries(es, es.len() as int).subrange(
            i + 1,
            es.len() as int,
        ) =~= strip_entries(es, es.len() as int).subrange(i, es.len() as int));
    } else {
        assert(strip_entries(es, es.len() as int).subrange(i, es.len() as int) =~= Seq::<
            (Coords, NodeV),
        >::empty());
    }
}

/// Round-trip law for the byte format: parsing the encoding of any
/// registry yields exactly the registry, structurally — same positions,
/// same payloads, same tree shapes, same collapsed flags.
pub proof fn lemma_serialize_round_trip(es: Seq<(Coords, NodeV)>)
    requires
        enc_ok_entries(es, 0),
        es.len() < pow256(8),
    ensures
        sp_screen(enc_screen(es)) == Some(strip_entries(es, es.len() as int)),
{
    let b = enc_screen(es);
    lemma_le_bytes_len(es.len() as int, 8);
    assert(b.subrange(0, b.len() as int) =~= b);
    lemma_split(b, 0, le_bytes(es.len() as int, 8), enc_entries(es, 0));
    lemma_le_roundtrip(b, 0, es.len() as int, 8);
    lemma_sp_entries_rt(b, 8, es, 0);
    lemma_strip_entries(es, es.len() as int);
    assert(strip_entries(es, es.len() as int).subrange(0, es.len() as int) =~= strip_entries(
        es,
        es.len() as int,
    ));
}

/// Every well-formed screen's registry fits the length fields.
proof fn lemma_entries_enc_ok(anchors: Seq<AnchorEntry>, i: int)
    requires
        0 <= i <= anchors.len(),
    ensures
        enc_ok_entries(entries_v(anchors, anchors.len() as int), i),
    decreases anchors.len() - i,
{
    lemma_entries_v(anchors, anchors.len() as int);
    if i < anchors.len() {
        lemma_node_v_enc_ok(anchors[i].anchor.head);
        lemma_entries_enc_ok(anchors, i + 1);
    }
}

/// Round-trip law for a whole screen: parsing the serialized registry of
/// any well-formed screen yields its stripped registry, which is itself
/// well formed — so rebuilding from those bytes succeeds and reconstructs
/// an anchor set structurally equal to the original: same positions,
/// same payloads, same tree shapes, same collapsed flags. This also holds
/// of a screen with zero anchors.
pub proof fn lemma_store_round_trip(s: Screen)
    requires
        s.wf(),
    ensures
        sp_screen(enc_screen(s@.entries)) == Some(
            strip_entries(s@.entries, s@.entries.len() as int),
        ),
        entries_wf(strip_entries(s@.entries, s@.entries.len() as int)),
{
    broadcast use vstd::std_specs::vec::axiom_spec_len;

    let es = s@.entries;
    lemma_entries_v(s.anchors@, s.anchors@.len() as int);
    lemma_entries_enc_ok(s.anchors@, 0);
    lemma_pow256_large();
    assert(s.anchors@.len() == vstd::std_specs::vec::spec_vec_len(&s.anchors));
    lemma_serialize_round_trip(es);
    let st = strip_entries(es, es.len() as int);
    lemma_strip_entries(es, es.len() as int);
    assert forall|i: int| 0 <= i < st.len() implies spec_size(#[trigger] st[i].1) <= MAX_TREE by {
        lemma_strip_size(es[i].1);
        assert(st[i].1 == strip(es[i].1));
        assert(spec_size(es[i].1) <= MAX_TREE);
    }
    assert forall|i: int, j: int| 0 <= i < j < st.len() implies coord_lt(
        #[trigger] st[i].0,
        #[trigger] st[j].0,
    ) by {
        assert(st[i].0 == es[i].0 && st[j].0 == es[j].0);
    }
}

/// Parse one subtree, handing every parsed node a fresh identity from
/// `next` on.
fn parse_node(bytes: &Vec<u8>, pos: usize, next: u64) -> (r: Option<(Node, usize, u64)>)
    requires
        pos <= bytes@.len(),
        next as int + bytes@.len() - pos <= u64::MAX as int,
    ensures
        match sp_node(bytes@, pos as int) {
            Some((nv, p2)) => r matches Some((n2, pe, nx)) && strip(n2@) == nv && crate::node::sel_count(
                n2@,
            ) == 0 && pe as int == p2 && pos < pe <= bytes@.len() && next <= nx && nx as int
                - next as int <= pe as int - pos,
            None => r is None,
        },
    decreases bytes@.len() - pos,
{
    if pos >= bytes.len() {
        return None;
    }
    let (content, p1) = match parse_content(bytes, pos) {
        Some(t) => t,
        None => {
            return None;
        },
    };
    if bytes.len() - p1 < 9 {
        return None;
    }
    let cb = bytes[p1];
    if !(cb == 0 || cb == 1) {
        return None;
    }
    let collapsed = cb == 1;
    let (cnt, p2) = match p_le_exec(bytes, p1 + 1, 8) {
        Some(t) => t,
        None => {
            return None;
        },
    };
    proof {
        lemma_p_le_props(bytes@, p1 as int + 1, 8);
    }
    let ghost start = p2 as int;
    let mut kids: Vec<Node> = Vec::new();
    let ghost mut done: Seq<NodeV> = Seq::empty();
    let mut cur: usize = p2;
    let mut nx: u64 = next + 1;
    let mut k: u64 = 0;
    while k < cnt
        invariant
            k <= cnt,
            pos < p2 <= cur <= bytes@.len(),
            start == p2 as int,
            p2 >= pos + 10,
            next < nx,
            nx as int - (next as int + 1) <= cur as int - p2 as int,
            next as int + bytes@.len() - pos <= u64::MAX as int,
            kids@.len() == done.len(),
            done.len() == k,
            forall|j: int| 0 <= j < k ==> done[j] == strip(node_v(kids@[j])),
            forall|j: int| 0 <= j < k ==> crate::node::sel_count(node_v(#[trigger] kids@[j])) == 0,
            sp_node(bytes@, pos as int) == (match sp_children(bytes@, start, cnt as int) {
                Some((cs, p3)) => Some(
                    (
                        NodeV {
                            id: 0,
                            content: content@,
                            selected: false,
                            collapsed: collapsed,
                            children: cs,
                        },
                        p3,
                    ),
                ),
                None => None::<(NodeV, int)>,
            }),
            sp_children(bytes@, start, cnt as int) == (match sp_children(
                bytes@,
                cur as int,
                cnt - k,
            ) {
                Some((cs, p3)) => Some((done + cs, p3)),
                None => None::<(Seq<NodeV>, int)>,
            }),
        decreases cnt - k,
    {
        let (child, pc, nx2) = match parse_node(bytes, cur, nx) {
            Some(t) => t,
            None => {
                return None;
            },
        };
        kids.push(child);
        proof {
            done = done.push(strip(child@));
            assert(done.drop_last() + (seq![strip(child@)] + (match sp_children(
                bytes@,
                pc as int,
                cnt - k - 1,
            ) {
                Some((cs, _)) => cs,
                None => Seq::<NodeV>::empty(),
            })) =~= done + (match sp_children(bytes@, pc as int, cnt - k - 1) {
                Some((cs, _)) => cs,
                None => Seq::<NodeV>::empty(),
            }));
        }
        cur = pc;
        nx = nx2;
        k = k + 1;
    }
    assert(sp_children(bytes@, cur as int, 0) == Some((Seq::<NodeV>::empty(), cur as int)));
    assert(done + Seq::<NodeV>::empty() =~= done);
    let node = Node { content, children: kids, selected: false, collapsed, id: next };
    proof {
        lemma_children_v(kids@, kids@.len() as int);
        crate::serialization::lemma_strip_seq_size_pub(
            children_v(kids@, kids@.len() as int),
            kids@.len() as int,
        );
        crate::node::lemma_sel_rec_zero(children_v(kids@, kids@.len() as int), 0);
        assert(crate::node::sel_count(node@) == 0);
        assert(strip(node@).children =~= done);
        assert(strip(node@) =~= (match sp_node(bytes@, pos as int) {
            Some((nv, _)) => nv,
            None => strip(node@),
        }));
    }
    Some((node, cur, nx))
}

/// Adjacent ordering of registry keys extends to all pairs.
proof fn lemma_adj_sorted(es: Seq<(Coords, NodeV)>, i: int, j: int)
    requires
        0 <= i < j < es.len(),
        forall|a: int| 0 <= a < es.len() - 1 ==> coord_lt(#[trigger] es[a].0, es[a + 1].0),
    ensures
        coord_lt(es[i].0, es[j].0),
    decreases j - i,
{
    if i + 1 < j {
        lemma_adj_sorted(es, i + 1, j);
        assert(coord_lt(es[i].0, es[i + 1].0));
    }
}

/// Rebuild a screen from a decrypted byte sequence. Empty bytes are a
/// fresh store and yield an empty screen; malformed bytes, keys out of
/// ascending order, or an oversized tree yield nothing. Every rebuilt
/// node gets a fresh identity and nothing is selected.
pub fn deserialize_screen(bytes: &Vec<u8>) -> (r: Option<Screen>)
    ensures
        bytes@.len() == 0 ==> (r matches Some(s) && s.wf() && s@.entries == Seq::<
            (Coords, NodeV),
        >::empty() && s@.selection is None),
        bytes@.len() > 0 ==> (match sp_screen(bytes@) {
            Some(es) => r matches Some(s) ==> (s.wf() && s@.selection is None && strip_entries(
                s@.entries,
                s@.entries.len() as int,
            ) == es),
            None => r is None,
        }),
        bytes@.len() > 0 && (match sp_screen(bytes@) {
            Some(es) => entries_wf(es),
            None => false,
        }) ==> r is Some,
        r matches Some(s) ==> crate::screen::sel_inv(s@),
{
    if bytes.len() == 0 {
        let s = Screen::default();
        return Some(s);
    }
    let (cnt, p0) = match p_le_exec(bytes, 0, 8) {
        Some(t) => t,
        None => {
            return None;
        },
    };
    proof {
        lemma_p_le_props(bytes@, 0, 8);
    }
    let mut anchors: Vec<AnchorEntry> = Vec::new();
    let ghost mut done: Seq<(Coords, NodeV)> = Seq::empty();
    let mut cur: usize = p0;
    let mut nx: u64 = 1;
    let mut k: u64 = 0;
    while k < cnt
        invariant
            k <= cnt,
            8 <= p0 <= cur <= bytes@.len(),
            nx as int - 1 <= cur as int - 8,
            anchors@.len() == done.len(),
            done.len() == k,
            forall|j: int|
                0 <= j < k ==> done[j] == (
                    anchors@[j].coords,
                    strip(node_v(anchors@[j].anchor.head)),
                ) && anchors@[j].coords == (#[trigger] done[j]).0,
            forall|j: int|
                0 <= j < k ==> spec_size(node_v(#[trigger] anchors@[j].anchor.head)) <= MAX_TREE,
            forall|j: int|
                0 <= j < k ==> crate::node::sel_count(node_v(#[trigger] anchors@[j].anchor.head))
                    == 0,
            forall|a: int| 0 <= a < k - 1 ==> coord_lt(#[trigger] done[a].0, done[a + 1].0),
            sp_screen(bytes@) == (match sp_entries(bytes@, cur as int, cnt - k) {
                Some((es2, p3)) => if p3 == bytes@.len() {
                    Some(done + es2)
                } else {
                    None::<Seq<(Coords, NodeV)>>
                },
                None => None::<Seq<(Coords, NodeV)>>,
            }),
        decreases cnt - k,
    {
        let (x, px) = match p_le_exec(bytes, cur, 2) {
            Some(t) => t,
            None => {
                return None;
            },
        };
        let (y, py) = match p_le_exec(bytes, px, 2) {
            Some(t) => t,
            None => {
                return None;
            },
        };
        proof {
            lemma_p_le_props(bytes@, cur as int, 2);
            lemma_p_le_props(bytes@, px as int, 2);
            lemma_pow256_large();
        }
        proof {
            broadcast use vstd::std_specs::vec::axiom_spec_len;

            assert(bytes@.len() == vstd::std_specs::vec::spec_vec_len(bytes));
            assert(nx as int + bytes@.len() - py as int <= u64::MAX as int);
        }
        let (head, pn, nx2) = match parse_node(bytes, py, nx) {
            Some(t) => t,
            None => {
                return None;
            },
        };
        let c: Coords = (x as u16, y as u16);
        if k > 0 {
            let prev = anchors[anchors.len() - 1].coords;
            if !(prev.0 < c.0 || (prev.0 == c.0 && prev.1 < c.1)) {
                proof {
                    let es_full = done + (match sp_entries(bytes@, cur as int, cnt - k) {
                        Some((es2, _)) => es2,
                        None => Seq::<(Coords, NodeV)>::empty(),
                    });
                    match sp_screen(bytes@) {
                        Some(esx) => {
                            assert(!coord_lt(esx[k - 1].0, esx[k as int].0));
                            assert(!entries_wf(esx));
                        },
                        None => {},
                    }
                }
                return None;
            }
        }
        let fits = match head.size_limited(MAX_TREE) {
            Some(_) => true,
            None => false,
        };
        if !fits {
            proof {
                lemma_strip_size(head@);
                match sp_screen(bytes@) {
                    Some(esx) => {
                        assert(esx[k as int].1 == strip(head@));
                        assert(spec_size(esx[k as int].1) > MAX_TREE);
                        assert(!entries_wf(esx));
                    },
                    None => {},
                }
            }
            return None;
        }
        anchors.push(AnchorEntry { coords: c, anchor: Anchor { head } });
        proof {
            done = done.push((c, strip(node_v(anchors@.last().anchor.head))));
            assert(done.drop_last() + (seq![done.last()] + (match sp_entries(
                bytes@,
                pn as int,
                cnt - k - 1,
            ) {
                Some((es2, _)) => es2,
                None => Seq::<(Coords, NodeV)>::empty(),
            })) =~= done + (match sp_entries(bytes@, pn as int, cnt - k - 1) {
                Some((es2, _)) => es2,
                None => Seq::<(Coords, NodeV)>::empty(),
            }));
        }
        cur = pn;
        nx = nx2;
        k = k + 1;
    }
    if cur != bytes.len() {
        proof {
            assert(sp_entries(bytes@, cur as int, 0) == Some(
                (Seq::<(Coords, NodeV)>::empty(), cur as int),
            ));
        }
        return None;
    }
    assert(done + Seq::<(Coords, NodeV)>::empty() =~= done);
    let s = Screen {
        anchors,
        selection: None,
        next_id: nx,
        work_path: None,
        secret_key_hint: None,
    };
    proof {
        lemma_entries_v(s.anchors@, s.anchors@.len() as int);
        lemma_strip_entries(s@.entries, s@.entries.len() as int);
        assert(strip_entries(s@.entries, s@.entries.len() as int) =~= done);
        assert forall|a: int, b2: int| 0 <= a < b2 < s@.entries.len() implies coord_lt(
            #[trigger] s@.entries[a].0,
            #[trigger] s@.entries[b2].0,
        ) by {
            lemma_adj_sorted(done, a, b2);
            assert(done[a].0 == s@.entries[a].0);
            assert(done[b2].0 == s@.entries[b2].0);
        }
        assert forall|a: int| 0 <= a < s@.entries.len() implies spec_size(
            #[trigger] s@.entries[a].1,
        ) <= MAX_TREE by {
            assert(s@.entries[a].1 == node_v(s.anchors@[a].anchor.head));
        }
        assert forall|a: int| 0 <= a < s@.entries.len() implies crate::node::sel_count(
            (#[trigger] s@.entries[a]).1,
        ) == 0 by {
            assert(s@.entries[a].1 == node_v(s.anchors@[a].anchor.head));
        }
        crate::screen::lemma_entries_sel_zero(s@.entries, 0);
    }
    Some(s)
}

/// Pointwise form of stripping a child sequence.
pub proof fn lemma_strip_seq_size_pub(cs: Seq<NodeV>, i: int)
    requires
        0 <= i <= cs.len(),
    ensures
        strip_seq(cs, i).len() == i,
        forall|j: int| 0 <= j < i ==> strip_seq(cs, i)[j] == strip(cs[j]),
    decreases i,
{
    if i > 0 {
        lemma_strip_seq_size_pub(cs, i - 1);
    }
}

} // verus!
