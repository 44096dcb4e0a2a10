//! Huffman coding: a prefix-code tree built from byte frequencies, its
//! preorder serialization, and the self-describing frame.
use vstd::prelude::*;

use crate::bits::{bits_of, packs, Bit, CompressedBuffer};
use crate::varsize::{decode_varsize_at, lemma_parse_consumes, lemma_varsize_round_trip, parse_varsize, push_varsize, varsize_of};
use crate::{extend_bytes, slice_between, CodecError};

verus! {

/// Byte written for an internal node in the serialized tree.
pub const INTERNAL_NODE_VALUE: u8 = 0;

/// Byte written twice for a leaf that carries byte 0.
pub const ENCODED_NULL_CHAR: u8 = 255;

/// A node of a code tree: a leaf carries one byte; an internal node has a
/// left (bit 0) and a right (bit 1) child.
#[derive(Debug)]
pub enum Node {
    Leaf(u8),
    Internal(Box<Node>, Box<Node>),
}

/// A byte and how often it occurs.
#[derive(Debug, Clone, Copy)]
pub struct FrequencyChar(pub u8, pub usize);

pub open spec fn bits_view(v: Seq<Bit>) -> Seq<bool> {
    v.map_values(|b: Bit| b.is_one())
}

/// Number of nodes.
pub open spec fn node_count(t: Node) -> nat
    decreases t,
{
    match t {
        Node::Leaf(_) => 1,
        Node::Internal(l, r) => 1 + node_count(*l) + node_count(*r),
    }
}

/// Preorder serialization: `0` for an internal node, the byte for a leaf,
/// and `255 255` for a leaf carrying byte 0.
pub open spec fn serialize(t: Node) -> Seq<u8>
    decreases t,
{
    match t {
        Node::Leaf(c) => if c == 0 {
            seq![ENCODED_NULL_CHAR, ENCODED_NULL_CHAR]
        } else {
            seq![c]
        },
        Node::Internal(l, r) => seq![INTERNAL_NODE_VALUE] + serialize(*l) + serialize(*r),
    }
}

/// Reads one tree in preorder from the front of `s`: the tree and the
/// number of bytes it takes.
pub open spec fn parse_tree(s: Seq<u8>) -> Option<(Node, nat)>
    decreases s.len(),
{
    if s.len() == 0 {
        None
    } else if s[0] == INTERNAL_NODE_VALUE {
        match parse_tree(s.drop_first()) {
            Some((l, k1)) => if 1 + k1 <= s.len() {
                match parse_tree(s.subrange((1 + k1) as int, s.len() as int)) {
                    Some((r, k2)) => Some((Node::Internal(Box::new(l), Box::new(r)), 1 + k1 + k2)),
                    None => None,
                }
            } else {
                None
            },
            None => None,
        }
    } else if s[0] == ENCODED_NULL_CHAR && s.len() >= 2 && s[1] == ENCODED_NULL_CHAR {
        Some((Node::Leaf(0), 2))
    } else {
        Some((Node::Leaf(s[0]), 1))
    }
}

/// The serialization of `t` can be read back when followed by `next`: a
/// leaf carrying 255 must not be followed by another byte 255, which would
/// read as the escaped null leaf.
pub open spec fn unambiguous(t: Node, next: Option<u8>) -> bool
    decreases t,
{
    match t {
        Node::Leaf(c) => c == 255 ==> next != Some(255u8),
        Node::Internal(l, r) => unambiguous(*l, Some(serialize(*r)[0])) && unambiguous(*r, next),
    }
}

/// Path (false = left, true = right) from `t` to the first leaf, in
/// preorder, that carries `c`.
pub open spec fn path_to(t: Node, c: u8) -> Option<Seq<bool>>
    decreases t,
{
    match t {
        Node::Leaf(d) => if d == c {
            Some(Seq::empty())
        } else {
            None
        },
        Node::Internal(l, r) => match path_to(*l, c) {
            Some(p) => Some(seq![false] + p),
            None => match path_to(*r, c) {
                Some(p) => Some(seq![true] + p),
                None => None,
            },
        },
    }
}

/// Follows `bits` down from `t` to a leaf: its byte and the number of bits
/// used; `None` when the bits run out first.
pub open spec fn take_symbol(t: Node, bits: Seq<bool>) -> Option<(u8, nat)>
    decreases t,
{
    match t {
        Node::Leaf(c) => Some((c, 0)),
        Node::Internal(l, r) => if bits.len() == 0 {
            None
        } else {
            let sub = if bits[0] {
                *r
            } else {
                *l
            };
            match take_symbol(sub, bits.drop_first()) {
                Some((c, k)) => Some((c, k + 1)),
                None => None,
            }
        },
    }
}

/// The leaves of `t` in preorder, each with its path appended to `prefix`.
pub open spec fn codes(t: Node, prefix: Seq<Bit>) -> Seq<(u8, Seq<Bit>)>
    decreases t,
{
    match t {
        Node::Leaf(c) => seq![(c, prefix)],
        Node::Internal(l, r) => codes(*l, prefix.push(Bit::ZERO)) + codes(*r, prefix.push(Bit::ONE)),
    }
}

pub proof fn lemma_serialize_nonempty(t: Node)
    ensures
        serialize(t).len() >= 1,
        serialize(t)[0] == INTERNAL_NODE_VALUE <==> t is Internal,
    decreases t,
{
}

/// Reading back a serialized tree, followed by anything that keeps it
/// unambiguous, gives the tree and its serialized length.
pub proof fn lemma_parse_serialize(t: Node, rest: Seq<u8>)
    requires
        unambiguous(t, if rest.len() > 0 { Some(rest[0]) } else { None }),
    ensures
        parse_tree(serialize(t) + rest) == Some((t, serialize(t).len())),
    decreases t,
{
    let s = serialize(t) + rest;
    match t {
        Node::Leaf(c) => {
            if c == 0 {
                assert(s[0] == 255 && s[1] == 255);
            } else {
                assert(s[0] == c);
                if c == 255 && s.len() >= 2 {
                    assert(s[1] == rest[0]);
                }
            }
        },
        Node::Internal(l, r) => {
            let sl = serialize(*l);
            let sr = serialize(*r);
            lemma_serialize_nonempty(*r);
            assert(s.drop_first() =~= sl + (sr + rest));
            assert((sr + rest)[0] == sr[0]);
            lemma_parse_serialize(*l, sr + rest);
            assert(s.subrange((1 + sl.len()) as int, s.len() as int) =~= sr + rest);
            lemma_parse_serialize(*r, rest);
            assert(Node::Internal(Box::new(*l), Box::new(*r)) == t);
        },
    }
}

/// Following the path to `c` leads to a leaf carrying `c`.
pub proof fn lemma_take_path(t: Node, c: u8, rest: Seq<bool>)
    requires
        path_to(t, c) is Some,
    ensures
        take_symbol(t, path_to(t, c).unwrap() + rest) == Some((c, path_to(t, c).unwrap().len())),
    decreases t,
{
    match t {
        Node::Leaf(d) => {
            assert(Seq::<bool>::empty() + rest =~= rest);
        },
        Node::Internal(l, r) => {
            let p = path_to(t, c).unwrap();
            match path_to(*l, c) {
                Some(q) => {
                    lemma_take_path(*l, c, rest);
                    assert((p + rest).drop_first() =~= q + rest);
                },
                None => {
                    let q = path_to(*r, c).unwrap();
                    lemma_take_path(*r, c, rest);
                    assert((p + rest).drop_first() =~= q + rest);
                },
            }
        },
    }
}

impl Node {
    /// A leaf carrying `c`.
    pub fn new(c: u8) -> (r: Node)
        ensures
            r == Node::Leaf(c),
    {
        Node::Leaf(c)
    }

    /// Number of nodes of the tree.
    pub fn count(&self) -> (r: usize)
        requires
            node_count(*self) <= usize::MAX,
        ensures
            r as nat == node_count(*self),
        decreases *self,
    {
        match self {
            Node::Leaf(_) => 1,
            Node::Internal(l, r) => 1 + l.count() + r.count(),
        }
    }

    /// The leaves in preorder, each with its codeword appended to `encoding`.
    pub fn get_encoding(&self, encoding: Vec<Bit>) -> (r: Vec<(u8, Vec<Bit>)>)
        ensures
            r@.map_values(|e: (u8, Vec<Bit>)| (e.0, e.1@)) == codes(*self, encoding@),
        decreases *self,
    {
        match self {
            Node::Leaf(c) => {
                let mut v: Vec<(u8, Vec<Bit>)> = Vec::new();
                v.push((*c, encoding));
                assert(v@.map_values(|e: (u8, Vec<Bit>)| (e.0, e.1@)) =~= codes(*self, encoding@));
                v
            },
            Node::Internal(l, r) => {
                let mut left_bits = copy_bits(&encoding);
                left_bits.push(Bit::ZERO);
                let mut right_bits = encoding;
                right_bits.push(Bit::ONE);
                let mut a = l.get_encoding(left_bits);
                let mut b = r.get_encoding(right_bits);
                let ghost a0 = a@;
                let ghost b0 = b@;
                a.append(&mut b);
                assert(a@ == a0 + b0);
                assert(a@.map_values(|e: (u8, Vec<Bit>)| (e.0, e.1@)) =~= a0.map_values(
                    |e: (u8, Vec<Bit>)| (e.0, e.1@),
                ) + b0.map_values(|e: (u8, Vec<Bit>)| (e.0, e.1@)));
                a
            },
        }
    }

    /// Appends the preorder serialization of the tree to `values`.
    pub fn convert_to_vec(&self, values: &mut Vec<u8>)
        ensures
            final(values)@ == old(values)@ + serialize(*self),
        decreases *self,
    {
        match self {
            Node::Leaf(c) => {
                if *c == 0 {
                    values.push(ENCODED_NULL_CHAR);
                    values.push(ENCODED_NULL_CHAR);
                } else {
                    values.push(*c);
                }
                assert(values@ =~= old(values)@ + serialize(*self));
            },
            Node::Internal(l, r) => {
                values.push(INTERNAL_NODE_VALUE);
                l.convert_to_vec(values);
                r.convert_to_vec(values);
                assert(values@ =~= old(values)@ + serialize(*self));
            },
        }
    }

    /// The path to the first leaf, in preorder, that carries `c`.
    pub fn find_path(&self, c: u8) -> (r: Option<Vec<Bit>>)
        ensures
            match r {
                Some(p) => path_to(*self, c) == Some(bits_view(p@)),
                None => path_to(*self, c) is None,
            },
        decreases *self,
    {
        match self {
            Node::Leaf(d) => {
                if *d == c {
                    let v: Vec<Bit> = Vec::new();
                    assert(bits_view(v@) =~= Seq::<bool>::empty());
                    Some(v)
                } else {
                    None
                }
            },
            Node::Internal(l, r) => {
                match l.find_path(c) {
                    Some(p) => Some(prepend_bit(Bit::ZERO, &p)),
                    None => match r.find_path(c) {
                        Some(p) => Some(prepend_bit(Bit::ONE, &p)),
                        None => None,
                    },
                }
            },
        }
    }
}

fn copy_bits(v: &Vec<Bit>) -> (r: Vec<Bit>)
    ensures
        r@ == v@,
{
    let mut out: Vec<Bit> = Vec::new();
    let mut i: usize = 0;
    while i < v.len()
        invariant
            i <= v@.len(),
            out@ == v@.subrange(0, i as int),
        decreases v@.len() - i,
    {
        out.push(v[i]);
        i += 1;
        assert(out@ =~= v@.subrange(0, i as int));
    }
    assert(v@.subrange(0, i as int) =~= v@);
    out
}

fn prepend_bit(b: Bit, v: &Vec<Bit>) -> (r: Vec<Bit>)
    ensures
        r@ == seq![b] + v@,
        bits_view(r@) == seq![b.is_one()] + bits_view(v@),
{
    let mut out: Vec<Bit> = Vec::new();
    out.push(b);
    let mut i: usize = 0;
    while i < v.len()
        invariant
            i <= v@.len(),
            out@ == seq![b] + v@.subrange(0, i as int),
        decreases v@.len() - i,
    {
        out.push(v[i]);
        i += 1;
        assert(out@ =~= seq![b] + v@.subrange(0, i as int));
    }
    assert(v@.subrange(0, i as int) =~= v@);
    assert(bits_view(out@) =~= seq![b.is_one()] + bits_view(v@));
    out
}

/// Reads one tree in preorder starting at `index`: the tree and the number
/// of bytes it takes.
pub fn node_from_vec(values: &[u8], index: usize) -> (r: Result<(Node, usize), CodecError>)
    requires
        index <= values@.len(),
    ensures
        match r {
            Ok((t, k)) => parse_tree(values@.subrange(index as int, values@.len() as int)) == Some(
                (t, k as nat),
            ),
            Err(e) => e == CodecError::MalformedTree && parse_tree(
                values@.subrange(index as int, values@.len() as int),
            ) is None,
        },
    decreases values@.len() - index,
{
    let ghost s = values@.subrange(index as int, values@.len() as int);
    if index >= values.len() {
        return Err(CodecError::MalformedTree);
    }
    let c = values[index];
    if c == INTERNAL_NODE_VALUE {
        assert(s.drop_first() =~= values@.subrange(index + 1, values@.len() as int));
        let (left, k1) = match node_from_vec(values, index + 1) {
            Ok(p) => p,
            Err(e) => {
                return Err(e);
            },
        };
        proof {
            lemma_parse_len(s.drop_first());
        }
        assert(s.subrange(1 + k1, s.len() as int) =~= values@.subrange(
            index + 1 + k1,
            values@.len() as int,
        ));
        let (right, k2) = match node_from_vec(values, index + 1 + k1) {
            Ok(p) => p,
            Err(e) => {
                return Err(e);
            },
        };
        proof {
            lemma_parse_len(s.subrange(1 + k1, s.len() as int));
        }
        Ok((Node::Internal(Box::new(left), Box::new(right)), 1 + k1 + k2))
    } else if c == ENCODED_NULL_CHAR && index + 1 < values.len() && values[index + 1]
        == ENCODED_NULL_CHAR {
        Ok((Node::Leaf(0), 2))
    } else {
        Ok((Node::Leaf(c), 1))
    }
}

proof fn lemma_parse_len(s: Seq<u8>)
    ensures
        parse_tree(s) matches Some((t, k)) ==> 1 <= k <= s.len(),
    decreases s.len(),
{
    if s.len() > 0 && s[0] == INTERNAL_NODE_VALUE {
        lemma_parse_len(s.drop_first());
        match parse_tree(s.drop_first()) {
            Some((l, k1)) => {
                if 1 + k1 <= s.len() {
                    lemma_parse_len(s.subrange((1 + k1) as int, s.len() as int));
                }
            },
            None => {},
        }
    }
}

/// A queue entry during construction: a subtree and its total frequency.
#[derive(Debug)]
pub struct HeapNode {
    pub frequency: usize,
    pub node: Node,
}

/// `a` leaves the queue before `b`: lower frequency first, and on equal
/// frequencies an internal node before a leaf.
pub open spec fn heap_less(a: HeapNode, b: HeapNode) -> bool {
    a.frequency < b.frequency || (a.frequency == b.frequency && a.node is Internal
        && b.node is Leaf)
}

/// Index of the first entry among `items[0..n]` that no other entry
/// precedes.
pub open spec fn min_index_upto(items: Seq<HeapNode>, n: int) -> int
    decreases n,
{
    if n <= 1 {
        0
    } else {
        let m = min_index_upto(items, n - 1);
        if heap_less(items[n - 1], items[m]) {
            n - 1
        } else {
            m
        }
    }
}

pub open spec fn min_index(items: Seq<HeapNode>) -> int {
    min_index_upto(items, items.len() as int)
}

pub open spec fn saturating_sum(a: usize, b: usize) -> usize {
    if a + b > usize::MAX {
        usize::MAX
    } else {
        (a + b) as usize
    }
}

/// One round: take the two first entries out and put back their join, the
/// first one on the left.
pub open spec fn build_step(items: Seq<HeapNode>) -> Seq<HeapNode> {
    let i1 = min_index(items);
    let a = items[i1];
    let rest = items.remove(i1);
    let i2 = min_index(rest);
    let b = rest[i2];
    rest.remove(i2).push(
        HeapNode {
            frequency: saturating_sum(a.frequency, b.frequency),
            node: Node::Internal(Box::new(a.node), Box::new(b.node)),
        },
    )
}

pub open spec fn build_rounds(items: Seq<HeapNode>, n: nat) -> Seq<HeapNode>
    decreases n,
{
    if n == 0 {
        items
    } else {
        build_rounds(build_step(items), (n - 1) as nat)
    }
}

/// The queue entries that a list of frequencies starts with.
pub open spec fn leaf_items(fs: Seq<FrequencyChar>) -> Seq<HeapNode> {
    fs.map_values(|f: FrequencyChar| HeapNode { frequency: f.1, node: Node::Leaf(f.0) })
}

/// The Huffman tree of a nonempty list of frequencies.
pub open spec fn huffman_tree_of(fs: Seq<FrequencyChar>) -> Node {
    build_rounds(leaf_items(fs), (fs.len() - 1) as nat)[0].node
}

/// Occurrences of `c` in `x`.
pub open spec fn occurrences(x: Seq<u8>, c: u8) -> nat
    decreases x.len(),
{
    if x.len() == 0 {
        0
    } else {
        occurrences(x.drop_last(), c) + if x.last() == c {
            1nat
        } else {
            0nat
        }
    }
}

/// The bytes from `c` up that occur in `x`, ascending, with their counts.
pub open spec fn byte_freqs_from(x: Seq<u8>, c: nat) -> Seq<FrequencyChar>
    decreases 256 - c,
{
    if c >= 256 {
        Seq::empty()
    } else if occurrences(x, c as u8) > 0 {
        seq![FrequencyChar(c as u8, occurrences(x, c as u8) as usize)] + byte_freqs_from(
            x,
            c + 1,
        )
    } else {
        byte_freqs_from(x, c + 1)
    }
}

/// The bytes that occur in `x`, ascending, with their counts.
pub open spec fn byte_freqs(x: Seq<u8>) -> Seq<FrequencyChar> {
    byte_freqs_from(x, 0)
}

proof fn lemma_min_index_bound(items: Seq<HeapNode>, n: int)
    requires
        1 <= n,
    ensures
        0 <= min_index_upto(items, n) < n,
    decreases n,
{
    if n > 1 {
        lemma_min_index_bound(items, n - 1);
    }
}

pub proof fn lemma_occurrences_pos(x: Seq<u8>, i: int)
    requires
        0 <= i < x.len(),
    ensures
        occurrences(x, x[i]) > 0,
    decreases x.len(),
{
    if i < x.len() - 1 {
        lemma_occurrences_pos(x.drop_last(), i);
    }
}

proof fn lemma_byte_freqs_nonempty(x: Seq<u8>, c: nat, d: u8)
    requires
        c <= d,
        occurrences(x, d) > 0,
    ensures
        byte_freqs_from(x, c).len() > 0,
    decreases 256 - c,
{
    if c < d {
        lemma_byte_freqs_nonempty(x, c + 1, d);
    }
}

fn heap_node_less(a: &HeapNode, b: &HeapNode) -> (r: bool)
    ensures
        r == heap_less(*a, *b),
{
    if a.frequency < b.frequency {
        true
    } else if a.frequency == b.frequency {
        match (&a.node, &b.node) {
            (Node::Internal(_, _), Node::Leaf(_)) => true,
            _ => false,
        }
    } else {
        false
    }
}

fn find_min(items: &Vec<HeapNode>) -> (r: usize)
    requires
        items@.len() >= 1,
    ensures
        r as int == min_index(items@),
        r < items@.len(),
{
    let mut m: usize = 0;
    let mut i: usize = 1;
    while i < items.len()
        invariant
            1 <= i <= items@.len(),
            m as int == min_index_upto(items@, i as int),
            m < i,
        decreases items@.len() - i,
    {
        if heap_node_less(&items[i], &items[m]) {
            m = i;
        }
        i += 1;
    }
    m
}

impl HeapNode {
    /// A queue entry for a leaf carrying `c`.
    pub fn new(c: u8, frequency: usize) -> (r: HeapNode)
        ensures
            r == (HeapNode { frequency, node: Node::Leaf(c) }),
    {
        HeapNode { frequency, node: Node::Leaf(c) }
    }

    /// The subtree of the entry.
    pub fn convert_to_node(self) -> (r: Node)
        ensures
            r == self.node,
    {
        self.node
    }
}

/// A Huffman code: the tree and, for each byte, its codeword.
pub struct HuffmanTree {
    root: Node,
    encoding: Vec<Option<Vec<Bit>>>,
}

impl HuffmanTree {
    /// The code tree.
    pub closed spec fn view(&self) -> Node {
        self.root
    }

    pub closed spec fn wf(&self) -> bool {
        &&& self.encoding@.len() == 256
        &&& forall|c: int|
            0 <= c < 256 ==> match #[trigger] self.encoding@[c] {
                Some(p) => path_to(self.root, c as u8) == Some(bits_view(p@)),
                None => path_to(self.root, c as u8) is None,
            }
    }

    fn from_root(root: Node) -> (r: HuffmanTree)
        ensures
            r.wf(),
            r@ == root,
    {
        let mut encoding: Vec<Option<Vec<Bit>>> = Vec::new();
        let mut c: usize = 0;
        while c < 256
            invariant
                c <= 256,
                encoding@.len() == c,
                forall|d: int|
                    0 <= d < c ==> match #[trigger] encoding@[d] {
                        Some(p) => path_to(root, d as u8) == Some(bits_view(p@)),
                        None => path_to(root, d as u8) is None,
                    },
            decreases 256 - c,
        {
            encoding.push(root.find_path(c as u8));
            c += 1;
        }
        HuffmanTree { root, encoding }
    }

    /// Builds the Huffman tree of a nonempty list of frequencies: the two
    /// entries that leave the queue first are joined, the first on the left,
    /// until one remains.
    pub fn new(frequencies: &Vec<FrequencyChar>) -> (r: HuffmanTree)
        requires
            frequencies@.len() >= 1,
        ensures
            r.wf(),
            r@ == huffman_tree_of(frequencies@),
    {
        let mut items: Vec<HeapNode> = Vec::new();
        let mut i: usize = 0;
        while i < frequencies.len()
            invariant
                i <= frequencies@.len(),
                items@ == leaf_items(frequencies@.subrange(0, i as int)),
            decreases frequencies@.len() - i,
        {
            let f = frequencies[i];
            items.push(HeapNode::new(f.0, f.1));
            i += 1;
            assert(items@ =~= leaf_items(frequencies@.subrange(0, i as int)));
        }
        assert(frequencies@.subrange(0, i as int) =~= frequencies@);
        let ghost start = items@;
        let ghost n = (frequencies@.len() - 1) as nat;
        let total = frequencies.len();
        let mut rounds: usize = 0;
        while items.len() > 1
            invariant
                start.len() == total,
                items@.len() >= 1,
                items@.len() + rounds == start.len(),
                build_rounds(start, n) == build_rounds(items@, (n - rounds) as nat),
                start.len() == n + 1,
            decreases items@.len(),
        {
            let ghost before = items@;
            proof {
                lemma_min_index_bound(items@, items@.len() as int);
            }
            let i1 = find_min(&items);
            let a = items.remove(i1);
            proof {
                lemma_min_index_bound(items@, items@.len() as int);
            }
            let i2 = find_min(&items);
            let b = items.remove(i2);
            let frequency = if a.frequency > usize::MAX - b.frequency {
                usize::MAX
            } else {
                a.frequency + b.frequency
            };
            items.push(HeapNode { frequency, node: Node::Internal(Box::new(a.node), Box::new(b.node)) });
            proof {
                assert(items@ =~= build_step(before));
                assert(build_rounds(before, (n - rounds) as nat) == build_rounds(
                    build_step(before),
                    (n - rounds - 1) as nat,
                ));
            }
            rounds += 1;
        }
        let root = items.remove(0).node;
        HuffmanTree::from_root(root)
    }

    /// Builds the Huffman tree of the bytes of a nonempty input, leaves
    /// queued in ascending byte order.
    pub fn load_tree_from_bytes(bytes: &[u8]) -> (r: HuffmanTree)
        requires
            bytes@.len() >= 1,
        ensures
            r.wf(),
            r@ == huffman_tree_of(byte_freqs(bytes@)),
    {
        let frequencies = count_bytes(bytes);
        proof {
            lemma_occurrences_pos(bytes@, 0);
            lemma_byte_freqs_nonempty(bytes@, 0, bytes@[0]);
        }
        HuffmanTree::new(&frequencies)
    }
}

/// The bytes that occur in `bytes`, ascending, with their counts.
pub fn count_bytes(bytes: &[u8]) -> (r: Vec<FrequencyChar>)
    ensures
        r@ == byte_freqs(bytes@),
{
    let mut counts: Vec<usize> = Vec::new();
    let mut c: usize = 0;
    while c < 256
        invariant
            c <= 256,
            counts@.len() == c,
            forall|d: int| 0 <= d < c ==> counts@[d] == 0,
        decreases 256 - c,
    {
        counts.push(0);
        c += 1;
    }
    let mut i: usize = 0;
    while i < bytes.len()
        invariant
            i <= bytes@.len(),
            counts@.len() == 256,
            forall|d: int|
                0 <= d < 256 ==> #[trigger] counts@[d] as nat == occurrences(
                    bytes@.subrange(0, i as int),
                    d as u8,
                ),
        decreases bytes@.len() - i,
    {
        let b = bytes[i] as usize;
        proof {
            assert(bytes@.subrange(0, i + 1).drop_last() =~= bytes@.subrange(0, i as int));
            assert(occurrences(bytes@.subrange(0, i as int), b as u8) <= i) by {
                lemma_occurrences_le(bytes@.subrange(0, i as int), b as u8);
            }
        }
        counts.set(b, counts[b] + 1);
        i += 1;
        proof {
            assert forall|d: int| 0 <= d < 256 implies #[trigger] counts@[d] as nat == occurrences(
                bytes@.subrange(0, i as int),
                d as u8,
            ) by {
                assert(bytes@.subrange(0, i as int).last() == bytes@[i - 1]);
            }
        }
    }
    assert(bytes@.subrange(0, i as int) =~= bytes@);
    let mut out: Vec<FrequencyChar> = Vec::new();
    let mut c: usize = 256;
    // filled from the top so that each step prepends one entry
    while c > 0
        invariant
            c <= 256,
            counts@.len() == 256,
            forall|d: int|
                0 <= d < 256 ==> #[trigger] counts@[d] as nat == occurrences(bytes@, d as u8),
            out@ == byte_freqs_from(bytes@, c as nat),
        decreases c,
    {
        c -= 1;
        if counts[c] > 0 {
            let mut next: Vec<FrequencyChar> = Vec::new();
            next.push(FrequencyChar(c as u8, counts[c]));
            next.append(&mut out);
            out = next;
        }
        assert(out@ =~= byte_freqs_from(bytes@, c as nat));
    }
    out
}

proof fn lemma_occurrences_le(x: Seq<u8>, c: u8)
    ensures
        occurrences(x, c) <= x.len(),
    decreases x.len(),
{
    if x.len() > 0 {
        lemma_occurrences_le(x.drop_last(), c);
    }
}

/// Number of internal nodes.
pub open spec fn internal_count(t: Node) -> nat
    decreases t,
{
    match t {
        Node::Leaf(_) => 0,
        Node::Internal(l, r) => 1 + internal_count(*l) + internal_count(*r),
    }
}

pub open spec fn items_internal(items: Seq<HeapNode>) -> nat
    decreases items.len(),
{
    if items.len() == 0 {
        0
    } else {
        items_internal(items.drop_last()) + internal_count(items.last().node)
    }
}

/// Some entry of `items` has a leaf carrying `c`.
pub open spec fn items_have(items: Seq<HeapNode>, c: u8) -> bool {
    exists|j: int| 0 <= j < items.len() && (#[trigger] path_to(items[j].node, c)) is Some
}

proof fn lemma_items_internal_remove(items: Seq<HeapNode>, i: int)
    requires
        0 <= i < items.len(),
    ensures
        items_internal(items.remove(i)) + internal_count(items[i].node) == items_internal(items),
    decreases items.len(),
{
    if i < items.len() - 1 {
        let d = items.drop_last();
        lemma_items_internal_remove(d, i);
        assert(items.remove(i).drop_last() =~= d.remove(i));
        assert(items.remove(i).last() == items.last());
    } else {
        assert(items.remove(i) =~= items.drop_last());
    }
}

proof fn lemma_leaf_items_internal(fs: Seq<FrequencyChar>)
    ensures
        items_internal(leaf_items(fs)) == 0,
    decreases fs.len(),
{
    if fs.len() > 0 {
        assert(leaf_items(fs).drop_last() =~= leaf_items(fs.drop_last()));
        lemma_leaf_items_internal(fs.drop_last());
    }
}

proof fn lemma_step_keeps(items: Seq<HeapNode>, c: u8)
    requires
        items.len() >= 2,
        items_have(items, c),
    ensures
        items_have(build_step(items), c),
        items_internal(build_step(items)) == items_internal(items) + 1,
        build_step(items).len() == items.len() - 1,
{
    let i1 = min_index(items);
    lemma_min_index_bound(items, items.len() as int);
    let a = items[i1];
    let rest = items.remove(i1);
    let i2 = min_index(rest);
    lemma_min_index_bound(rest, rest.len() as int);
    let b = rest[i2];
    let rest2 = rest.remove(i2);
    let m = HeapNode {
        frequency: saturating_sum(a.frequency, b.frequency),
        node: Node::Internal(Box::new(a.node), Box::new(b.node)),
    };
    let out = rest2.push(m);
    assert(out == build_step(items));
    lemma_items_internal_remove(items, i1);
    lemma_items_internal_remove(rest, i2);
    assert(out.drop_last() =~= rest2);
    let j = choose|j: int| 0 <= j < items.len() && (#[trigger] path_to(items[j].node, c)) is Some;
    if j == i1 {
        assert(path_to(m.node, c) is Some);
        assert(path_to(out[out.len() - 1].node, c) is Some);
    } else {
        let j1 = if j < i1 {
            j
        } else {
            j - 1
        };
        assert(rest[j1] == items[j]);
        if j1 == i2 {
            assert(path_to(m.node, c) is Some);
            assert(path_to(out[out.len() - 1].node, c) is Some);
        } else {
            let j2 = if j1 < i2 {
                j1
            } else {
                j1 - 1
            };
            assert(rest2[j2] == rest[j1]);
            assert(out[j2] == rest2[j2]);
            assert(path_to(out[j2].node, c) is Some);
        }
    }
}

proof fn lemma_rounds_keep(items: Seq<HeapNode>, n: nat, c: u8)
    requires
        items.len() == n + 1,
        items_have(items, c),
    ensures
        items_have(build_rounds(items, n), c),
        items_internal(build_rounds(items, n)) == items_internal(items) + n,
        build_rounds(items, n).len() == 1,
    decreases n,
{
    if n > 0 {
        lemma_step_keeps(items, c);
        lemma_rounds_keep(build_step(items), (n - 1) as nat, c);
    }
}

proof fn lemma_rounds_len(items: Seq<HeapNode>, n: nat)
    requires
        items.len() == n + 1,
    ensures
        items_internal(build_rounds(items, n)) == items_internal(items) + n,
        build_rounds(items, n).len() == 1,
    decreases n,
{
    if n > 0 {
        let i1 = min_index(items);
        lemma_min_index_bound(items, items.len() as int);
        assert(path_to(items[i1].node, c_of(items[i1].node)) is Some) by {
            lemma_some_leaf(items[i1].node);
        }
        lemma_step_keeps(items, c_of(items[i1].node));
        lemma_rounds_len(build_step(items), (n - 1) as nat);
    }
}

/// The byte of the leftmost leaf.
pub open spec fn c_of(t: Node) -> u8
    decreases t,
{
    match t {
        Node::Leaf(c) => c,
        Node::Internal(l, _) => c_of(*l),
    }
}

proof fn lemma_some_leaf(t: Node)
    ensures
        path_to(t, c_of(t)) is Some,
    decreases t,
{
    match t {
        Node::Leaf(_) => {},
        Node::Internal(l, _) => {
            lemma_some_leaf(*l);
        },
    }
}

/// The tree built from `fs` has a leaf for each byte listed, and one
/// internal node fewer than there are entries.
pub proof fn lemma_huffman_tree_shape(fs: Seq<FrequencyChar>)
    requires
        fs.len() >= 1,
    ensures
        internal_count(huffman_tree_of(fs)) == fs.len() - 1,
        forall|j: int| 0 <= j < fs.len() ==> path_to(huffman_tree_of(fs), #[trigger] fs[j].0) is Some,
{
    let items = leaf_items(fs);
    let n = (fs.len() - 1) as nat;
    lemma_rounds_len(items, n);
    lemma_leaf_items_internal(fs);
    let last = build_rounds(items, n);
    assert(last.drop_last() =~= Seq::<HeapNode>::empty());
    assert(items_internal(Seq::<HeapNode>::empty()) == 0);
    assert(items_internal(last) == items_internal(last.drop_last()) + internal_count(last[0].node));
    assert forall|j: int| 0 <= j < fs.len() implies path_to(huffman_tree_of(fs), #[trigger] fs[j].0)
        is Some by {
        let c = fs[j].0;
        assert(path_to(items[j].node, c) is Some);
        lemma_rounds_keep(items, n, c);
        let k = choose|k: int| 0 <= k < last.len() && (#[trigger] path_to(last[k].node, c)) is Some;
        assert(k == 0);
    }
}

/// A path is no longer than the number of internal nodes.
pub proof fn lemma_path_len(t: Node, c: u8)
    requires
        path_to(t, c) is Some,
    ensures
        path_to(t, c).unwrap().len() <= internal_count(t),
        t is Internal ==> path_to(t, c).unwrap().len() >= 1,
    decreases t,
{
    match t {
        Node::Leaf(_) => {},
        Node::Internal(l, r) => {
            if path_to(*l, c) is Some {
                lemma_path_len(*l, c);
            } else {
                lemma_path_len(*r, c);
            }
        },
    }
}

/// The byte whose codeword is exactly `bits`, given as 0s and 1s.
pub open spec fn symbol_of_code(t: Node, bits: Seq<u8>) -> Option<u8> {
    if forall|i: int| 0 <= i < bits.len() ==> bits[i] <= 1 {
        match take_symbol(t, bits.map_values(|b: u8| b == 1)) {
            Some((c, k)) => if k == bits.len() {
                Some(c)
            } else {
                None
            },
            None => None,
        }
    } else {
        None
    }
}

/// `bytes` is exactly one serialized tree.
pub open spec fn parses_whole(bytes: Seq<u8>) -> bool {
    match parse_tree(bytes) {
        Some((_, k)) => k == bytes.len(),
        None => false,
    }
}

/// The codewords of the bytes of `x`, concatenated.
pub open spec fn code_bits(t: Node, x: Seq<u8>) -> Seq<bool>
    decreases x.len(),
{
    if x.len() == 0 {
        Seq::empty()
    } else {
        code_bits(t, x.drop_last()) + path_to(t, x.last()).unwrap()
    }
}

/// Bytes read by walking `t` over `bits`, restarting at the root after each
/// leaf; `None` when the bits stop inside a codeword.
pub open spec fn decode_from(t: Node, bits: Seq<bool>) -> Option<Seq<u8>>
    decreases bits.len(),
{
    if bits.len() == 0 {
        Some(Seq::empty())
    } else {
        match take_symbol(t, bits) {
            Some((c, k)) => if 0 < k <= bits.len() {
                match decode_from(t, bits.subrange(k as int, bits.len() as int)) {
                    Some(rest) => Some(seq![c] + rest),
                    None => None,
                }
            } else {
                None
            },
            None => None,
        }
    }
}

/// What `n` coded symbols packed in `packed` decode to under `t`. A
/// one-leaf tree has empty codewords: it yields its byte `n` times.
pub open spec fn tree_decode(t: Node, packed: Seq<u8>, n: nat) -> Option<Seq<u8>> {
    match t {
        Node::Leaf(c) => Some(Seq::new(n, |i: int| c)),
        Node::Internal(_, _) => if n <= 8 * packed.len() {
            decode_from(t, bits_of(packed, n))
        } else {
            None
        },
    }
}

/// The count field of the frame: the number of bits, or for a one-leaf
/// tree the number of symbols.
pub open spec fn symbol_field(t: Node, x: Seq<u8>) -> nat {
    if t is Leaf {
        x.len()
    } else {
        code_bits(t, x).len()
    }
}

pub open spec fn frame_head(t: Node, n: nat) -> Seq<u8> {
    varsize_of(serialize(t).len()) + serialize(t) + varsize_of(n)
}

/// `f` is the Huffman frame of `x`: the serialized tree and the count field,
/// each after its varsize length, then the codewords packed MSB-first. An
/// empty input gives two zero lengths.
pub open spec fn huff_frame_ok(x: Seq<u8>, f: Seq<u8>) -> bool {
    if x.len() == 0 {
        f == seq![0u8, 0u8]
    } else {
        let t = huffman_tree_of(byte_freqs(x));
        let h = frame_head(t, symbol_field(t, x));
        &&& f.len() >= h.len()
        &&& f.subrange(0, h.len() as int) == h
        &&& packs(f.subrange(h.len() as int, f.len() as int), code_bits(t, x))
    }
}

/// What decoding the Huffman frame `s` gives; `None` for a malformed frame.
pub open spec fn huff_decode_spec(s: Seq<u8>) -> Option<Seq<u8>> {
    match parse_varsize(s) {
        None => None,
        Some((tl, k)) => if k + tl > s.len() {
            None
        } else {
            let after = s.subrange((k + tl) as int, s.len() as int);
            match parse_varsize(after) {
                None => None,
                Some((n, k2)) => {
                    let packed = after.subrange(k2 as int, after.len() as int);
                    if tl == 0 {
                        if n == 0 {
                            Some(Seq::empty())
                        } else {
                            None
                        }
                    } else {
                        match parse_tree(s.subrange(k as int, (k + tl) as int)) {
                            Some((t, used)) => if used == tl {
                                tree_decode(t, packed, n)
                            } else {
                                None
                            },
                            None => None,
                        }
                    }
                },
            }
        },
    }
}

proof fn lemma_code_bits_prefix(t: Node, x: Seq<u8>, i: int)
    requires
        0 <= i <= x.len(),
    ensures
        code_bits(t, x.subrange(0, i)).len() <= code_bits(t, x).len(),
    decreases x.len() - i,
{
    if i < x.len() {
        lemma_code_bits_prefix(t, x, i + 1);
        assert(x.subrange(0, i + 1).drop_last() =~= x.subrange(0, i));
    } else {
        assert(x.subrange(0, i) =~= x);
    }
}

proof fn lemma_code_bits_bound(t: Node, x: Seq<u8>)
    requires
        forall|i: int| 0 <= i < x.len() ==> path_to(t, #[trigger] x[i]) is Some,
    ensures
        code_bits(t, x).len() <= internal_count(t) * x.len(),
    decreases x.len(),
{
    if x.len() > 0 {
        lemma_code_bits_bound(t, x.drop_last());
        lemma_path_len(t, x.last());
        assert(internal_count(t) * (x.len() - 1) + internal_count(t) == internal_count(t) * x.len())
            by (nonlinear_arith);
    }
}

pub proof fn lemma_byte_freqs_has(x: Seq<u8>, c: nat, d: u8)
    requires
        c <= d,
        occurrences(x, d) > 0,
    ensures
        exists|j: int| 0 <= j < byte_freqs_from(x, c).len() && #[trigger] byte_freqs_from(x, c)[j].0 == d,
    decreases 256 - c,
{
    let f = byte_freqs_from(x, c);
    if c == d {
        assert(f[0].0 == d);
    } else {
        lemma_byte_freqs_has(x, c + 1, d);
        let g = byte_freqs_from(x, c + 1);
        let j = choose|j: int| 0 <= j < g.len() && #[trigger] g[j].0 == d;
        if occurrences(x, c as u8) > 0 {
            assert(f[j + 1] == g[j]);
        } else {
            assert(f[j] == g[j]);
        }
    }
}

proof fn lemma_byte_freqs_len(x: Seq<u8>, c: nat)
    requires
        c <= 256,
    ensures
        byte_freqs_from(x, c).len() <= 256 - c,
    decreases 256 - c,
{
    if c < 256 {
        lemma_byte_freqs_len(x, c + 1);
    }
}

/// Every byte of a nonempty `x` has a codeword in its Huffman tree, and that
/// tree has at most 255 internal nodes.
pub proof fn lemma_input_coded(x: Seq<u8>)
    requires
        x.len() >= 1,
    ensures
        forall|i: int| 0 <= i < x.len() ==> path_to(huffman_tree_of(byte_freqs(x)), #[trigger] x[i]) is Some,
        internal_count(huffman_tree_of(byte_freqs(x))) <= 255,
{
    let fs = byte_freqs(x);
    lemma_occurrences_pos(x, 0);
    lemma_byte_freqs_nonempty(x, 0, x[0]);
    lemma_huffman_tree_shape(fs);
    lemma_byte_freqs_len(x, 0);
    assert forall|i: int| 0 <= i < x.len() implies path_to(huffman_tree_of(fs), #[trigger] x[i]) is Some by {
        lemma_occurrences_pos(x, i);
        lemma_byte_freqs_has(x, 0, x[i]);
        let j = choose|j: int| 0 <= j < fs.len() && #[trigger] fs[j].0 == x[i];
        assert(path_to(huffman_tree_of(fs), fs[j].0) is Some);
    }
}

impl HuffmanTree {
    /// Number of nodes of the tree.
    pub fn len(&self) -> (r: usize)
        requires
            node_count(self@) <= usize::MAX,
        ensures
            r as nat == node_count(self@),
    {
        self.root.count()
    }

    /// The preorder serialization of the tree.
    pub fn as_bytes(&self) -> (r: Vec<u8>)
        ensures
            r@ == serialize(self@),
    {
        let mut values: Vec<u8> = Vec::new();
        self.root.convert_to_vec(&mut values);
        assert(values@ =~= serialize(self@));
        values
    }

    /// The preorder serialization of the tree.
    pub fn convert_to_vec(&self) -> (r: Vec<u8>)
        ensures
            r@ == serialize(self@),
    {
        self.as_bytes()
    }

    /// Each leaf's byte with its codeword, leaves in preorder.
    pub fn get_encoding(&self) -> (r: Vec<(u8, Vec<Bit>)>)
        ensures
            r@.map_values(|e: (u8, Vec<Bit>)| (e.0, e.1@)) == codes(self@, Seq::empty()),
    {
        let v: Vec<Bit> = Vec::new();
        self.root.get_encoding(v)
    }

    /// The codeword of `c`, if the tree has a leaf for it.
    pub fn code_of(&self, c: u8) -> (r: Option<Vec<Bit>>)
        requires
            self.wf(),
        ensures
            match r {
                Some(p) => path_to(self@, c) == Some(bits_view(p@)),
                None => path_to(self@, c) is None,
            },
    {
        match &self.encoding[c as usize] {
            Some(p) => Some(copy_bits(p)),
            None => None,
        }
    }

    /// The byte whose codeword is exactly `bits` (each 0 or 1), if any.
    pub fn symbol_at(&self, bits: &Vec<u8>) -> (r: Option<u8>)
        ensures
            r == symbol_of_code(self@, bits@),
    {
        let ghost bs = bits@.map_values(|b: u8| b == 1);
        let mut node: &Node = &self.root;
        let mut i: usize = 0;
        assert(bs.subrange(0, bs.len() as int) =~= bs);
        while i < bits.len()
            invariant
                i <= bits@.len(),
                bs == bits@.map_values(|b: u8| b == 1),
                forall|t: int| 0 <= t < i ==> bits@[t] <= 1,
                take_symbol(self@, bs) == match take_symbol(*node, bs.subrange(i as int, bs.len() as int)) {
                    Some((c, k)) => Some((c, (k + i) as nat)),
                    None => None,
                },
            decreases bits@.len() - i,
        {
            let b = bits[i];
            if b > 1 {
                return None;
            }
            assert(bs.subrange(i as int, bs.len() as int).drop_first() =~= bs.subrange(i + 1, bs.len() as int));
            match node {
                Node::Internal(l, r) => {
                    node = if b == 1 {
                        &**r
                    } else {
                        &**l
                    };
                },
                Node::Leaf(_) => {
                    return None;
                },
            }
            i += 1;
        }
        match node {
            Node::Leaf(c) => Some(*c),
            Node::Internal(_, _) => None,
        }
    }

    /// Codes `bytes`: the number of bits and the bits packed MSB-first.
    pub fn encode(&self, bytes: &[u8]) -> (r: (usize, Vec<u8>))
        requires
            self.wf(),
            forall|i: int| 0 <= i < bytes@.len() ==> path_to(self@, #[trigger] bytes@[i]) is Some,
            code_bits(self@, bytes@).len() <= usize::MAX,
        ensures
            r.0 as nat == code_bits(self@, bytes@).len(),
            packs(r.1@, code_bits(self@, bytes@)),
    {
        let mut buffer = CompressedBuffer::new();
        let mut num_bits: usize = 0;
        let mut i: usize = 0;
        while i < bytes.len()
            invariant
                self.wf(),
                i <= bytes@.len(),
                forall|t: int| 0 <= t < bytes@.len() ==> path_to(self@, #[trigger] bytes@[t]) is Some,
                code_bits(self@, bytes@).len() <= usize::MAX,
                buffer.wf(),
                buffer@ == code_bits(self@, bytes@.subrange(0, i as int)),
                num_bits as nat == buffer@.len(),
            decreases bytes@.len() - i,
        {
            let b = bytes[i];
            let ghost pre = bytes@.subrange(0, i as int);
            proof {
                assert(bytes@.subrange(0, i + 1).drop_last() =~= pre);
                lemma_code_bits_prefix(self@, bytes@, i + 1);
                assert(self.encoding@[b as int] is Some);
            }
            match &self.encoding[b as usize] {
                Some(code) => {
                    let mut j: usize = 0;
                    while j < code.len()
                        invariant
                            j <= code@.len(),
                            buffer.wf(),
                            buffer@ == code_bits(self@, pre) + bits_view(code@).subrange(0, j as int),
                            num_bits as nat == buffer@.len(),
                            code_bits(self@, pre) + bits_view(code@) == code_bits(self@, bytes@.subrange(0, i + 1)),
                            code_bits(self@, bytes@.subrange(0, i + 1)).len() <= usize::MAX,
                        decreases code@.len() - j,
                    {
                        buffer.push_bit(code[j]);
                        num_bits += 1;
                        j += 1;
                        assert(buffer@ =~= code_bits(self@, pre) + bits_view(code@).subrange(0, j as int));
                    }
                    assert(bits_view(code@).subrange(0, j as int) =~= bits_view(code@));
                },
                None => {
                    assert(false);
                },
            }
            i += 1;
        }
        assert(bytes@.subrange(0, i as int) =~= bytes@);
        (num_bits, buffer.get_buffer())
    }

    /// Whether the tree is a single leaf.
    pub fn is_leaf(&self) -> (r: bool)
        ensures
            r == self@ is Leaf,
    {
        match &self.root {
            Node::Leaf(_) => true,
            Node::Internal(_, _) => false,
        }
    }

    /// Decodes `bit_length` coded symbols from `bytes`; a one-leaf tree
    /// yields its byte `bit_length` times.
    pub fn decode(&self, bytes: &[u8], bit_length: usize) -> (r: Result<Vec<u8>, CodecError>)
        ensures
            match r {
                Ok(v) => tree_decode(self@, bytes@, bit_length as nat) == Some(v@),
                Err(e) => e == CodecError::MalformedTree && tree_decode(self@, bytes@, bit_length as nat) is None,
            },
    {
        let mut decoded: Vec<u8> = Vec::new();
        match &self.root {
            Node::Leaf(c) => {
                let mut i: usize = 0;
                while i < bit_length
                    invariant
                        i <= bit_length,
                        decoded@ == Seq::new(i as nat, |t: int| *c),
                    decreases bit_length - i,
                {
                    decoded.push(*c);
                    i += 1;
                    assert(decoded@ =~= Seq::new(i as nat, |t: int| *c));
                }
                return Ok(decoded);
            },
            Node::Internal(_, _) => {},
        }
        if bit_length / 8 > bytes.len() || (bit_length / 8 == bytes.len() && bit_length % 8 != 0) {
            return Err(CodecError::MalformedTree);
        }
        let ghost bits = bits_of(bytes@, bit_length as nat);
        let ghost t = self@;
        let mut node: &Node = &self.root;
        let mut i: usize = 0;
        let ghost mut start: int = 0;
        let mut fresh = true;
        assert(bits.subrange(0, bits.len() as int) =~= bits);
        while i < bit_length
            invariant
                fresh == (start == i),
                i <= bit_length <= 8 * bytes@.len(),
                0 <= start <= i,
                bits == bits_of(bytes@, bit_length as nat),
                t == self@,
                t is Internal,
                *node is Internal,
                start == i ==> *node == t,
                decode_from(t, bits) == match decode_from(t, bits.subrange(start, bits.len() as int)) {
                    Some(rest) => Some(decoded@ + rest),
                    None => None,
                },
                take_symbol(t, bits.subrange(start, bits.len() as int)) == match take_symbol(
                    *node,
                    bits.subrange(i as int, bits.len() as int),
                ) {
                    Some((c, k)) => Some((c, (k + (i - start)) as nat)),
                    None => None,
                },
            decreases bit_length - i,
        {
            let byte = bytes[i / 8];
            let one = ((byte >> ((7 - i % 8) as u8)) & 1u8) == 1u8;
            assert(one == bits[i as int]);
            let ghost here = bits.subrange(i as int, bits.len() as int);
            assert(here.drop_first() =~= bits.subrange(i + 1, bits.len() as int));
            assert(here[0] == one);
            let ghost cur = *node;
            let next: &Node = match node {
                Node::Internal(l, r) => if one {
                    &**r
                } else {
                    &**l
                },
                Node::Leaf(_) => {
                    proof {
                        assert(false);
                    }
                    node
                },
            };
            assert(take_symbol(cur, here) == match take_symbol(*next, here.drop_first()) {
                Some((c, k)) => Some((c, k + 1)),
                None => None,
            });
            i += 1;
            match next {
                Node::Leaf(c) => {
                    proof {
                        let s = bits.subrange(start, bits.len() as int);
                        assert(take_symbol(t, s) == Some((*c, (i - start) as nat)));
                        assert(s.subrange(i - start, s.len() as int) =~= bits.subrange(i as int, bits.len() as int));
                        match decode_from(t, bits.subrange(i as int, bits.len() as int)) {
                            Some(rest) => {
                                assert(decoded@ + (seq![*c] + rest) =~= decoded@.push(*c) + rest);
                            },
                            None => {},
                        }
                        start = i as int;
                    }
                    decoded.push(*c);
                    node = &self.root;
                    fresh = true;
                },
                Node::Internal(_, _) => {
                    node = next;
                    fresh = false;
                },
            }
        }
        if fresh {
            proof {
                assert(bits.subrange(i as int, bits.len() as int) =~= Seq::<bool>::empty());
                assert(decoded@ + Seq::<u8>::empty() =~= decoded@);
            }
            Ok(decoded)
        } else {
            proof {
                assert(bits.subrange(i as int, bits.len() as int) =~= Seq::<bool>::empty());
            }
            Err(CodecError::MalformedTree)
        }
    }

    /// Reads a tree serialized in preorder that takes all of `bytes`.
    pub fn from_bytes(bytes: &[u8]) -> (r: Result<HuffmanTree, CodecError>)
        ensures
            match r {
                Ok(t) => t.wf() && parse_tree(bytes@) == Some((t@, bytes@.len())),
                Err(e) => e == CodecError::MalformedTree && !parses_whole(bytes@),
            },
    {
        assert(bytes@.subrange(0, bytes@.len() as int) =~= bytes@);
        match node_from_vec(bytes, 0) {
            Ok((root, used)) => {
                if used == bytes.len() {
                    Ok(HuffmanTree::from_root(root))
                } else {
                    Err(CodecError::MalformedTree)
                }
            },
            Err(e) => Err(e),
        }
    }

    /// The Huffman frame of `input`.
    pub fn encode_with_metadatas(input: &[u8]) -> (r: Vec<u8>)
        requires
            input@.len() <= usize::MAX / 256,
        ensures
            huff_frame_ok(input@, r@),
    {
        if input.len() == 0 {
            let v: Vec<u8> = vec![0u8, 0u8];
            assert(v@ =~= seq![0u8, 0u8]);
            return v;
        }
        let tree = HuffmanTree::load_tree_from_bytes(input);
        let ghost t = tree@;
        proof {
            lemma_input_coded(input@);
            lemma_code_bits_bound(t, input@);
            assert(internal_count(t) * input@.len() <= 255 * input@.len()) by (nonlinear_arith)
                requires
                    internal_count(t) <= 255,
            ;
        }
        let tree_bytes = tree.as_bytes();
        let (num_bits, data) = tree.encode(input);
        let n = if tree.is_leaf() {
            input.len()
        } else {
            num_bits
        };
        let mut out: Vec<u8> = Vec::new();
        push_varsize(&mut out, tree_bytes.len());
        extend_bytes(&mut out, tree_bytes.as_slice());
        push_varsize(&mut out, n);
        let ghost h = out@;
        extend_bytes(&mut out, data.as_slice());
        proof {
            assert(h =~= frame_head(t, symbol_field(t, input@)));
            assert(out@.subrange(0, h.len() as int) =~= h);
            assert(out@.subrange(h.len() as int, out@.len() as int) =~= data@);
        }
        out
    }

    /// Decodes a Huffman frame.
    pub fn decode_with_metadatas(input: &[u8]) -> (r: Result<Vec<u8>, CodecError>)
        ensures
            match r {
                Ok(v) => huff_decode_spec(input@) == Some(v@),
                Err(_) => huff_decode_spec(input@) is None,
            },
    {
        let (tree_size, k) = match decode_varsize_at(input, 0) {
            Ok(p) => p,
            Err(e) => {
                proof {
                    assert(input@.subrange(0, input@.len() as int) =~= input@);
                }
                return Err(e);
            },
        };
        proof {
            assert(input@.subrange(0, input@.len() as int) =~= input@);
            lemma_parse_consumes(input@);
        }
        if tree_size > input.len() - k {
            return Err(CodecError::MalformedTree);
        }
        let after = k + tree_size;
        let ghost rest = input@.subrange(after as int, input@.len() as int);
        let (n, k2) = match decode_varsize_at(input, after) {
            Ok(p) => p,
            Err(e) => {
                return Err(e);
            },
        };
        proof {
            lemma_parse_consumes(rest);
        }
        let packed_start = after + k2;
        let packed = slice_from(input, packed_start);
        assert(packed@ =~= rest.subrange(k2 as int, rest.len() as int));
        if tree_size == 0 {
            if n == 0 {
                return Ok(Vec::new());
            } else {
                return Err(CodecError::MalformedTree);
            }
        }
        let tree_bytes = slice_between(input, k, after);
        let tree = match HuffmanTree::from_bytes(tree_bytes.as_slice()) {
            Ok(t) => t,
            Err(e) => {
                return Err(e);
            },
        };
        tree.decode(packed.as_slice(), n)
    }
}

/// The bytes of `s` from `start` on.
fn slice_from(s: &[u8], start: usize) -> (r: Vec<u8>)
    requires
        start <= s@.len(),
    ensures
        r@ == s@.subrange(start as int, s@.len() as int),
{
    slice_between(s, start, s.len())
}

/// Occurrences of the bytes `c..256` in `x`.
pub open spec fn occ_sum(x: Seq<u8>, c: nat) -> nat
    decreases 256 - c,
{
    if c >= 256 {
        0
    } else {
        occurrences(x, c as u8) + occ_sum(x, c + 1)
    }
}

/// Sum of the counts of a frequency list.
pub open spec fn freq_total(fs: Seq<FrequencyChar>) -> nat
    decreases fs.len(),
{
    if fs.len() == 0 {
        0
    } else {
        (fs[0].1 + freq_total(fs.drop_first())) as nat
    }
}

proof fn lemma_occ_sum_step(x: Seq<u8>, c: nat)
    requires
        x.len() > 0,
    ensures
        occ_sum(x, c) == occ_sum(x.drop_last(), c) + if c <= x.last() {
            1nat
        } else {
            0nat
        },
    decreases 256 - c,
{
    if c < 256 {
        lemma_occ_sum_step(x, c + 1);
    }
}

proof fn lemma_occ_sum_len(x: Seq<u8>)
    ensures
        occ_sum(x, 0) == x.len(),
    decreases x.len(),
{
    if x.len() > 0 {
        lemma_occ_sum_step(x, 0);
        lemma_occ_sum_len(x.drop_last());
    } else {
        lemma_occ_sum_zero(x, 0);
    }
}

proof fn lemma_occ_sum_zero(x: Seq<u8>, c: nat)
    requires
        x.len() == 0,
    ensures
        occ_sum(x, c) == 0,
    decreases 256 - c,
{
    if c < 256 {
        lemma_occ_sum_zero(x, c + 1);
    }
}

proof fn lemma_freq_total_from(x: Seq<u8>, c: nat)
    requires
        x.len() <= usize::MAX,
    ensures
        freq_total(byte_freqs_from(x, c)) == occ_sum(x, c),
    decreases 256 - c,
{
    if c < 256 {
        lemma_freq_total_from(x, c + 1);
        lemma_occurrences_le(x, c as u8);
        if occurrences(x, c as u8) > 0 {
            assert(byte_freqs_from(x, c).drop_first() =~= byte_freqs_from(x, c + 1));
        }
    }
}

/// The counts of the byte frequencies of `x` add up to its length, and
/// the list is ascending by byte with no byte twice.
pub proof fn lemma_byte_freqs_total(x: Seq<u8>)
    requires
        x.len() <= usize::MAX,
    ensures
        freq_total(byte_freqs(x)) == x.len(),
        byte_freqs(x).len() <= 256,
{
    lemma_freq_total_from(x, 0);
    lemma_occ_sum_len(x);
    lemma_byte_freqs_len(x, 0);
}

proof fn lemma_code_bits_front(t: Node, x: Seq<u8>)
    requires
        x.len() >= 1,
    ensures
        code_bits(t, x) == path_to(t, x[0]).unwrap() + code_bits(t, x.drop_first()),
    decreases x.len(),
{
    if x.len() == 1 {
        assert(x.drop_last() =~= Seq::<u8>::empty());
        assert(x.drop_first() =~= Seq::<u8>::empty());
        assert(code_bits(t, Seq::<u8>::empty()) =~= Seq::<bool>::empty());
        assert(Seq::<bool>::empty() + path_to(t, x[0]).unwrap() =~= path_to(t, x[0]).unwrap()
            + Seq::<bool>::empty());
    } else {
        lemma_code_bits_front(t, x.drop_last());
        assert(x.drop_first().drop_last() =~= x.drop_last().drop_first());
        assert(x.drop_first().last() == x.last());
        assert(x.drop_last()[0] == x[0]);
        let p0 = path_to(t, x[0]).unwrap();
        let a = code_bits(t, x.drop_last().drop_first());
        let pl = path_to(t, x.last()).unwrap();
        assert((p0 + a) + pl =~= p0 + (a + pl));
    }
}

proof fn lemma_decode_code_bits(t: Node, x: Seq<u8>)
    requires
        t is Internal,
        forall|i: int| 0 <= i < x.len() ==> path_to(t, #[trigger] x[i]) is Some,
    ensures
        decode_from(t, code_bits(t, x)) == Some(x),
    decreases x.len(),
{
    if x.len() == 0 {
        assert(code_bits(t, x) =~= Seq::<bool>::empty());
    } else {
        let p = path_to(t, x[0]).unwrap();
        let rest = code_bits(t, x.drop_first());
        lemma_code_bits_front(t, x);
        lemma_take_path(t, x[0], rest);
        lemma_path_len(t, x[0]);
        assert forall|i: int| 0 <= i < x.drop_first().len() implies path_to(
            t,
            #[trigger] x.drop_first()[i],
        ) is Some by {
            assert(x.drop_first()[i] == x[i + 1]);
        }
        lemma_decode_code_bits(t, x.drop_first());
        let all = p + rest;
        assert(all.subrange(p.len() as int, all.len() as int) =~= rest);
        assert(seq![x[0]] + x.drop_first() =~= x);
    }
}

proof fn lemma_serialize_len(t: Node)
    ensures
        serialize(t).len() <= 3 * internal_count(t) + 2,
    decreases t,
{
    match t {
        Node::Leaf(_) => {},
        Node::Internal(l, r) => {
            lemma_serialize_len(*l);
            lemma_serialize_len(*r);
        },
    }
}

/// Decoding the Huffman frame of a nonempty input gives it back, provided
/// its serialized tree reads back unambiguously (a leaf 255 directly
/// followed, in preorder, by the escaped null leaf is the one case that
/// does not).
pub proof fn lemma_huffman_round_trip(x: Seq<u8>, f: Seq<u8>)
    requires
        1 <= x.len() <= usize::MAX / 256,
        unambiguous(huffman_tree_of(byte_freqs(x)), None),
        huff_frame_ok(x, f),
    ensures
        huff_decode_spec(f) == Some(x),
{
    let t = huffman_tree_of(byte_freqs(x));
    let ser = serialize(t);
    let n = symbol_field(t, x);
    let h = frame_head(t, n);
    let packed = f.subrange(h.len() as int, f.len() as int);
    lemma_input_coded(x);
    lemma_serialize_nonempty(t);
    lemma_serialize_len(t);
    lemma_code_bits_bound(t, x);
    assert(internal_count(t) * x.len() <= 255 * x.len()) by (nonlinear_arith)
        requires
            internal_count(t) <= 255,
    ;
    assert(f =~= h + packed);
    let v1 = varsize_of(ser.len());
    let v2 = varsize_of(n);
    assert(f =~= v1 + (ser + v2 + packed));
    lemma_varsize_round_trip(ser.len(), ser + v2 + packed);
    let k = v1.len();
    let tl = ser.len();
    let after = f.subrange((k + tl) as int, f.len() as int);
    assert(after =~= v2 + packed);
    lemma_varsize_round_trip(n, packed);
    assert(after.subrange(v2.len() as int, after.len() as int) =~= packed);
    assert(f.subrange(k as int, (k + tl) as int) =~= ser);
    assert(ser + Seq::<u8>::empty() =~= ser);
    lemma_parse_serialize(t, Seq::<u8>::empty());
    match t {
        Node::Leaf(c) => {
            assert forall|i: int| 0 <= i < x.len() implies x[i] == c by {
                assert(path_to(t, x[i]) is Some);
            }
            assert(Seq::new(n, |i: int| c) =~= x);
        },
        Node::Internal(_, _) => {
            let bits = code_bits(t, x);
            assert(bits_of(packed, n) =~= bits);
            lemma_decode_code_bits(t, x);
        },
    }
}

} // verus!
