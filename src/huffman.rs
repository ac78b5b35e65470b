//! Canonical Huffman trees, stored as an arena of nodes addressed by index.
use vstd::prelude::*;

use crate::bit_reader::{bit_at, lemma_two_pow_bounds, lemma_two_pow_monotone, two_pow, Decoder};
use crate::inflate::DecompressResult;

verus! {

/// A node of a Huffman tree: a leaf holds a symbol, an inner node holds the
/// indices of its 0-child (`left`) and 1-child (`right`).
#[derive(Clone, Copy, Debug)]
pub struct HuffmanNode {
    pub symbol: Option<u16>,
    pub left: Option<usize>,
    pub right: Option<usize>,
}

pub open spec fn empty_node() -> HuffmanNode {
    HuffmanNode { symbol: None, left: None, right: None }
}

/// A child link points forward in the arena, to an existing node.
pub open spec fn link_ok(nodes: Seq<HuffmanNode>, i: int, link: Option<usize>) -> bool {
    match link {
        Some(c) => i < c < nodes.len(),
        None => true,
    }
}

/// The arena holds a root that carries no symbol, and every link points to a
/// later node.
pub open spec fn nodes_wf(nodes: Seq<HuffmanNode>) -> bool {
    &&& 1 <= nodes.len()
    &&& nodes[0].symbol is None
    &&& forall|i: int|
        0 <= i < nodes.len() ==> #[trigger] link_ok(nodes, i, nodes[i].left) && link_ok(
            nodes,
            i,
            nodes[i].right,
        )
}

/// Whether bit `k` of `code` is set.
pub open spec fn code_bit(code: u32, k: nat) -> bool {
    (code >> (k as u32)) & 1u32 == 1u32
}

/// The node `cur` with one child link replaced.
pub open spec fn with_child(node: HuffmanNode, one: bool, c: usize) -> HuffmanNode {
    if one {
        HuffmanNode { symbol: node.symbol, left: node.left, right: Some(c) }
    } else {
        HuffmanNode { symbol: node.symbol, left: Some(c), right: node.right }
    }
}

/// Inserts `sym` under the low `n` bits of `code`, read most significant bit
/// first, starting at node `cur`; missing nodes on the way are appended.
pub open spec fn insert_from(
    nodes: Seq<HuffmanNode>,
    cur: int,
    code: u32,
    n: nat,
    sym: u16,
) -> Seq<HuffmanNode>
    decreases n,
{
    if n == 0 {
        nodes.update(
            cur,
            HuffmanNode { symbol: Some(sym), left: nodes[cur].left, right: nodes[cur].right },
        )
    } else {
        let k = (n - 1) as nat;
        let one = code_bit(code, k);
        let child = if one {
            nodes[cur].right
        } else {
            nodes[cur].left
        };
        match child {
            Some(c) => insert_from(nodes, c as int, code, k, sym),
            None => {
                let c = nodes.len();
                insert_from(
                    nodes.update(cur, with_child(nodes[cur], one, c as usize)).push(empty_node()),
                    c as int,
                    code,
                    k,
                    sym,
                )
            },
        }
    }
}

/// How many of the first `k` entries of `lengths` equal `len`; length 0 is
/// never counted.
pub open spec fn count_upto(lengths: Seq<u16>, len: int, k: int) -> nat
    decreases k,
{
    if k <= 0 {
        0
    } else {
        count_upto(lengths, len, k - 1) + if len != 0 && lengths[k - 1] == len {
            1nat
        } else {
            0nat
        }
    }
}

/// How many symbols have code length `len`.
pub open spec fn count_len(lengths: Seq<u16>, len: int) -> nat {
    count_upto(lengths, len, lengths.len() as int)
}

/// The smallest canonical code of length `len`:
/// `first_code(len) = (first_code(len - 1) + count(len - 1)) << 1`.
pub open spec fn first_code(lengths: Seq<u16>, len: int) -> nat
    decreases len,
{
    if len <= 1 {
        0
    } else {
        2 * (first_code(lengths, len - 1) + count_len(lengths, len - 1))
    }
}

/// The canonical code of symbol position `i`: the next free code of its length,
/// taking the positions in order.
pub open spec fn code_of(lengths: Seq<u16>, i: int) -> nat {
    first_code(lengths, lengths[i] as int) + count_upto(lengths, lengths[i] as int, i)
}

/// The tree after inserting the first `k` symbol positions with a nonzero length.
pub open spec fn build_upto(lengths: Seq<u16>, alphabet: Seq<u16>, k: int) -> Seq<HuffmanNode>
    decreases k,
{
    if k <= 0 {
        seq![empty_node()]
    } else {
        let prev = build_upto(lengths, alphabet, k - 1);
        let len = lengths[k - 1];
        if len == 0 {
            prev
        } else {
            insert_from(prev, 0, code_of(lengths, k - 1) as u32, len as nat, alphabet[k - 1])
        }
    }
}

/// The tree built from per-position code lengths and the symbol at each position.
pub open spec fn build_tree(lengths: Seq<u16>, alphabet: Seq<u16>) -> Seq<HuffmanNode> {
    build_upto(
        lengths,
        alphabet,
        if lengths.len() <= alphabet.len() {
            lengths.len() as int
        } else {
            alphabet.len() as int
        },
    )
}

/// Decodes one symbol by walking from node `cur`, one input bit per step (a set
/// bit goes to `right`), until a node without children; yields the symbol and
/// the position after the code.
pub open spec fn decode_from(nodes: Seq<HuffmanNode>, cur: int, data: Seq<u8>, pos: int) -> Result<
    (u16, int),
    DecompressResult,
>
    decreases nodes.len() - cur,
{
    if !(0 <= cur < nodes.len()) {
        Err(DecompressResult::TreeError)
    } else if nodes[cur].left is None && nodes[cur].right is None {
        match nodes[cur].symbol {
            Some(s) => Ok((s, pos)),
            None => Err(DecompressResult::TreeError),
        }
    } else if !(0 <= pos < data.len() * 8) {
        Err(DecompressResult::TreeError)
    } else {
        let child = if bit_at(data, pos) == 1 {
            nodes[cur].right
        } else {
            nodes[cur].left
        };
        match child {
            Some(c) => if cur < c < nodes.len() {
                decode_from(nodes, c as int, data, pos + 1)
            } else {
                Err(DecompressResult::TreeError)
            },
            None => Err(DecompressResult::TreeError),
        }
    }
}

/// Decodes one symbol from the root of the tree.
pub open spec fn decode_spec(nodes: Seq<HuffmanNode>, data: Seq<u8>, pos: int) -> Result<
    (u16, int),
    DecompressResult,
> {
    decode_from(nodes, 0, data, pos)
}

/// A decoded symbol ends after its start and within the data, and a code
/// walked from the root of a well-formed tree is at least one bit long.
pub proof fn lemma_decode_advances(nodes: Seq<HuffmanNode>, cur: int, data: Seq<u8>, pos: int)
    requires
        0 <= pos,
    ensures
        decode_from(nodes, cur, data, pos) matches Ok((_s, p)) ==> pos <= p && (p <= data.len()
            * 8 || p == pos),
        cur == 0 && nodes_wf(nodes) ==> (decode_from(nodes, cur, data, pos) matches Ok((_s, p))
            ==> pos < p),
    decreases nodes.len() - cur,
{
    if 0 <= cur < nodes.len() && !(nodes[cur].left is None && nodes[cur].right is None) && pos
        < data.len() * 8 {
        let child = if bit_at(data, pos) == 1 {
            nodes[cur].right
        } else {
            nodes[cur].left
        };
        if let Some(c) = child {
            if cur < c < nodes.len() {
                lemma_decode_advances(nodes, c as int, data, pos + 1);
            }
        }
    }
}

/// The longest code a tree is built with.
pub const MAX_CODE_LEN: u16 = 15;

pub proof fn lemma_count_upto_bound(lengths: Seq<u16>, len: int, k: int)
    ensures
        count_upto(lengths, len, k) <= if k < 0 {
            0
        } else {
            k
        },
    decreases k,
{
    if k > 0 {
        lemma_count_upto_bound(lengths, len, k - 1);
    }
}

/// A canonical Huffman tree in an arena of nodes; node 0 is the root.
pub struct HuffmanTree {
    nodes: Vec<HuffmanNode>,
}

impl HuffmanTree {
    pub closed spec fn view(&self) -> Seq<HuffmanNode> {
        self.nodes@
    }

    pub open spec fn wf(&self) -> bool {
        nodes_wf(self@)
    }

    /// A tree with a bare root.
    pub fn new() -> (r: Self)
        ensures
            r@ == seq![empty_node()],
            r.wf(),
    {
        let mut nodes: Vec<HuffmanNode> = Vec::new();
        nodes.push(HuffmanNode { symbol: None, left: None, right: None });
        let r = HuffmanTree { nodes };
        assert(r@ =~= seq![empty_node()]);
        r
    }

    /// Inserts `symbol` under the low `n` bits of `code`, most significant bit
    /// first.
    pub fn insert(&mut self, code: u32, n: u32, symbol: u16)
        requires
            old(self).wf(),
            1 <= n <= 32,
        ensures
            final(self).wf(),
            final(self)@ == insert_from(old(self)@, 0, code, n as nat, symbol),
    {
        let ghost target = insert_from(self@, 0, code, n as nat, symbol);
        let mut current: usize = 0;
        let mut i: u32 = n;
        while i > 0
            invariant
                self.wf(),
                current < self@.len(),
                i <= n <= 32,
                i < n ==> current != 0,
                insert_from(self@, current as int, code, i as nat, symbol) == target,
            decreases i,
        {
            let k = i - 1;
            let one = (code >> k) & 1 == 1;
            let node = self.nodes[current];
            let child = if one {
                node.right
            } else {
                node.left
            };
            assert(link_ok(self@, current as int, self@[current as int].left));
            match child {
                Some(c) => {
                    current = c;
                },
                None => {
                    let c = self.nodes.len();
                    let linked = if one {
                        HuffmanNode { symbol: node.symbol, left: node.left, right: Some(c) }
                    } else {
                        HuffmanNode { symbol: node.symbol, left: Some(c), right: node.right }
                    };
                    let ghost before = self@;
                    self.nodes.set(current, linked);
                    self.nodes.push(HuffmanNode { symbol: None, left: None, right: None });
                    assert(self@ == before.update(
                        current as int,
                        with_child(before[current as int], one, c),
                    ).push(empty_node()));
                    assert forall|j: int| 0 <= j < self@.len() implies #[trigger] link_ok(
                        self@,
                        j,
                        self@[j].left,
                    ) && link_ok(self@, j, self@[j].right) by {
                        if j < before.len() && j != current {
                            assert(link_ok(before, j, before[j].left));
                        }
                    }
                    current = c;
                },
            }
            i = k;
        }
        let node = self.nodes[current];
        let ghost before = self@;
        self.nodes.set(current, HuffmanNode { symbol: Some(symbol), left: node.left, right: node.right });
        assert forall|j: int| 0 <= j < self@.len() implies #[trigger] link_ok(
            self@,
            j,
            self@[j].left,
        ) && link_ok(self@, j, self@[j].right) by {
            assert(link_ok(before, j, before[j].left));
        }
    }

    /// Decodes one symbol, reading one bit per step from the root down.
    pub fn decode_symbol(&self, decoder: &mut Decoder) -> (r: Result<u16, DecompressResult>)
        requires
            self.wf(),
            old(decoder).wf(),
        ensures
            final(decoder).wf(),
            final(decoder).bytes() == old(decoder).bytes(),
            match decode_spec(self@, old(decoder).bytes(), old(decoder).pos()) {
                Ok((s, p)) => r == Ok::<u16, DecompressResult>(s) && final(decoder).pos() == p,
                Err(e) => r == Err::<u16, DecompressResult>(e),
            },
            r is Ok ==> final(decoder).pos() > old(decoder).pos(),
    {
        let ghost start = decoder.pos();
        let ghost target = decode_spec(self@, decoder.bytes(), start);
        let mut current: usize = 0;
        loop
            invariant
                self.wf(),
                decoder.wf(),
                decoder.bytes() == old(decoder).bytes(),
                start == old(decoder).pos(),
                target == decode_spec(self@, decoder.bytes(), start),
                current < self@.len(),
                decode_from(self@, current as int, decoder.bytes(), decoder.pos()) == target,
                current == 0 ==> decoder.pos() == start,
                current != 0 ==> decoder.pos() > start,
            decreases self@.len() - current,
        {
            let node = self.nodes[current];
            if node.left.is_none() && node.right.is_none() {
                return match node.symbol {
                    Some(s) => Ok(s),
                    None => Err(DecompressResult::TreeError),
                };
            }
            if !decoder.has_bits(1) {
                return Err(DecompressResult::TreeError);
            }
            assert(link_ok(self@, current as int, self@[current as int].left));
            let bit = decoder.next_bit();
            let child = if bit == 1 {
                node.right
            } else {
                node.left
            };
            match child {
                Some(c) => {
                    current = c;
                },
                None => {
                    return Err(DecompressResult::TreeError);
                },
            }
        }
    }

    /// Builds the canonical tree in which position `i` gets a code of
    /// `bitlengths[i]` bits (none when that is 0) for the symbol `alphabet[i]`.
    pub fn from_bitlengths(bitlengths: &[u16], alphabet: &[u16]) -> (r: Self)
        requires
            forall|i: int| 0 <= i < bitlengths@.len() ==> bitlengths@[i] <= MAX_CODE_LEN,
        ensures
            r.wf(),
            r@ == build_tree(bitlengths@, alphabet@),
    {
        let ghost lengths = bitlengths@;
        let n = bitlengths.len();
        let ghost big = 2 * n;
        // Step 1: how many symbols use each length.
        let mut counts: Vec<u128> = vec![0u128; 16];
        let mut i: usize = 0;
        while i < n
            invariant
                n == lengths.len(),
                lengths == bitlengths@,
                forall|j: int| 0 <= j < lengths.len() ==> lengths[j] <= MAX_CODE_LEN,
                i <= n,
                counts@.len() == 16,
                forall|l: int| 0 <= l < 16 ==> #[trigger] counts@[l] == count_upto(lengths, l, i as int),
            decreases n - i,
        {
            let l = bitlengths[i];
            proof {
                assert forall|m: int| 0 <= m < 16 implies count_upto(lengths, m, i as int) <= i by {
                    lemma_count_upto_bound(lengths, m, i as int);
                }
            }
            if l != 0 {
                let c = counts[l as usize];
                counts.set(l as usize, c + 1);
            }
            i = i + 1;
        }
        // Step 2: the first code of each length.
        let mut next_code: Vec<u128> = vec![0u128; 16];
        let mut bits: usize = 2;
        proof {
            reveal_with_fuel(two_pow, 2);
            assert(two_pow(0) == 1);
            assert(two_pow(1) == 2);
            assert(big * 1 == big && big * 2 == 2 * big) by (nonlinear_arith);
            assert(next_code@[0] + big <= big * two_pow(0));
            assert(next_code@[1] + big <= big * two_pow(1));
        }
        while bits < 16
            invariant
                lengths == bitlengths@,
                n == lengths.len(),
                big == 2 * n,
                2 <= bits <= 16,
                counts@.len() == 16,
                next_code@.len() == 16,
                forall|l: int| 0 <= l < 16 ==> #[trigger] counts@[l] == count_len(lengths, l),
                forall|l: int| 0 <= l < bits ==> #[trigger] next_code@[l] == first_code(lengths, l),
                forall|l: int|
                    0 <= l < bits ==> #[trigger] next_code@[l] + big <= big * two_pow(l as nat),
            decreases 16 - bits,
        {
            let ghost prev = next_code@[bits - 1];
            let ghost c = counts@[bits - 1];
            let ghost p = two_pow((bits - 1) as nat);
            proof {
                lemma_count_upto_bound(lengths, (bits - 1) as int, lengths.len() as int);
                lemma_two_pow_monotone((bits - 1) as nat, 15);
                reveal_with_fuel(two_pow, 16);
                assert(two_pow(bits as nat) == 2 * p);
                assert(2 * (prev + c) + big <= big * (2 * p)) by (nonlinear_arith)
                    requires
                        prev + big <= big * p,
                        c <= n,
                        big == 2 * n,
                ;
                assert(big * p <= big * 0x8000) by (nonlinear_arith)
                    requires
                        p <= 0x8000,
                        big >= 0,
                ;
            }
            let next = (next_code[bits - 1] + counts[bits - 1]) * 2;
            next_code.set(bits, next);
            bits = bits + 1;
        }
        // Step 3: assign the codes in position order and insert them.
        assert forall|l: int| 1 <= l < 16 implies #[trigger] first_code(lengths, l) + big <= big
            * two_pow(l as nat) by {
            assert(next_code@[l] + big <= big * two_pow(l as nat));
        }
        let mut tree = HuffmanTree::new();
        let m = if n <= alphabet.len() {
            n
        } else {
            alphabet.len()
        };
        let mut i: usize = 0;
        while i < m
            invariant
                lengths == bitlengths@,
                n == lengths.len(),
                big == 2 * n,
                forall|j: int| 0 <= j < lengths.len() ==> lengths[j] <= MAX_CODE_LEN,
                m <= n,
                m <= alphabet@.len(),
                i <= m,
                next_code@.len() == 16,
                tree.wf(),
                tree@ == build_upto(lengths, alphabet@, i as int),
                forall|l: int|
                    1 <= l < 16 ==> #[trigger] next_code@[l] == first_code(lengths, l)
                        + count_upto(lengths, l, i as int),
                forall|l: int|
                    1 <= l < 16 ==> #[trigger] first_code(lengths, l) + big <= big * two_pow(
                        l as nat,
                    ),
            decreases m - i,
        {
            let l = bitlengths[i];
            if l != 0 {
                let ghost p = two_pow(l as nat);
                proof {
                    lemma_count_upto_bound(lengths, l as int, i as int);
                    lemma_two_pow_monotone(l as nat, 15);
                    reveal_with_fuel(two_pow, 16);
                    assert(big * p <= big * 0x8000) by (nonlinear_arith)
                        requires
                            p <= 0x8000,
                            big >= 0,
                    ;
                }
                let code = next_code[l as usize];
                let low = #[verifier::truncate] (code as u32);
                tree.insert(low, l as u32, alphabet[i]);
                next_code.set(l as usize, code + 1);
            }
            i = i + 1;
        }
        tree
    }
}

} // verus!
