//! Canonical Huffman trees, built from a code-length vector and decoded
//! bit by bit.
//!
//! The builder assigns each symbol a code (longest codes first, in the
//! allocation order bzip2 uses), sorts the codes, and splits them into a
//! binary trie. The trie is a vector of nodes whose child links only ever
//! point forward, so decoding terminates.

use crate::bitreader::BitReader;
use crate::bits::bit_at;
use crate::errors::BlockError;
use vstd::prelude::*;

verus! {

/// One slot of a trie node: either an edge to another node or a decoded
/// symbol.
#[derive(Debug, Clone, Copy)]
pub enum HuffmanNodeState {
    /// Continue at the node with this index.
    Next(u16),
    /// The walk ends here with this symbol.
    Done(u16),
}

/// A trie node; `right` is taken on a 0 bit, `left` on a 1 bit.
#[derive(Debug, Clone, Copy)]
pub struct HuffmanNode {
    /// The slot taken on a 0 bit.
    pub right: HuffmanNodeState,
    /// The slot taken on a 1 bit.
    pub left: HuffmanNodeState,
}

/// A slot either ends in a symbol below `alpha` or points strictly
/// forward, inside the node vector.
pub open spec fn slot_wf(s: HuffmanNodeState, i: int, len: int, alpha: int) -> bool {
    match s {
        HuffmanNodeState::Next(j) => i < j < len,
        HuffmanNodeState::Done(v) => v < alpha,
    }
}

/// Both slots of node `i` are well formed.
pub open spec fn node_wf(n: HuffmanNode, i: int, len: int, alpha: int) -> bool {
    slot_wf(n.right, i, len, alpha) && slot_wf(n.left, i, len, alpha)
}

/// Walk the trie from node `idx`, consuming one bit per step; yields the
/// symbol and the bit position after it, or `None` when the bits run out
/// (or a link is broken, which well-formed trees rule out).
pub open spec fn decode_from(nodes: Seq<HuffmanNode>, s: Seq<u8>, pos: int, idx: int) -> Option<
    (u16, int),
>
    decreases nodes.len() - idx,
{
    if !(0 <= idx < nodes.len()) {
        None
    } else if !(0 <= pos < 8 * s.len()) {
        None
    } else {
        let slot = if bit_at(s, pos) {
            nodes[idx].left
        } else {
            nodes[idx].right
        };
        match slot {
            HuffmanNodeState::Done(v) => Some((v, pos + 1)),
            HuffmanNodeState::Next(j) => if idx < j < nodes.len() {
                decode_from(nodes, s, pos + 1, j as int)
            } else {
                None
            },
        }
    }
}

/// A canonical Huffman trie.
#[derive(Debug)]
pub struct HuffmanTree {
    nodes: Vec<HuffmanNode>,
}

impl HuffmanTree {
    /// The node vector of the trie.
    pub closed spec fn nodes_seq(self) -> Seq<HuffmanNode> {
        self.nodes@
    }

    /// Structurally well formed: nonempty, and all child links point
    /// strictly forward.
    pub open spec fn wf(self) -> bool {
        &&& 1 <= self.nodes_seq().len() <= 0x10000
        &&& forall|i: int|
            0 <= i < self.nodes_seq().len() ==> node_wf(
                #[trigger] self.nodes_seq()[i],
                i,
                self.nodes_seq().len() as int,
                0x10000,
            )
    }

    /// Well formed for an alphabet: structurally sound and every leaf
    /// symbol is below `alpha`.
    pub open spec fn wf_for(self, alpha: int) -> bool {
        &&& self.wf()
        &&& forall|i: int|
            0 <= i < self.nodes_seq().len() ==> node_wf(
                #[trigger] self.nodes_seq()[i],
                i,
                self.nodes_seq().len() as int,
                alpha,
            )
    }

    /// Build the trie for a code-length vector (one length per symbol,
    /// each `1..=20`). Fewer than two symbols cannot form a code.
    #[verifier::loop_isolation(false)]
    pub fn new(lengths: &[u8]) -> (r: Result<Self, BlockError>)
        requires
            lengths@.len() <= 258,
            forall|i: int| 0 <= i < lengths@.len() ==> 1 <= #[trigger] lengths@[i] <= 20,
        ensures
            match r {
                Ok(t) => t.wf_for(lengths@.len() as int) && lengths@.len() >= 2,
                Err(e) => e == BlockError::TooFewSymbols || e == BlockError::EmptyHuffmanTree || e
                    == BlockError::EqualSymbols,
            },
            r == Err::<HuffmanTree, BlockError>(BlockError::TooFewSymbols) <==> lengths@.len() < 2,
    {
        if lengths.len() < 2 {
            return Err(BlockError::TooFewSymbols);
        }
        let ghost alpha = lengths@.len() as int;
        let n = lengths.len();

        // Pair each symbol with its length, encoded as `length << 16 | symbol`.
        let mut pairs: Vec<u64> = Vec::new();
        let mut i: usize = 0;
        while i < n
            invariant
                n == lengths@.len(),
                i <= n,
                pairs@.len() == i,
                forall|t: int|
                    0 <= t < i ==> (#[trigger] pairs@[t]) % 0x10000 < alpha && 1 <= pairs@[t]
                        / 0x10000 <= 20,
            decreases n - i,
        {
            let li: u8 = lengths[i];
            let key: u64 = ((li as u64) << 16) | (i as u64);
            proof {
                assert(key % 0x10000 == i && key / 0x10000 == li) by (bit_vector)
                    requires
                        key == ((li as u64) << 16) | (i as u64),
                        i < 258,
                        1 <= li <= 20,
                ;
            }
            pairs.push(key);
            i = i + 1;
        }
        sort_keys(&mut pairs);

        // Assign codes: iterate from the longest (largest key) down,
        // clamping the running length and stepping the code register.
        let mut codes: Vec<u64> = Vec::new();
        let mut code: u32 = 0;
        let mut length: u8 = 32;
        let mut t = pairs.len();
        while t > 0
            invariant
                pairs@.len() == n,
                t <= n,
                n == lengths@.len(),
                1 <= length <= 32,
                codes@.len() == n - t,
                forall|q: int|
                    0 <= q < pairs@.len() ==> (#[trigger] pairs@[q]) % 0x10000 < alpha && 1
                        <= pairs@[q] / 0x10000 <= 20,
                forall|q: int| 0 <= q < codes@.len() ==> (#[trigger] codes@[q]) % 0x10000 < alpha,
            decreases t,
        {
            t = t - 1;
            let pair = pairs[t];
            let pair_len: u8 = ((pair >> 16) as u8);
            proof {
                assert(pair >> 16 == pair / 0x10000) by (bit_vector);
            }
            if pair_len < length {
                length = pair_len;
            }
            let key: u64 = ((code as u64) << 16) | (pair % 0x10000);
            proof {
                let v = pair % 0x10000;
                assert(key % 0x10000 == v) by (bit_vector)
                    requires
                        key == ((code as u64) << 16) | v,
                        v < 0x10000,
                ;
            }
            codes.push(key);
            // The code register steps by 2^(32 - length), wrapping mod 2^32.
            let step: u32 = 1u32 << ((32 - length) as u32);
            code = (((code as u64) + (step as u64)) % 0x1_0000_0000) as u32;
        }
        sort_keys(&mut codes);

        let mut nodes: Vec<HuffmanNode> = Vec::new();
        match Self::build_node(&mut nodes, &codes, 0, n, 0, Ghost(alpha)) {
            Ok(_) => Ok(HuffmanTree { nodes }),
            Err(e) => Err(e),
        }
    }

    /// Split `codes[lo..hi]` on the bit `level` tests, allocate a node,
    /// and recurse; returns the index of the subtree's root.
    fn build_node(
        nodes: &mut Vec<HuffmanNode>,
        codes: &Vec<u64>,
        lo: usize,
        hi: usize,
        level: u32,
        Ghost(alpha): Ghost<int>,
    ) -> (r: Result<u16, BlockError>)
        requires
            lo < hi <= codes@.len(),
            level <= 32,
            0 < alpha <= 0x10000,
            old(nodes)@.len() + (hi - lo) <= 258,
            forall|q: int| lo <= q < hi ==> (#[trigger] codes@[q]) % 0x10000 < alpha,
            forall|i: int|
                0 <= i < old(nodes)@.len() ==> node_wf(
                    #[trigger] old(nodes)@[i],
                    i,
                    old(nodes)@.len() as int,
                    alpha,
                ),
        ensures
            final(nodes)@.len() >= old(nodes)@.len(),
            forall|i: int| 0 <= i < old(nodes)@.len() ==> final(nodes)@[i] == old(nodes)@[i],
            forall|i: int|
                0 <= i < final(nodes)@.len() ==> node_wf(
                    #[trigger] final(nodes)@[i],
                    i,
                    final(nodes)@.len() as int,
                    alpha,
                ),
            match r {
                Ok(ri) => {
                    &&& ri == old(nodes)@.len()
                    &&& old(nodes)@.len() < final(nodes)@.len()
                    &&& final(nodes)@.len() - old(nodes)@.len() <= (hi - lo) - 1
                },
                Err(e) => e == BlockError::EmptyHuffmanTree || e == BlockError::EqualSymbols,
            },
        decreases hi - lo, 33 - level,
    {
        // Levels past 31 are only reachable by code groups whose members
        // can no longer be told apart by any bit.
        if level >= 32 {
            return Err(BlockError::EqualSymbols);
        }
        let test: u32 = if level == 0 {
            1
        } else {
            1u32 << ((32 - level) as u32)
        };

        // The first index in `lo..hi` whose code has the tested bit set.
        let mut first_right = hi;
        let mut i = lo;
        while i < hi
            invariant
                lo <= i <= hi <= codes@.len(),
                lo <= first_right <= hi,
            decreases hi - i,
        {
            if first_right == hi && (#[verifier::truncate] ((codes[i] >> 16) as u32)) & test != 0 {
                first_right = i;
            }
            i = i + 1;
        }

        if first_right == hi || first_right == lo {
            // One side is empty: skip this bit level.
            if hi - lo < 2 {
                return Err(BlockError::EmptyHuffmanTree);
            }
            if level == 31 {
                return Err(BlockError::EqualSymbols);
            }
            return Self::build_node(nodes, codes, lo, hi, level + 1, Ghost(alpha));
        }

        let node_index = nodes.len();
        nodes.push(HuffmanNode { right: HuffmanNodeState::Done(0), left: HuffmanNodeState::Done(0) });

        let left_slot = if first_right - lo == 1 {
            HuffmanNodeState::Done((codes[lo] % 0x10000) as u16)
        } else {
            match Self::build_node(nodes, codes, lo, first_right, level + 1, Ghost(alpha)) {
                Ok(v) => HuffmanNodeState::Next(v),
                Err(e) => {
                    return Err(e);
                },
            }
        };

        let right_slot = if hi - first_right == 1 {
            HuffmanNodeState::Done((codes[first_right] % 0x10000) as u16)
        } else {
            match Self::build_node(nodes, codes, first_right, hi, level + 1, Ghost(alpha)) {
                Ok(v) => HuffmanNodeState::Next(v),
                Err(e) => {
                    return Err(e);
                },
            }
        };

        let node = HuffmanNode { right: right_slot, left: left_slot };
        nodes[node_index] = node;
        Ok(node_index as u16)
    }

    /// Decode one symbol, consuming bits until a leaf; `None` when the
    /// bits run out first.
    pub fn decode(&self, reader: &mut BitReader<'_>) -> (r: Option<u16>)
        requires
            self.wf(),
            old(reader).wf(),
        ensures
            final(reader).wf(),
            final(reader).data() == old(reader).data(),
            old(reader).bit_pos() <= final(reader).bit_pos(),
            match decode_from(
                self.nodes_seq(),
                old(reader).data(),
                old(reader).bit_pos(),
                0,
            ) {
                Some(vp) => r == Some(vp.0) && final(reader).bit_pos() == vp.1,
                None => r is None && final(reader).bit_pos() == 8 * old(reader).data().len(),
            },
    {
        let ghost data = reader.data();
        let ghost start = reader.bit_pos();
        let mut idx: usize = 0;
        loop
            invariant
                reader.wf(),
                reader.data() == data,
                data == old(reader).data(),
                start == old(reader).bit_pos(),
                start <= reader.bit_pos(),
                self.wf(),
                idx < self.nodes_seq().len(),
                decode_from(self.nodes_seq(), data, start, 0) == decode_from(
                    self.nodes_seq(),
                    data,
                    reader.bit_pos(),
                    idx as int,
                ),
            decreases self.nodes_seq().len() - idx,
        {
            let ghost prev_pos = reader.bit_pos();
            match reader.read_bit() {
                Some(bit) => {
                    let node = &self.nodes[idx];
                    let slot = if bit {
                        node.left
                    } else {
                        node.right
                    };
                    match slot {
                        HuffmanNodeState::Done(v) => {
                            proof {
                                assert(decode_from(self.nodes_seq(), data, prev_pos, idx as int)
                                    == Some((v, prev_pos + 1)));
                            }
                            return Some(v);
                        },
                        HuffmanNodeState::Next(j) => {
                            proof {
                                assert(node_wf(
                                    self.nodes_seq()[idx as int],
                                    idx as int,
                                    self.nodes_seq().len() as int,
                                    0x10000,
                                ));
                                assert(decode_from(self.nodes_seq(), data, prev_pos, idx as int)
                                    == decode_from(self.nodes_seq(), data, prev_pos + 1, j as int));
                            }
                            idx = j as usize;
                        },
                    }
                },
                None => {
                    proof {
                        assert(decode_from(self.nodes_seq(), data, prev_pos, idx as int) is None);
                    }
                    return None;
                },
            }
        }
    }
}

/// In a tree that is well formed for `alpha`, every decoded symbol is
/// below `alpha`.
pub proof fn lemma_decode_leaf_bound(
    nodes: Seq<HuffmanNode>,
    s: Seq<u8>,
    pos: int,
    idx: int,
    alpha: int,
    v: u16,
    p: int,
)
    requires
        forall|i: int|
            0 <= i < nodes.len() ==> node_wf(#[trigger] nodes[i], i, nodes.len() as int, alpha),
        decode_from(nodes, s, pos, idx) == Some((v, p)),
    ensures
        v < alpha,
        pos < p <= 8 * s.len(),
    decreases nodes.len() - idx,
{
    let slot = if bit_at(s, pos) {
        nodes[idx].left
    } else {
        nodes[idx].right
    };
    match slot {
        HuffmanNodeState::Done(_) => {},
        HuffmanNodeState::Next(j) => {
            lemma_decode_leaf_bound(nodes, s, pos + 1, j as int, alpha, v, p);
        },
    }
}

/// Sort a vector of keys ascending (insertion sort). Every element of the
/// result already occurred in the input.
fn sort_keys(v: &mut Vec<u64>)
    ensures
        final(v)@.len() == old(v)@.len(),
        forall|a: int, b: int| 0 <= a < b < final(v)@.len() ==> final(v)@[a] <= final(v)@[b],
        forall|i: int| 0 <= i < final(v)@.len() ==> old(v)@.contains(#[trigger] final(v)@[i]),
{
    let ghost orig = v@;
    proof {
        assert forall|q: int| 0 <= q < v@.len() implies orig.contains(#[trigger] v@[q]) by {
            assert(orig[q] == v@[q]);
        }
    }
    let n = v.len();
    if n < 2 {
        return;
    }
    let mut i: usize = 1;
    while i < n
        invariant
            v@.len() == n == orig.len(),
            1 <= i <= n,
            forall|a: int, b: int| 0 <= a < b < i ==> v@[a] <= v@[b],
            forall|q: int| 0 <= q < n ==> orig.contains(#[trigger] v@[q]),
        decreases n - i,
    {
        let mut j: usize = i;
        while j > 0 && v[j - 1] > v[j]
            invariant
                v@.len() == n == orig.len(),
                j <= i < n,
                forall|a: int, b: int| 0 <= a < b <= i && b != j ==> v@[a] <= v@[b],
                forall|q: int| 0 <= q < n ==> orig.contains(#[trigger] v@[q]),
            decreases j,
        {
            let x = v[j - 1];
            let y = v[j];
            v[j - 1] = y;
            v[j] = x;
            proof {
                assert forall|q: int| 0 <= q < v@.len() implies orig.contains(
                    #[trigger] v@[q],
                ) by {
                    assert(v@[q] == x || v@[q] == y || v@[q] == old(v)@[q] || orig.contains(
                        v@[q],
                    ));
                }
            }
            j = j - 1;
        }
        i = i + 1;
    }
}

} // verus!
