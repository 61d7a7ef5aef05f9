//! The file layout of a graph: little-endian 32-bit words, first the degree
//! bound, then the entry point, then for every node its out-degree and the
//! targets of its edges.

use crate::bytes::{le32, lemma_le32_back, of_le32, push_le32, read_le32};
use vstd::prelude::*;

verus! {

/// The bytes of `words`, each in little-endian order.
pub open spec fn word_bytes(words: Seq<u32>) -> Seq<u8>
    decreases words.len(),
{
    if words.len() == 0 {
        Seq::empty()
    } else {
        word_bytes(words.drop_last()) + le32(words.last())
    }
}

/// The whole words that `bytes` starts with; up to three bytes behind them are
/// left over.
pub open spec fn words_of(bytes: Seq<u8>) -> Seq<u32> {
    Seq::new(
        bytes.len() / 4,
        |i: int| of_le32(bytes.subrange(4 * i, 4 * i + 4)),
    )
}

/// The words of the nodes: out-degree, then targets.
pub open spec fn node_words(adj: Seq<Seq<u32>>) -> Seq<u32>
    decreases adj.len(),
{
    if adj.len() == 0 {
        Seq::empty()
    } else {
        node_words(adj.drop_last()) + seq![adj.last().len() as u32] + adj.last()
    }
}

/// The words of a graph.
pub open spec fn graph_words(width: u32, enter: u32, adj: Seq<Seq<u32>>) -> Seq<u32> {
    seq![width, enter] + node_words(adj)
}

/// The nodes that the words from `p` on describe, up to the end or to the first
/// whose targets are cut short.
pub open spec fn nodes_from(words: Seq<u32>, p: int) -> Seq<Seq<u32>>
    decreases words.len() - p,
{
    if p < 0 || p >= words.len() || p + 1 + words[p] > words.len() {
        Seq::empty()
    } else {
        seq![words.subrange(p + 1, p + 1 + words[p])] + nodes_from(words, p + 1 + words[p])
    }
}

/// The words from `p` on describe whole nodes.
pub open spec fn whole_from(words: Seq<u32>, p: int) -> bool
    decreases words.len() - p,
{
    if p < 0 || p >= words.len() {
        true
    } else {
        p + 1 + words[p] <= words.len() && whole_from(words, p + 1 + words[p])
    }
}

// ---------------------------------------------------------------------------
// Laws
// ---------------------------------------------------------------------------

/// Reading the bytes of words gives the words back.
pub proof fn lemma_words_back(words: Seq<u32>)
    ensures
        word_bytes(words).len() == 4 * words.len(),
        words_of(word_bytes(words)) == words,
    decreases words.len(),
{
    if words.len() > 0 {
        let w = words.drop_last();
        lemma_le32_back(words.last());
        lemma_words_back(w);
        let a = word_bytes(w);
        let b = word_bytes(words);
        let l = w.len() as int;
        assert(b.len() == a.len() + 4);
        assert forall|i: int| 0 <= i < words.len() implies #[trigger] words_of(b)[i] == words[i] by {
            if i < l {
                assert(b.subrange(4 * i, 4 * i + 4) =~= a.subrange(4 * i, 4 * i + 4));
                assert(words_of(a)[i] == w[i]);
            } else {
                assert(b.subrange(4 * i, 4 * i + 4) =~= le32(words.last()));
            }
        }
        assert(words_of(b) =~= words);
    } else {
        assert(words_of(word_bytes(words)) =~= words);
    }
}

/// The words of the nodes in front do not change what those behind describe.
proof fn lemma_node_words_add(adj: Seq<Seq<u32>>, k: int)
    requires
        0 <= k <= adj.len(),
    ensures
        node_words(adj) == node_words(adj.take(k)) + node_words(adj.skip(k)),
    decreases adj.len(),
{
    if k == adj.len() {
        assert(adj.take(k) =~= adj);
        assert(adj.skip(k) =~= Seq::<Seq<u32>>::empty());
        assert(node_words(adj) =~= node_words(adj.take(k)) + node_words(adj.skip(k)));
    } else {
        let t = adj.drop_last();
        lemma_node_words_add(t, k);
        assert(t.take(k) =~= adj.take(k));
        assert(t.skip(k) =~= adj.skip(k).drop_last());
        assert(adj.skip(k).last() == adj.last());
        assert(node_words(adj) =~= node_words(adj.take(k)) + node_words(adj.skip(k)));
    }
}

proof fn lemma_nodes_back_from(words: Seq<u32>, p: int, adj: Seq<Seq<u32>>)
    requires
        0 <= p <= words.len(),
        words.skip(p) == node_words(adj),
        forall|i: int| 0 <= i < adj.len() ==> (#[trigger] adj[i]).len() <= u32::MAX,
    ensures
        nodes_from(words, p) == adj,
        whole_from(words, p),
    decreases adj.len(),
{
    if adj.len() > 0 {
        lemma_node_words_add(adj, 1);
        let head = adj.take(1);
        let rest = adj.skip(1);
        let first = adj[0];
        assert(head.drop_last() =~= Seq::<Seq<u32>>::empty());
        assert(head.last() == first);
        assert(node_words(head.drop_last()) =~= Seq::<u32>::empty());
        assert(node_words(head) =~= seq![first.len() as u32] + first);
        let tail = words.skip(p);
        assert(tail =~= seq![first.len() as u32] + first + node_words(rest));
        assert(tail.len() == words.len() - p);
        assert(tail.len() == 1 + first.len() + node_words(rest).len());
        assert(words.skip(p)[0] == words[p]);
        assert(words[p] == first.len());
        let q = p + 1 + words[p];
        assert(words.subrange(p + 1, q) =~= first) by {
            assert forall|i: int| 0 <= i < first.len() implies #[trigger] words.subrange(
                p + 1,
                q,
            )[i] == first[i] by {
                assert(words.skip(p)[i + 1] == words[p + (i + 1)]);
            }
        }
        assert(words.skip(q) =~= node_words(rest)) by {
            assert forall|i: int| 0 <= i < words.len() - q implies #[trigger] words.skip(q)[i]
                == node_words(rest)[i] by {
                assert(words.skip(p)[1 + first.len() + i] == words[p + (1 + first.len() + i)]);
            }
        }
        assert forall|i: int| 0 <= i < rest.len() implies (#[trigger] rest[i]).len()
            <= u32::MAX by {
            assert(rest[i] == adj[i + 1]);
        }
        lemma_nodes_back_from(words, q, rest);
        assert(nodes_from(words, p) =~= adj);
    } else {
        assert(words.skip(p).len() == 0);
        assert(nodes_from(words, p) =~= adj);
    }
}

/// Reading what was written gives the graph back: the entry point and the edges
/// of every node.
pub proof fn lemma_graph_back(width: u32, enter: u32, adj: Seq<Seq<u32>>)
    requires
        forall|i: int| 0 <= i < adj.len() ==> (#[trigger] adj[i]).len() <= u32::MAX,
    ensures
        ({
            let words = words_of(word_bytes(graph_words(width, enter, adj)));
            &&& words.len() >= 2
            &&& words[0] == width
            &&& words[1] == enter
            &&& whole_from(words, 2)
            &&& nodes_from(words, 2) == adj
        }),
{
    let words = graph_words(width, enter, adj);
    lemma_words_back(words);
    assert(words.skip(2) =~= node_words(adj));
    lemma_nodes_back_from(words, 2, adj);
}

// ---------------------------------------------------------------------------
// Words in bytes
// ---------------------------------------------------------------------------

/// Appends a word.
pub fn push_word(bytes: &mut Vec<u8>, word: u32)
    ensures
        final(bytes)@ == old(bytes)@ + le32(word),
        forall|words: Seq<u32>| #[trigger]
            word_bytes(words) == old(bytes)@ ==> final(bytes)@ == word_bytes(words.push(word)),
{
    push_le32(bytes, word);
    proof {
        assert forall|words: Seq<u32>| #[trigger] word_bytes(words) == old(bytes)@ implies bytes@
            == word_bytes(words.push(word)) by {
            assert(words.push(word).drop_last() =~= words);
        }
    }
}

/// The word with index `i`, if there is one.
pub fn word_at(bytes: &[u8], i: usize) -> (w: Option<u32>)
    ensures
        w is Some <==> i < words_of(bytes@).len(),
        w matches Some(x) ==> x == words_of(bytes@)[i as int],
{
    if i < bytes.len() / 4 {
        Some(read_le32(bytes, 4 * i))
    } else {
        None
    }
}

} // verus!
