//! The laws the library states of itself, proved over the spec functions
//! that the public contracts use.

use vstd::prelude::*;

use crate::builder::bump;
use crate::builder::count_seq;
use crate::builder::count_texts;
use crate::builder::has_key;
use crate::builder::leaves;
use crate::builder::lemma_built_branch;
use crate::builder::lemma_built_contains;
use crate::builder::lemma_count_texts_keys;
use crate::builder::lemma_leaves_index;
use crate::builder::lemma_sum_count_texts;
use crate::builder::mk_leaf;
use crate::builder::occurs;
use crate::builder::pairs_contain;
use crate::builder::sum_freqs;
use crate::builder::total_len;
use crate::builder::tree_of;
use crate::node::Node;
use crate::node::lemma_walk_path;
use crate::tree::all_found;
use crate::tree::decoded;
use crate::tree::encoded_bits;
use crate::tree::HuffmanTree;

verus! {

proof fn lemma_decoded_of_encoded(root: Node, s: Seq<char>, bits: Seq<bool>, pos: nat)
    requires
        all_found(root, s),
        root is Branch || s.len() == 0,
        pos <= bits.len(),
        bits.subrange(pos as int, bits.len() as int) == encoded_bits(root, s),
    ensures
        decoded(root, bits, pos) == Some(s),
    decreases s.len(),
{
    if s.len() == 0 {
        assert(bits.len() - pos == encoded_bits(root, s).len());
        assert(decoded(root, bits, pos) == Some(Seq::<char>::empty()));
        assert(Seq::<char>::empty() =~= s);
    } else {
        let c = s[0];
        assert(root.contains(c));
        let path = root.path_of(c);
        assert(path.len() >= 1);
        let rest = encoded_bits(root, s.drop_first());
        assert(encoded_bits(root, s) == path + rest);
        assert(bits.len() - pos == path.len() + rest.len());
        assert forall|x: int| 0 <= x < path.len() implies bits[pos + x] == path[x] by {
            assert(bits.subrange(pos as int, bits.len() as int)[x] == bits[pos + x]);
            assert((path + rest)[x] == path[x]);
        }
        assert(bits.subrange(pos as int, pos + path.len() as int) =~= path);
        lemma_walk_path(root, c, bits, pos);
        let p = (pos + path.len()) as nat;
        assert forall|x: int| 0 <= x < rest.len() implies bits[p + x] == rest[x] by {
            assert(bits.subrange(pos as int, bits.len() as int)[path.len() + x] == bits[p + x]);
            assert((path + rest)[path.len() + x] == rest[x]);
        }
        assert(bits.subrange(p as int, bits.len() as int) =~= rest);
        lemma_decoded_of_encoded(root, s.drop_first(), bits, p);
        assert(decoded(root, bits, pos) == Some(seq![c] + s.drop_first()));
        assert(seq![c] + s.drop_first() =~= s);
    }
}

/// Round trip: a string whose every character has a leaf in the tree is
/// returned unchanged by decoding its own encoding. A tree whose root is a
/// leaf is excluded: its paths are empty, so encoding such a string loses
/// every repetition.
pub proof fn lemma_round_trip(root: Node, s: Seq<char>)
    requires
        all_found(root, s),
        root is Branch || s.len() == 0,
    ensures
        decoded(root, encoded_bits(root, s), 0) == Some(s),
{
    let bits = encoded_bits(root, s);
    assert(bits.subrange(0, bits.len() as int) =~= bits);
    lemma_decoded_of_encoded(root, s, bits, 0);
}

/// Construction is deterministic: two trees built from the same texts are
/// structurally equal.
pub proof fn lemma_construct_deterministic(a: HuffmanTree, b: HuffmanTree, texts: Seq<Seq<char>>)
    requires
        a.root == tree_of(texts),
        b.root == tree_of(texts),
    ensures
        a == b,
{
}

proof fn lemma_count_uniform(s: Seq<char>, c: char, k: nat)
    requires
        k >= 1,
        forall|i: int| 0 <= i < s.len() ==> s[i] == c,
    ensures
        count_seq(seq![(c, k)], s) == seq![(c, (k + s.len()) as nat)],
    decreases s.len(),
{
    if s.len() == 0 {
        assert(seq![(c, k)] =~= seq![(c, (k + s.len()) as nat)]);
    } else {
        assert(bump(seq![(c, k)], c) == seq![(c, (k + 1) as nat)] + seq![(c, k)].drop_first());
        assert(seq![(c, (k + 1) as nat)] + seq![(c, k)].drop_first() =~= seq![(c, (k + 1) as nat)]);
        lemma_count_uniform(s.drop_first(), c, k + 1);
        assert(count_seq(seq![(c, k)], s) == count_seq(bump(seq![(c, k)], s[0]), s.drop_first()));
    }
}

proof fn lemma_encoded_bits_leaf(c: char, s: Seq<char>)
    requires
        forall|i: int| 0 <= i < s.len() ==> s[i] == c,
    ensures
        encoded_bits(Node::Leaf(c), s) == Seq::<bool>::empty(),
    decreases s.len(),
{
    if s.len() > 0 {
        lemma_encoded_bits_leaf(c, s.drop_first());
        assert(encoded_bits(Node::Leaf(c), s) == Node::Leaf(c).path_of(s[0]) + encoded_bits(
            Node::Leaf(c),
            s.drop_first(),
        ));
        assert(Node::Leaf(c).path_of(s[0]) + Seq::<bool>::empty() =~= Seq::<bool>::empty());
    }
}

/// A corpus of one repeated character yields the degenerate tree: a lone
/// leaf holding it. Its path is empty, encoding the corpus yields no bits,
/// and decoding no bits yields the empty string.
pub proof fn lemma_single_symbol(s: Seq<char>, c: char)
    requires
        s.len() > 0,
        forall|i: int| 0 <= i < s.len() ==> s[i] == c,
    ensures
        tree_of(seq![s]) == Node::Leaf(c),
        Node::Leaf(c).path_of(c) == Seq::<bool>::empty(),
        encoded_bits(Node::Leaf(c), s) == Seq::<bool>::empty(),
        decoded(Node::Leaf(c), Seq::<bool>::empty(), 0) == Some(Seq::<char>::empty()),
{
    let texts = seq![s];
    assert(texts.drop_first() =~= Seq::<Seq<char>>::empty());
    assert(count_texts(Seq::empty(), texts) == count_texts(
        count_seq(Seq::empty(), s),
        texts.drop_first(),
    ));
    assert(count_texts(count_seq(Seq::empty(), s), texts.drop_first()) == count_seq(
        Seq::empty(),
        s,
    ));
    assert(count_seq(Seq::<(char, nat)>::empty(), s) == count_seq(
        bump(Seq::empty(), c),
        s.drop_first(),
    ));
    assert(bump(Seq::<(char, nat)>::empty(), c) == seq![(c, 1nat)]);
    lemma_count_uniform(s.drop_first(), c, 1nat);
    assert(count_seq(Seq::<(char, nat)>::empty(), s) == seq![(c, s.len() as nat)]);
    let freqs = seq![(c, s.len() as nat)];
    assert(freqs.drop_first() =~= Seq::<(char, nat)>::empty());
    assert(leaves(freqs.drop_first()) == Seq::<(Node, nat)>::empty());
    assert(leaves(freqs) == seq![mk_leaf(freqs[0])] + Seq::<(Node, nat)>::empty());
    assert(leaves(freqs) =~= seq![mk_leaf((c, s.len() as nat))]);
    assert(mk_leaf((c, s.len() as nat)).0 == Node::Leaf(c));
    assert(tree_of(texts) == Node::Leaf(c));
    lemma_encoded_bits_leaf(c, s);
}


/// A tree built from a corpus with at least one character holds exactly the
/// characters of that corpus: `find` and `encode` fail on any other, and on
/// no character of the corpus.
pub proof fn lemma_unindexed_symbol(texts: Seq<Seq<char>>, c: char)
    requires
        total_len(texts) > 0,
    ensures
        tree_of(texts).contains(c) <==> occurs(texts, c),
{
    let count = count_texts(Seq::empty(), texts);
    lemma_count_texts_keys(Seq::empty(), texts, c);
    if has_key(Seq::<(char, nat)>::empty(), c) {
        let k = choose|k: int|
            0 <= k < Seq::<(char, nat)>::empty().len() && Seq::<(char, nat)>::empty()[k].0 == c;
        assert(false);
    }
    lemma_sum_count_texts(Seq::empty(), texts);
    assert(sum_freqs(Seq::<(char, nat)>::empty()) == 0);
    assert(count.len() > 0) by {
        if count.len() == 0 {
            assert(sum_freqs(count) == 0);
        }
    }
    lemma_leaves_index(count);
    if pairs_contain(leaves(count), c) {
        let k = choose|k: int|
            0 <= k < leaves(count).len() && leaves(count)[k].0.contains(c);
        assert(leaves(count)[k] == mk_leaf(count[k]));
        assert(count[k].0 == c);
        assert(has_key(count, c));
    }
    if has_key(count, c) {
        let k = choose|k: int| 0 <= k < count.len() && count[k].0 == c;
        assert(leaves(count)[k] == mk_leaf(count[k]));
        assert(leaves(count)[k].0.contains(c));
        assert(pairs_contain(leaves(count), c));
    }
    lemma_built_contains(leaves(count), c);
}


/// A stream that runs out inside a path decodes to no string at all: the
/// walk from the root finds no leaf, so decoding fails.
pub proof fn lemma_truncated_stream(root: Node, bits: Seq<bool>, pos: nat)
    requires
        pos < bits.len(),
        root.walk(bits, pos) is None,
    ensures
        decoded(root, bits, pos) is None,
{
}


/// A corpus holding two distinct characters yields a tree whose root is a
/// branch — the shape on which decoding a non-empty stream is meaningful.
pub proof fn lemma_two_symbols_branch(texts: Seq<Seq<char>>, c1: char, c2: char)
    requires
        occurs(texts, c1),
        occurs(texts, c2),
        c1 != c2,
    ensures
        tree_of(texts) is Branch,
{
    let count = count_texts(Seq::empty(), texts);
    lemma_count_texts_keys(Seq::empty(), texts, c1);
    lemma_count_texts_keys(Seq::empty(), texts, c2);
    let k1 = choose|k: int| 0 <= k < count.len() && count[k].0 == c1;
    let k2 = choose|k: int| 0 <= k < count.len() && count[k].0 == c2;
    assert(k1 != k2);
    assert(count.len() >= 2);
    lemma_leaves_index(count);
    lemma_built_branch(leaves(count));
}

} // verus!
