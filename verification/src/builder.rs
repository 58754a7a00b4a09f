//! Frequency counting and the greedy merge that constructs a code tree.
//!
//! The whole construction is deterministic: characters are counted in
//! first-occurrence order, and the merge always removes the two entries of
//! lowest frequency, the earliest entry winning a tie.

use vstd::prelude::*;

use crate::node::Node;

verus! {

/// Frequency entries as counted, with the machine-sized counts read as
/// mathematical integers.
pub open spec fn view_freqs(s: Seq<(char, usize)>) -> Seq<(char, nat)> {
    s.map_values(|p: (char, usize)| (p.0, p.1 as nat))
}

/// The character sequences of a sequence of strings.
pub open spec fn views_of(text: Seq<String>) -> Seq<Seq<char>> {
    text.map_values(|s: String| s@)
}

/// One character observed: the first entry holding it is incremented, or an
/// entry with count one is appended when none holds it.
pub open spec fn bump(freqs: Seq<(char, nat)>, c: char) -> Seq<(char, nat)>
    decreases freqs.len(),
{
    if freqs.len() == 0 {
        seq![(c, 1nat)]
    } else if freqs[0].0 == c {
        seq![(freqs[0].0, (freqs[0].1 + 1) as nat)] + freqs.drop_first()
    } else {
        seq![freqs[0]] + bump(freqs.drop_first(), c)
    }
}

/// The frequency entries after observing every character of `s` in order.
pub open spec fn count_seq(freqs: Seq<(char, nat)>, s: Seq<char>) -> Seq<(char, nat)>
    decreases s.len(),
{
    if s.len() == 0 {
        freqs
    } else {
        count_seq(bump(freqs, s[0]), s.drop_first())
    }
}

/// The frequency entries after observing every character of every text of
/// `texts`, in order.
pub open spec fn count_texts(freqs: Seq<(char, nat)>, texts: Seq<Seq<char>>) -> Seq<(char, nat)>
    decreases texts.len(),
{
    if texts.len() == 0 {
        freqs
    } else {
        count_texts(count_seq(freqs, texts[0]), texts.drop_first())
    }
}

/// The number of characters over all the texts.
pub open spec fn total_len(texts: Seq<Seq<char>>) -> nat
    decreases texts.len(),
{
    if texts.len() == 0 {
        0nat
    } else {
        texts[0].len() + total_len(texts.drop_first())
    }
}

/// The sum of all frequency counts.
pub open spec fn sum_freqs(freqs: Seq<(char, nat)>) -> nat
    decreases freqs.len(),
{
    if freqs.len() == 0 {
        0nat
    } else {
        freqs[0].1 + sum_freqs(freqs.drop_first())
    }
}

proof fn lemma_entry_le_sum(freqs: Seq<(char, nat)>, k: int)
    requires
        0 <= k < freqs.len(),
    ensures
        freqs[k].1 <= sum_freqs(freqs),
    decreases k,
{
    if k > 0 {
        lemma_entry_le_sum(freqs.drop_first(), k - 1);
    }
}

proof fn lemma_sum_bump(freqs: Seq<(char, nat)>, c: char)
    ensures
        sum_freqs(bump(freqs, c)) == sum_freqs(freqs) + 1,
    decreases freqs.len(),
{
    if freqs.len() == 0 {
        assert(seq![(c, 1nat)].drop_first() =~= Seq::<(char, nat)>::empty());
        assert(sum_freqs(seq![(c, 1nat)].drop_first()) == 0);
        assert(sum_freqs(bump(freqs, c)) == 1);
    } else if freqs[0].0 == c {
        assert((seq![(freqs[0].0, (freqs[0].1 + 1) as nat)] + freqs.drop_first()).drop_first()
            =~= freqs.drop_first());
    } else {
        lemma_sum_bump(freqs.drop_first(), c);
        assert((seq![freqs[0]] + bump(freqs.drop_first(), c)).drop_first() =~= bump(
            freqs.drop_first(),
            c,
        ));
    }
}

/// When the first entry holding `c` stands at `k`, a bump is the update of
/// that entry.
proof fn lemma_bump_found(freqs: Seq<(char, nat)>, c: char, k: int)
    requires
        0 <= k < freqs.len(),
        freqs[k].0 == c,
        forall|j: int| 0 <= j < k ==> freqs[j].0 != c,
    ensures
        bump(freqs, c) == freqs.update(k, (c, freqs[k].1 + 1)),
    decreases k,
{
    if k == 0 {
        assert(seq![(freqs[0].0, (freqs[0].1 + 1) as nat)] + freqs.drop_first() =~= freqs.update(
            0,
            (c, freqs[0].1 + 1),
        ));
    } else {
        assert(forall|j: int| 0 <= j < k - 1 ==> freqs.drop_first()[j].0 != c);
        lemma_bump_found(freqs.drop_first(), c, k - 1);
        assert(seq![freqs[0]] + freqs.drop_first().update(k - 1, (c, freqs[k].1 + 1))
            =~= freqs.update(k, (c, freqs[k].1 + 1)));
    }
}

/// When no entry holds `c`, a bump appends an entry with count one.
proof fn lemma_bump_absent(freqs: Seq<(char, nat)>, c: char)
    requires
        forall|j: int| 0 <= j < freqs.len() ==> freqs[j].0 != c,
    ensures
        bump(freqs, c) == freqs.push((c, 1nat)),
    decreases freqs.len(),
{
    if freqs.len() == 0 {
        assert(seq![(c, 1nat)] =~= freqs.push((c, 1nat)));
    } else {
        assert(forall|j: int|
            0 <= j < freqs.drop_first().len() ==> freqs.drop_first()[j].0 != c);
        lemma_bump_absent(freqs.drop_first(), c);
        assert(seq![freqs[0]] + freqs.drop_first().push((c, 1nat)) =~= freqs.push((c, 1nat)));
    }
}

proof fn lemma_count_seq_push(freqs: Seq<(char, nat)>, s: Seq<char>, c: char)
    ensures
        count_seq(freqs, s.push(c)) == bump(count_seq(freqs, s), c),
    decreases s.len(),
{
    if s.len() == 0 {
        assert(s.push(c).drop_first() =~= Seq::<char>::empty());
        assert(count_seq(freqs, s.push(c)) == count_seq(bump(freqs, c), s.push(c).drop_first()));
    } else {
        assert(s.push(c).drop_first() =~= s.drop_first().push(c));
        lemma_count_seq_push(bump(freqs, s[0]), s.drop_first(), c);
    }
}

proof fn lemma_count_texts_push(freqs: Seq<(char, nat)>, texts: Seq<Seq<char>>, t: Seq<char>)
    ensures
        count_texts(freqs, texts.push(t)) == count_seq(count_texts(freqs, texts), t),
    decreases texts.len(),
{
    if texts.len() == 0 {
        assert(texts.push(t).drop_first() =~= Seq::<Seq<char>>::empty());
        assert(count_texts(freqs, texts.push(t)) == count_texts(
            count_seq(freqs, t),
            texts.push(t).drop_first(),
        ));
    } else {
        assert(texts.push(t).drop_first() =~= texts.drop_first().push(t));
        lemma_count_texts_push(count_seq(freqs, texts[0]), texts.drop_first(), t);
    }
}

proof fn lemma_total_len_push(texts: Seq<Seq<char>>, t: Seq<char>)
    ensures
        total_len(texts.push(t)) == total_len(texts) + t.len(),
    decreases texts.len(),
{
    if texts.len() == 0 {
        assert(texts.push(t).drop_first() =~= Seq::<Seq<char>>::empty());
        assert(total_len(texts.push(t).drop_first()) == 0);
    } else {
        assert(texts.push(t).drop_first() =~= texts.drop_first().push(t));
        lemma_total_len_push(texts.drop_first(), t);
        assert(total_len(texts.push(t)) == texts[0].len() + total_len(
            texts.drop_first().push(t),
        ));
    }
}

proof fn lemma_total_len_take(texts: Seq<Seq<char>>, k: int)
    requires
        0 <= k <= texts.len(),
    ensures
        total_len(texts.take(k)) <= total_len(texts),
    decreases texts.len() - k,
{
    if k == texts.len() {
        assert(texts.take(k) =~= texts);
    } else {
        assert(texts.take(k + 1) =~= texts.take(k).push(texts[k]));
        lemma_total_len_push(texts.take(k), texts[k]);
        lemma_total_len_take(texts, k + 1);
    }
}

/// Worklist entries as held by the merge, with the machine-sized
/// frequencies read as mathematical integers.
pub open spec fn view_pairs(s: Seq<(Node, usize)>) -> Seq<(Node, nat)> {
    s.map_values(|p: (Node, usize)| (p.0, p.1 as nat))
}

/// The leaf entry for one frequency entry.
pub open spec fn mk_leaf(p: (char, nat)) -> (Node, nat) {
    (Node::Leaf(p.0), p.1)
}

/// The branch entry joining two worklist entries, the first on the left,
/// with the sum of their frequencies.
pub open spec fn join(a: (Node, nat), b: (Node, nat)) -> (Node, nat) {
    (Node::Branch(Box::new(a.0), Box::new(b.0)), a.1 + b.1)
}

/// The leaf entry for one counted character, as the worklist holds it.
pub open spec fn mk_leaf_entry(c: char, f: usize) -> (Node, usize) {
    (Node::Leaf(c), f)
}

/// One leaf per frequency entry, in entry order.
pub open spec fn leaves(freqs: Seq<(char, nat)>) -> Seq<(Node, nat)>
    decreases freqs.len(),
{
    if freqs.len() == 0 {
        Seq::empty()
    } else {
        seq![mk_leaf(freqs[0])] + leaves(freqs.drop_first())
    }
}

proof fn lemma_leaves_push(freqs: Seq<(char, nat)>, p: (char, nat))
    ensures
        leaves(freqs.push(p)) == leaves(freqs).push(mk_leaf(p)),
    decreases freqs.len(),
{
    if freqs.len() == 0 {
        assert(freqs.push(p).drop_first() =~= Seq::<(char, nat)>::empty());
        assert(leaves(freqs.push(p).drop_first()) == Seq::<(Node, nat)>::empty());
        assert(leaves(freqs.push(p)) =~= leaves(freqs).push(mk_leaf(p)));
    } else {
        assert(freqs.push(p).drop_first() =~= freqs.drop_first().push(p));
        lemma_leaves_push(freqs.drop_first(), p);
        assert(leaves(freqs.push(p)) == seq![mk_leaf(freqs[0])] + leaves(
            freqs.drop_first(),
        ).push(mk_leaf(p)));
        assert(seq![mk_leaf(freqs[0])] + leaves(freqs.drop_first()).push(mk_leaf(p))
            =~= leaves(freqs).push(mk_leaf(p)));
    }
}

/// The sum of the worklist frequencies.
pub open spec fn sum_pairs(pairs: Seq<(Node, nat)>) -> nat
    decreases pairs.len(),
{
    if pairs.len() == 0 {
        0nat
    } else {
        pairs[0].1 + sum_pairs(pairs.drop_first())
    }
}

/// The index of the lowest frequency in the worklist; on a tie the
/// earliest entry wins.
pub open spec fn min_idx(pairs: Seq<(Node, nat)>) -> int
    recommends
        pairs.len() > 0,
    decreases pairs.len(),
{
    if pairs.len() <= 1 {
        0
    } else {
        let m = 1 + min_idx(pairs.drop_first());
        if pairs[0].1 <= pairs[m].1 {
            0
        } else {
            m
        }
    }
}

/// One merge step: remove the entry of lowest frequency, then the entry of
/// lowest frequency among the rest, and append a branch joining them — the
/// entry removed first on the left — with the sum of their frequencies.
pub open spec fn merge_once(pairs: Seq<(Node, nat)>) -> Seq<(Node, nat)>
    recommends
        pairs.len() >= 2,
{
    let i = min_idx(pairs);
    let a = pairs[i];
    let rest = pairs.remove(i);
    let j = min_idx(rest);
    let b = rest[j];
    rest.remove(j).push(join(a, b))
}

/// The root that merging leaves standing: merge steps until one entry
/// remains; a leaf holding the null character when there never was one.
pub open spec fn built(pairs: Seq<(Node, nat)>) -> Node
    decreases pairs.len(),
    via built_decreases
{
    if pairs.len() == 0 {
        Node::Leaf('\0')
    } else if pairs.len() == 1 {
        pairs[0].0
    } else {
        built(merge_once(pairs))
    }
}

#[via_fn]
proof fn built_decreases(pairs: Seq<(Node, nat)>) {
    if pairs.len() > 1 {
        lemma_merge_once_len(pairs);
    }
}

/// The tree constructed from the given texts: count, turn the entries into
/// leaves, and merge.
pub open spec fn tree_of(texts: Seq<Seq<char>>) -> Node {
    built(leaves(count_texts(Seq::empty(), texts)))
}

/// The index of the minimum is in range, no frequency is below it, and
/// every earlier entry is strictly above it.
pub proof fn lemma_min_idx(pairs: Seq<(Node, nat)>)
    requires
        pairs.len() > 0,
    ensures
        0 <= min_idx(pairs) < pairs.len(),
        forall|i: int| 0 <= i < pairs.len() ==> pairs[min_idx(pairs)].1 <= #[trigger] pairs[i].1,
        forall|i: int| 0 <= i < min_idx(pairs) ==> #[trigger] pairs[i].1 > pairs[min_idx(pairs)].1,
    decreases pairs.len(),
{
    if pairs.len() > 1 {
        lemma_min_idx(pairs.drop_first());
        let m = 1 + min_idx(pairs.drop_first());
        assert(forall|i: int| 1 <= i < pairs.len() ==> pairs[i] == pairs.drop_first()[i - 1]);
        assert(forall|i: int| 1 <= i < pairs.len() ==> pairs[m].1 <= pairs[i].1);
    }
}

/// An index that carries the minimum and beats every earlier entry
/// strictly is the index of the minimum.
proof fn lemma_min_idx_unique(pairs: Seq<(Node, nat)>, k: int)
    requires
        0 <= k < pairs.len(),
        forall|i: int| 0 <= i < pairs.len() ==> pairs[k].1 <= pairs[i].1,
        forall|i: int| 0 <= i < k ==> pairs[i].1 > pairs[k].1,
    ensures
        k == min_idx(pairs),
{
    lemma_min_idx(pairs);
    let m = min_idx(pairs);
    if m < k {
        assert(pairs[m].1 > pairs[k].1);
        assert(pairs[m].1 <= pairs[k].1);
    }
    if m > k {
        assert(pairs[k].1 > pairs[m].1);
        assert(pairs[k].1 <= pairs[m].1);
    }
}

proof fn lemma_merge_once_len(pairs: Seq<(Node, nat)>)
    requires
        pairs.len() >= 2,
    ensures
        merge_once(pairs).len() == pairs.len() - 1,
{
    lemma_min_idx(pairs);
    lemma_min_idx(pairs.remove(min_idx(pairs)));
}

proof fn lemma_sum_pairs_remove(pairs: Seq<(Node, nat)>, i: int)
    requires
        0 <= i < pairs.len(),
    ensures
        sum_pairs(pairs) == pairs[i].1 + sum_pairs(pairs.remove(i)),
    decreases i,
{
    if i == 0 {
        assert(pairs.remove(0) =~= pairs.drop_first());
    } else {
        lemma_sum_pairs_remove(pairs.drop_first(), i - 1);
        assert(pairs.remove(i).drop_first() =~= pairs.drop_first().remove(i - 1));
        assert(sum_pairs(pairs.remove(i)) == pairs[0].1 + sum_pairs(
            pairs.remove(i).drop_first(),
        ));
    }
}

proof fn lemma_sum_pairs_push(pairs: Seq<(Node, nat)>, p: (Node, nat))
    ensures
        sum_pairs(pairs.push(p)) == sum_pairs(pairs) + p.1,
    decreases pairs.len(),
{
    if pairs.len() == 0 {
        assert(pairs.push(p).drop_first() =~= Seq::<(Node, nat)>::empty());
        assert(sum_pairs(pairs.push(p).drop_first()) == 0);
    } else {
        assert(pairs.push(p).drop_first() =~= pairs.drop_first().push(p));
        lemma_sum_pairs_push(pairs.drop_first(), p);
        assert(sum_pairs(pairs.push(p)) == pairs[0].1 + sum_pairs(pairs.drop_first().push(p)));
    }
}

/// A merge step keeps the sum of the frequencies.
proof fn lemma_merge_once_sum(pairs: Seq<(Node, nat)>)
    requires
        pairs.len() >= 2,
    ensures
        sum_pairs(merge_once(pairs)) == sum_pairs(pairs),
{
    lemma_min_idx(pairs);
    let i = min_idx(pairs);
    let rest = pairs.remove(i);
    lemma_min_idx(rest);
    let j = min_idx(rest);
    lemma_sum_pairs_remove(pairs, i);
    lemma_sum_pairs_remove(rest, j);
    lemma_sum_pairs_push(rest.remove(j), join(pairs[i], rest[j]));
}

proof fn lemma_sum_pairs_leaves(freqs: Seq<(char, nat)>)
    ensures
        sum_pairs(leaves(freqs)) == sum_freqs(freqs),
    decreases freqs.len(),
{
    if freqs.len() > 0 {
        lemma_sum_pairs_leaves(freqs.drop_first());
        assert((seq![mk_leaf(freqs[0])] + leaves(freqs.drop_first())).drop_first() =~= leaves(
            freqs.drop_first(),
        ));
        assert(sum_pairs(leaves(freqs)) == freqs[0].1 + sum_pairs(leaves(freqs.drop_first())));
    }
}

/// The index of the first entry of lowest frequency in the worklist.
fn min_index(nodes: &Vec<(Node, usize)>) -> (k: usize)
    requires
        nodes@.len() > 0,
    ensures
        k < nodes@.len(),
        k as int == min_idx(view_pairs(nodes@)),
{
    let mut best: usize = 0;
    let mut i: usize = 1;
    while i < nodes.len()
        invariant
            best < i <= nodes@.len(),
            forall|j: int| 0 <= j < i ==> nodes@[best as int].1 <= nodes@[j].1,
            forall|j: int| 0 <= j < best ==> nodes@[j].1 > nodes@[best as int].1,
        decreases nodes@.len() - i,
    {
        if nodes[i].1 < nodes[best].1 {
            best = i;
        }
        i = i + 1;
    }
    proof {
        let vp = view_pairs(nodes@);
        assert(forall|j: int| 0 <= j < vp.len() ==> vp[j].1 == nodes@[j].1);
        lemma_min_idx_unique(vp, best as int);
    }
    best
}

/// Record one observed character in the frequency table: increment the
/// first entry holding it, or append a fresh entry with count one.
fn bump_count(freqs: &mut Vec<(char, usize)>, c: char)
    requires
        sum_freqs(view_freqs(old(freqs)@)) < usize::MAX,
    ensures
        view_freqs(final(freqs)@) == bump(view_freqs(old(freqs)@), c),
{
    let ghost vf = view_freqs(freqs@);
    let mut k: usize = 0;
    while k < freqs.len()
        invariant
            k <= freqs@.len(),
            freqs@ == old(freqs)@,
            vf == view_freqs(freqs@),
            sum_freqs(vf) < usize::MAX,
            forall|j: int| 0 <= j < k ==> freqs@[j].0 != c,
        decreases freqs@.len() - k,
    {
        if freqs[k].0 == c {
            proof {
                lemma_entry_le_sum(vf, k as int);
                lemma_bump_found(vf, c, k as int);
            }
            let f = freqs[k].1;
            freqs.set(k, (c, f + 1));
            proof {
                assert(view_freqs(freqs@) =~= vf.update(k as int, (c, vf[k as int].1 + 1)));
            }
            return;
        }
        k = k + 1;
    }
    freqs.push((c, 1));
    proof {
        lemma_bump_absent(vf, c);
        assert(view_freqs(freqs@) =~= vf.push((c, 1nat)));
    }
}

/// Count the frequency of every character over all the texts, scanning
/// texts and characters in order.
pub fn count_freqs(text: &Vec<String>) -> (freqs: Vec<(char, usize)>)
    requires
        total_len(views_of(text@)) <= usize::MAX,
    ensures
        view_freqs(freqs@) == count_texts(Seq::empty(), views_of(text@)),
        sum_freqs(view_freqs(freqs@)) == total_len(views_of(text@)),
{
    let ghost texts = views_of(text@);
    // Seed room for an alphabet of 256 symbols to limit reallocation.
    let mut freqs: Vec<(char, usize)> = Vec::with_capacity(256);
    proof {
        assert(texts.take(0) =~= Seq::<Seq<char>>::empty());
        assert(view_freqs(freqs@) =~= Seq::<(char, nat)>::empty());
    }
    let mut j: usize = 0;
    while j < text.len()
        invariant
            texts == views_of(text@),
            total_len(texts) <= usize::MAX,
            j <= text@.len(),
            view_freqs(freqs@) == count_texts(Seq::empty(), texts.take(j as int)),
            sum_freqs(view_freqs(freqs@)) == total_len(texts.take(j as int)),
        decreases text@.len() - j,
    {
        let line = &text[j];
        let s = line.as_str();
        let n = s.unicode_len();
        let ghost base = count_texts(Seq::empty(), texts.take(j as int));
        let ghost basesum = total_len(texts.take(j as int));
        proof {
            assert(s@ == texts[j as int]);
            assert(texts[j as int].take(0) =~= Seq::<char>::empty());
        }
        let mut i: usize = 0;
        while i < n
            invariant
                texts == views_of(text@),
                total_len(texts) <= usize::MAX,
                j < text@.len(),
                s@ == texts[j as int],
                n == texts[j as int].len(),
                i <= n,
                base == count_texts(Seq::empty(), texts.take(j as int)),
                basesum == total_len(texts.take(j as int)),
                view_freqs(freqs@) == count_seq(base, texts[j as int].take(i as int)),
                sum_freqs(view_freqs(freqs@)) == basesum + i,
            decreases n - i,
        {
            let c = s.get_char(i);
            proof {
                lemma_total_len_push(texts.take(j as int), texts[j as int]);
                assert(texts.take(j as int).push(texts[j as int]) =~= texts.take(j as int + 1));
                lemma_total_len_take(texts, j as int + 1);
                assert(basesum + i < total_len(texts));
                lemma_sum_bump(view_freqs(freqs@), c);
                lemma_count_seq_push(base, texts[j as int].take(i as int), c);
                assert(texts[j as int].take(i as int).push(texts[j as int][i as int])
                    =~= texts[j as int].take(i as int + 1));
            }
            bump_count(&mut freqs, c);
            i = i + 1;
        }
        proof {
            assert(texts[j as int].take(n as int) =~= texts[j as int]);
            lemma_count_texts_push(Seq::empty(), texts.take(j as int), texts[j as int]);
            assert(texts.take(j as int).push(texts[j as int]) =~= texts.take(j as int + 1));
            lemma_total_len_push(texts.take(j as int), texts[j as int]);
        }
        j = j + 1;
    }
    proof {
        assert(texts.take(text@.len() as int) =~= texts);
    }
    freqs
}


/// Construct the code tree from the given texts: count the frequencies,
/// turn each entry into a leaf, and merge the two lowest entries until one
/// node remains.
pub fn build_root(text: &Vec<String>) -> (root: Node)
    requires
        total_len(views_of(text@)) <= usize::MAX,
    ensures
        root == tree_of(views_of(text@)),
{
    let ghost texts = views_of(text@);
    let freqs = count_freqs(text);
    let ghost vf = view_freqs(freqs@);
    let mut nodes: Vec<(Node, usize)> = Vec::new();
    proof {
        assert(view_pairs(nodes@) =~= Seq::<(Node, nat)>::empty());
        assert(vf.take(0) =~= Seq::<(char, nat)>::empty());
        assert(leaves(vf.take(0)) == Seq::<(Node, nat)>::empty());
    }
    let mut k: usize = 0;
    while k < freqs.len()
        invariant
            k <= freqs@.len(),
            vf == view_freqs(freqs@),
            view_pairs(nodes@) == leaves(vf.take(k as int)),
        decreases freqs@.len() - k,
    {
        let ghost prev = nodes@;
        let (c, f) = freqs[k];
        nodes.push((Node::Leaf(c), f));
        proof {
            assert(nodes@ == prev.push(mk_leaf_entry(c, f)));
            assert(nodes@.len() == prev.len() + 1);
            lemma_leaves_push(vf.take(k as int), vf[k as int]);
            assert(vf.take(k + 1) =~= vf.take(k as int).push(vf[k as int]));
            assert(vf[k as int] == (freqs@[k as int].0, freqs@[k as int].1 as nat));
            assert(mk_leaf(vf[k as int]) == (Node::Leaf(c), f as nat));
            let goal = leaves(vf.take(k as int)).push(mk_leaf(vf[k as int]));
            assert forall|i: int| 0 <= i < nodes@.len() implies view_pairs(nodes@)[i] == goal[i] by {
                if i < prev.len() {
                    assert(nodes@[i] == prev[i]);
                    assert(view_pairs(prev)[i] == leaves(vf.take(k as int))[i]);
                } else {
                    assert(nodes@[i] == mk_leaf_entry(c, f));
                }
            }
            assert(view_pairs(nodes@) =~= goal);
        }
        k = k + 1;
    }
    proof {
        assert(vf.take(freqs@.len() as int) =~= vf);
        lemma_sum_pairs_leaves(vf);
    }
    let ghost target = built(view_pairs(nodes@));
    while nodes.len() > 1
        invariant
            built(view_pairs(nodes@)) == target,
            sum_pairs(view_pairs(nodes@)) <= usize::MAX,
        decreases nodes@.len(),
    {
        let ghost vp = view_pairs(nodes@);
        proof {
            lemma_min_idx(vp);
        }
        let i1 = min_index(&nodes);
        let a = nodes.remove(i1);
        let ghost rest = vp.remove(i1 as int);
        proof {
            assert(view_pairs(nodes@) =~= rest);
            assert(a.0 == vp[i1 as int].0 && a.1 as nat == vp[i1 as int].1);
            lemma_min_idx(rest);
        }
        let i2 = min_index(&nodes);
        let b = nodes.remove(i2);
        proof {
            assert(view_pairs(nodes@) =~= rest.remove(i2 as int));
            assert(b.0 == rest[i2 as int].0 && b.1 as nat == rest[i2 as int].1);
            lemma_sum_pairs_remove(vp, i1 as int);
            lemma_sum_pairs_remove(rest, i2 as int);
            assert(vp[i1 as int].1 + rest[i2 as int].1 <= sum_pairs(vp));
        }
        nodes.push((Node::Branch(Box::new(a.0), Box::new(b.0)), a.1 + b.1));
        proof {
            assert(view_pairs(nodes@) =~= merge_once(vp));
            lemma_merge_once_sum(vp);
            assert(built(vp) == built(merge_once(vp)));
        }
    }
    match nodes.pop() {
        Some(p) => {
            proof {
                assert(built(view_pairs(nodes@).push((p.0, p.1 as nat))) == p.0);
            }
            p.0
        },
        None => {
            proof {
                assert(built(view_pairs(nodes@)) == Node::Leaf('\0'));
            }
            Node::Leaf('\0')
        },
    }
}


/// The character `c` occurs somewhere in the texts.
pub open spec fn occurs(texts: Seq<Seq<char>>, c: char) -> bool {
    exists|i: int, j: int| 0 <= i < texts.len() && 0 <= j < texts[i].len() && texts[i][j] == c
}

/// Some frequency entry holds the character `c`.
pub open spec fn has_key(freqs: Seq<(char, nat)>, c: char) -> bool {
    exists|k: int| 0 <= k < freqs.len() && freqs[k].0 == c
}

/// Some worklist entry's subtree holds a leaf with the character `c`.
pub open spec fn pairs_contain(pairs: Seq<(Node, nat)>, c: char) -> bool {
    exists|k: int| 0 <= k < pairs.len() && pairs[k].0.contains(c)
}

proof fn lemma_bump_keys(freqs: Seq<(char, nat)>, c: char, x: char)
    ensures
        has_key(bump(freqs, c), x) <==> (has_key(freqs, x) || x == c),
    decreases freqs.len(),
{
    if freqs.len() == 0 {
        let b = bump(freqs, c);
        assert(b == seq![(c, 1nat)]);
        if x == c {
            assert(0 <= 0 < b.len() && b[0].0 == x);
        }
        if has_key(b, x) {
            let k = choose|k: int| 0 <= k < b.len() && b[k].0 == x;
            assert(k == 0);
        }
        if has_key(freqs, x) {
            let k = choose|k: int| 0 <= k < freqs.len() && freqs[k].0 == x;
            assert(false);
        }
    } else if freqs[0].0 == c {
        let b = seq![(freqs[0].0, (freqs[0].1 + 1) as nat)] + freqs.drop_first();
        assert(bump(freqs, c) == b);
        assert(b.len() == freqs.len());
        assert(forall|k: int| 0 <= k < b.len() ==> #[trigger] b[k].0 == freqs[k].0);
        if has_key(b, x) {
            let k = choose|k: int| 0 <= k < b.len() && b[k].0 == x;
            assert(freqs[k].0 == x);
        }
        if has_key(freqs, x) {
            let k = choose|k: int| 0 <= k < freqs.len() && freqs[k].0 == x;
            assert(b[k].0 == x);
        }
        if x == c {
            assert(freqs[0].0 == x);
        }
    } else {
        lemma_bump_keys(freqs.drop_first(), c, x);
        let b = seq![freqs[0]] + bump(freqs.drop_first(), c);
        assert(bump(freqs, c) == b);
        let t = bump(freqs.drop_first(), c);
        assert(forall|k: int| 0 <= k < t.len() ==> #[trigger] b[k + 1].0 == t[k].0);
        if has_key(b, x) {
            let k = choose|k: int| 0 <= k < b.len() && b[k].0 == x;
            if k == 0 {
                assert(freqs[0].0 == x);
            } else {
                assert(t[k - 1].0 == x);
                assert(has_key(t, x));
            }
        }
        if has_key(freqs, x) {
            let k = choose|k: int| 0 <= k < freqs.len() && freqs[k].0 == x;
            if k == 0 {
                assert(b[0].0 == x);
            } else {
                assert(freqs.drop_first()[k - 1].0 == x);
                assert(has_key(freqs.drop_first(), x));
                let m = choose|m: int| 0 <= m < t.len() && t[m].0 == x;
                assert(b[m + 1].0 == x);
            }
        }
        if x == c {
            let m = choose|m: int| 0 <= m < t.len() && t[m].0 == x;
            assert(b[m + 1].0 == x);
        }
    }
}

proof fn lemma_contains_split(s: Seq<char>, x: char)
    requires
        s.len() > 0,
    ensures
        s.contains(x) <==> (s[0] == x || s.drop_first().contains(x)),
{
    if s.contains(x) {
        let i = choose|i: int| 0 <= i < s.len() && s[i] == x;
        if i > 0 {
            assert(s.drop_first()[i - 1] == x);
        }
    }
    if s.drop_first().contains(x) {
        let i = choose|i: int| 0 <= i < s.drop_first().len() && s.drop_first()[i] == x;
        assert(s[i + 1] == x);
    }
}

proof fn lemma_count_seq_keys(freqs: Seq<(char, nat)>, s: Seq<char>, x: char)
    ensures
        has_key(count_seq(freqs, s), x) <==> (has_key(freqs, x) || s.contains(x)),
    decreases s.len(),
{
    if s.len() == 0 {
        if s.contains(x) {
            let i = choose|i: int| 0 <= i < s.len() && s[i] == x;
            assert(false);
        }
    } else {
        lemma_count_seq_keys(bump(freqs, s[0]), s.drop_first(), x);
        lemma_bump_keys(freqs, s[0], x);
        lemma_contains_split(s, x);
    }
}

proof fn lemma_occurs_split(texts: Seq<Seq<char>>, x: char)
    requires
        texts.len() > 0,
    ensures
        occurs(texts, x) <==> (texts[0].contains(x) || occurs(texts.drop_first(), x)),
{
    if occurs(texts, x) {
        let (i, j) = choose|i: int, j: int|
            0 <= i < texts.len() && 0 <= j < texts[i].len() && texts[i][j] == x;
        if i == 0 {
            assert(texts[0].contains(x));
        } else {
            assert(texts.drop_first()[i - 1][j] == x);
            assert(occurs(texts.drop_first(), x));
        }
    }
    if texts[0].contains(x) {
        let j = choose|j: int| 0 <= j < texts[0].len() && texts[0][j] == x;
        assert(occurs(texts, x));
    }
    if occurs(texts.drop_first(), x) {
        let (i, j) = choose|i: int, j: int|
            0 <= i < texts.drop_first().len() && 0 <= j < texts.drop_first()[i].len()
                && texts.drop_first()[i][j] == x;
        assert(texts[i + 1][j] == x);
    }
}

/// The counted keys are exactly the characters that occur in the texts.
pub proof fn lemma_count_texts_keys(freqs: Seq<(char, nat)>, texts: Seq<Seq<char>>, x: char)
    ensures
        has_key(count_texts(freqs, texts), x) <==> (has_key(freqs, x) || occurs(texts, x)),
    decreases texts.len(),
{
    if texts.len() == 0 {
        if occurs(texts, x) {
            let (i, j) = choose|i: int, j: int|
                0 <= i < texts.len() && 0 <= j < texts[i].len() && texts[i][j] == x;
            assert(false);
        }
    } else {
        lemma_count_texts_keys(count_seq(freqs, texts[0]), texts.drop_first(), x);
        lemma_count_seq_keys(freqs, texts[0], x);
        lemma_occurs_split(texts, x);
    }
}

proof fn lemma_sum_count_seq(freqs: Seq<(char, nat)>, s: Seq<char>)
    ensures
        sum_freqs(count_seq(freqs, s)) == sum_freqs(freqs) + s.len(),
    decreases s.len(),
{
    if s.len() > 0 {
        lemma_sum_bump(freqs, s[0]);
        lemma_sum_count_seq(bump(freqs, s[0]), s.drop_first());
    }
}

/// The counted frequencies sum to the number of characters observed.
pub proof fn lemma_sum_count_texts(freqs: Seq<(char, nat)>, texts: Seq<Seq<char>>)
    ensures
        sum_freqs(count_texts(freqs, texts)) == sum_freqs(freqs) + total_len(texts),
    decreases texts.len(),
{
    if texts.len() > 0 {
        lemma_sum_count_seq(freqs, texts[0]);
        lemma_sum_count_texts(count_seq(freqs, texts[0]), texts.drop_first());
    }
}

/// Each worklist entry made from a frequency entry is that entry's leaf.
pub proof fn lemma_leaves_index(freqs: Seq<(char, nat)>)
    ensures
        leaves(freqs).len() == freqs.len(),
        forall|k: int| 0 <= k < freqs.len() ==> leaves(freqs)[k] == mk_leaf(freqs[k]),
    decreases freqs.len(),
{
    if freqs.len() > 0 {
        lemma_leaves_index(freqs.drop_first());
        assert(leaves(freqs) == seq![mk_leaf(freqs[0])] + leaves(freqs.drop_first()));
        assert forall|k: int| 0 <= k < freqs.len() implies leaves(freqs)[k] == mk_leaf(
            freqs[k],
        ) by {
            if k > 0 {
                assert(leaves(freqs)[k] == leaves(freqs.drop_first())[k - 1]);
                assert(freqs.drop_first()[k - 1] == freqs[k]);
            }
        }
    }
}

proof fn lemma_remove_contains(pairs: Seq<(Node, nat)>, i: int, x: char)
    requires
        0 <= i < pairs.len(),
    ensures
        pairs_contain(pairs, x) <==> (pairs_contain(pairs.remove(i), x) || pairs[i].0.contains(
            x,
        )),
{
    pairs.remove_ensures(i);
    let rest = pairs.remove(i);
    if pairs_contain(pairs, x) {
        let k = choose|k: int| 0 <= k < pairs.len() && pairs[k].0.contains(x);
        if k < i {
            assert(rest[k] == pairs[k]);
            assert(pairs_contain(rest, x));
        } else if k > i {
            assert(rest[k - 1] == pairs[k]);
            assert(pairs_contain(rest, x));
        }
    }
    if pairs_contain(rest, x) {
        let k = choose|k: int| 0 <= k < rest.len() && rest[k].0.contains(x);
        if k < i {
            assert(pairs[k].0.contains(x));
        } else {
            assert(rest[k] == pairs[k + 1]);
            assert(pairs[k + 1].0.contains(x));
        }
        assert(pairs_contain(pairs, x));
    }
    if pairs[i].0.contains(x) {
        assert(pairs_contain(pairs, x));
    }
}

proof fn lemma_push_contains(pairs: Seq<(Node, nat)>, p: (Node, nat), x: char)
    ensures
        pairs_contain(pairs.push(p), x) <==> (pairs_contain(pairs, x) || p.0.contains(x)),
{
    if pairs_contain(pairs.push(p), x) {
        let k = choose|k: int| 0 <= k < pairs.push(p).len() && pairs.push(p)[k].0.contains(x);
        if k < pairs.len() {
            assert(pairs[k].0.contains(x));
            assert(pairs_contain(pairs, x));
        } else {
            assert(pairs.push(p)[k] == p);
        }
    }
    if pairs_contain(pairs, x) {
        let k = choose|k: int| 0 <= k < pairs.len() && pairs[k].0.contains(x);
        assert(pairs.push(p)[k].0.contains(x));
        assert(pairs_contain(pairs.push(p), x));
    }
    if p.0.contains(x) {
        assert(pairs.push(p)[pairs.len() as int].0.contains(x));
        assert(pairs_contain(pairs.push(p), x));
    }
}

proof fn lemma_merge_once_contains(pairs: Seq<(Node, nat)>, x: char)
    requires
        pairs.len() >= 2,
    ensures
        pairs_contain(merge_once(pairs), x) <==> pairs_contain(pairs, x),
{
    lemma_min_idx(pairs);
    let i = min_idx(pairs);
    let a = pairs[i];
    let rest = pairs.remove(i);
    lemma_min_idx(rest);
    let j = min_idx(rest);
    let b = rest[j];
    lemma_remove_contains(pairs, i, x);
    lemma_remove_contains(rest, j, x);
    lemma_push_contains(rest.remove(j), join(a, b), x);
    assert(join(a, b).0.contains(x) == (a.0.contains(x) || b.0.contains(x)));
}

/// The symbols of the merged tree are exactly the symbols of the worklist.
pub proof fn lemma_built_contains(pairs: Seq<(Node, nat)>, x: char)
    requires
        pairs.len() >= 1,
    ensures
        built(pairs).contains(x) <==> pairs_contain(pairs, x),
    decreases pairs.len(),
{
    if pairs.len() == 1 {
        assert(built(pairs) == pairs[0].0);
        if pairs_contain(pairs, x) {
            let k = choose|k: int| 0 <= k < pairs.len() && pairs[k].0.contains(x);
            assert(k == 0);
        }
        if pairs[0].0.contains(x) {
            assert(pairs_contain(pairs, x));
        }
    } else {
        lemma_merge_once_len(pairs);
        lemma_merge_once_contains(pairs, x);
        lemma_built_contains(merge_once(pairs), x);
    }
}


/// Merging at least two entries always ends in a branch.
pub proof fn lemma_built_branch(pairs: Seq<(Node, nat)>)
    requires
        pairs.len() >= 2,
    ensures
        built(pairs) is Branch,
    decreases pairs.len(),
{
    lemma_min_idx(pairs);
    let i = min_idx(pairs);
    let rest = pairs.remove(i);
    lemma_min_idx(rest);
    let j = min_idx(rest);
    lemma_merge_once_len(pairs);
    if pairs.len() == 2 {
        let merged = merge_once(pairs);
        assert(merged == rest.remove(j).push(join(pairs[i], rest[j])));
        assert(rest.remove(j).len() == 0);
        assert(merged[0] == join(pairs[i], rest[j]));
        assert(built(merged) == merged[0].0);
        assert(join(pairs[i], rest[j]).0 is Branch);
    } else {
        lemma_built_branch(merge_once(pairs));
    }
}

} // verus!
