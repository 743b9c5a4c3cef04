//! The binary prefix tree: frequency analysis, tree construction by
//! minimum-pair merging, and derivation of the symbol codes.

use vstd::prelude::*;
use vstd::seq_lib::lemma_multiset_commutative;

verus! {

/// A node of the binary prefix tree: a leaf bearing one symbol and its
/// frequency, or an internal node owning two subtrees.
#[derive(Debug, PartialEq, Eq)]
pub enum Node {
    Leaf { symbol: u8, frequency: u64 },
    Internal { frequency: u64, left: Box<Node>, right: Box<Node> },
}

impl Node {
    /// The frequency stored at the root of this subtree.
    pub open spec fn spec_frequency(self) -> u64 {
        match self {
            Node::Leaf { frequency, .. } => frequency,
            Node::Internal { frequency, .. } => frequency,
        }
    }

    pub fn frequency(&self) -> (f: u64)
        ensures
            f == self.spec_frequency(),
    {
        match self {
            Node::Leaf { frequency, .. } => *frequency,
            Node::Internal { frequency, .. } => *frequency,
        }
    }
}

/// The leaf symbols of a tree, left to right.
pub open spec fn symbols(t: Node) -> Seq<u8>
    decreases t,
{
    match t {
        Node::Leaf { symbol, .. } => seq![symbol],
        Node::Internal { left, right, .. } => symbols(*left) + symbols(*right),
    }
}

/// Number of leaves of a tree.
pub open spec fn leaf_count(t: Node) -> nat
    decreases t,
{
    match t {
        Node::Leaf { .. } => 1,
        Node::Internal { left, right, .. } => leaf_count(*left) + leaf_count(*right),
    }
}

/// Number of internal (branching) nodes of a tree.
pub open spec fn internal_count(t: Node) -> nat
    decreases t,
{
    match t {
        Node::Leaf { .. } => 0,
        Node::Internal { left, right, .. } => 1 + internal_count(*left) + internal_count(*right),
    }
}

/// Every internal node's frequency equals the sum of its children's.
pub open spec fn freq_wf(t: Node) -> bool
    decreases t,
{
    match t {
        Node::Leaf { .. } => true,
        Node::Internal { frequency, left, right } => {
            &&& frequency == left.spec_frequency() + right.spec_frequency()
            &&& freq_wf(*left)
            &&& freq_wf(*right)
        },
    }
}

/// Every leaf's frequency equals the count that the table gives its symbol.
pub open spec fn leaf_freqs_match(t: Node, counts: Seq<u64>) -> bool
    decreases t,
{
    match t {
        Node::Leaf { symbol, frequency } => frequency == counts[symbol as int],
        Node::Internal { left, right, .. } => leaf_freqs_match(*left, counts) && leaf_freqs_match(
            *right,
            counts,
        ),
    }
}

/// Whether some leaf of the tree bears the symbol.
pub open spec fn contains_sym(t: Node, s: u8) -> bool
    decreases t,
{
    match t {
        Node::Leaf { symbol, .. } => symbol == s,
        Node::Internal { left, right, .. } => contains_sym(*left, s) || contains_sym(*right, s),
    }
}

/// The root-to-leaf path of a symbol: `false` descends left, `true` descends
/// right, into the leftmost subtree that holds the symbol.
pub open spec fn enc_sym(t: Node, s: u8) -> Seq<bool>
    decreases t,
{
    match t {
        Node::Leaf { .. } => Seq::empty(),
        Node::Internal { left, right, .. } => if contains_sym(*left, s) {
            seq![false] + enc_sym(*left, s)
        } else {
            seq![true] + enc_sym(*right, s)
        },
    }
}

/// The codeword of a symbol: its root-to-leaf path, except that the single
/// leaf of a one-symbol tree gets the explicit one-bit code `0`.
pub open spec fn code_for(t: Node, s: u8) -> Seq<bool> {
    if t is Leaf {
        seq![false]
    } else {
        enc_sym(t, s)
    }
}

pub proof fn lemma_contains_iff_symbols(t: Node, s: u8)
    ensures
        contains_sym(t, s) <==> symbols(t).contains(s),
    decreases t,
{
    match t {
        Node::Leaf { symbol, .. } => {
            if symbol == s {
                assert(symbols(t)[0] == s);
            }
        },
        Node::Internal { left, right, .. } => {
            lemma_contains_iff_symbols(*left, s);
            lemma_contains_iff_symbols(*right, s);
            let c = symbols(*left) + symbols(*right);
            if symbols(*left).contains(s) {
                let i = choose|i: int| 0 <= i < symbols(*left).len() && symbols(*left)[i] == s;
                assert(c[i] == s);
            } else if symbols(*right).contains(s) {
                let i = choose|i: int|
                    0 <= i < symbols(*right).len() && symbols(*right)[i] == s;
                assert(c[symbols(*left).len() + i] == s);
            } else if c.contains(s) {
                let i = choose|i: int| 0 <= i < c.len() && c[i] == s;
                if i < symbols(*left).len() {
                    assert(symbols(*left)[i] == s);
                } else {
                    assert(symbols(*right)[i - symbols(*left).len()] == s);
                }
            }
        },
    }
}

/// Law: a tree whose internal nodes all have two children has exactly one
/// more leaf than it has internal nodes, one leaf per entry of `symbols`.
pub proof fn lemma_tree_shape(t: Node)
    ensures
        leaf_count(t) == symbols(t).len(),
        leaf_count(t) == internal_count(t) + 1,
    decreases t,
{
    match t {
        Node::Leaf { .. } => {},
        Node::Internal { left, right, .. } => {
            lemma_tree_shape(*left);
            lemma_tree_shape(*right);
        },
    }
}

/// Occurrences of a byte value in a sequence.
pub open spec fn count_occ(s: Seq<u8>, b: u8) -> nat
    decreases s.len(),
{
    if s.len() == 0 {
        0
    } else {
        count_occ(s.drop_last(), b) + (if s.last() == b {
            1nat
        } else {
            0nat
        })
    }
}

/// Sum of all entries of a frequency table.
pub open spec fn sum_counts(s: Seq<u64>) -> int
    decreases s.len(),
{
    if s.len() == 0 {
        0
    } else {
        sum_counts(s.drop_last()) + s.last()
    }
}

pub proof fn lemma_count_occ_le_len(s: Seq<u8>, b: u8)
    ensures
        count_occ(s, b) <= s.len(),
    decreases s.len(),
{
    if s.len() > 0 {
        lemma_count_occ_le_len(s.drop_last(), b);
    }
}

/// Every byte that occurs in a sequence has a positive count.
pub proof fn lemma_count_occ_pos(s: Seq<u8>, i: int)
    requires
        0 <= i < s.len(),
    ensures
        count_occ(s, s[i]) > 0,
    decreases s.len(),
{
    if i < s.len() - 1 {
        lemma_count_occ_pos(s.drop_last(), i);
    }
}

proof fn lemma_sum_update(s: Seq<u64>, i: int, v: u64)
    requires
        0 <= i < s.len(),
    ensures
        sum_counts(s.update(i, v)) == sum_counts(s) - s[i] + v,
    decreases s.len(),
{
    if i == s.len() - 1 {
        assert(s.update(i, v).drop_last() =~= s.drop_last());
    } else {
        assert(s.update(i, v).drop_last() =~= s.drop_last().update(i, v));
        lemma_sum_update(s.drop_last(), i, v);
    }
}

/// Counts how often each byte value occurs in the input. The table is dense:
/// entry `b` is the number of occurrences of byte `b`.
pub fn build_frequency_map(input: &[u8]) -> (freq: Vec<u64>)
    ensures
        freq@.len() == 256,
        forall|b: u8| freq@[b as int] == count_occ(input@, b),
        sum_counts(freq@) == input@.len(),
{
    let mut freq: Vec<u64> = Vec::new();
    let mut k: usize = 0;
    while k < 256
        invariant
            freq@.len() == k,
            k <= 256,
            forall|j: int| 0 <= j < k ==> freq@[j] == 0,
            sum_counts(freq@) == 0,
        decreases 256 - k,
    {
        proof {
            assert(freq@.push(0u64).drop_last() =~= freq@);
        }
        freq.push(0);
        k = k + 1;
    }
    let mut i: usize = 0;
    proof {
        assert(input@.take(0) =~= Seq::<u8>::empty());
    }
    while i < input.len()
        invariant
            freq@.len() == 256,
            i <= input@.len(),
            forall|b: u8| freq@[b as int] == count_occ(input@.take(i as int), b),
            sum_counts(freq@) == i,
        decreases input@.len() - i,
    {
        let b = input[i];
        let c = freq[b as usize];
        proof {
            lemma_count_occ_le_len(input@.take(i as int), b);
            lemma_sum_update(freq@, b as int, (c + 1) as u64);
        }
        freq[b as usize] = c + 1;
        i = i + 1;
        proof {
            assert(input@.take(i as int).drop_last() =~= input@.take(i as int - 1));
            assert(input@.take(i as int).last() == b);
            assert forall|bb: u8| freq@[bb as int] == count_occ(input@.take(i as int), bb) by {
                assert(count_occ(input@.take(i as int), bb) == count_occ(
                    input@.take(i as int - 1),
                    bb,
                ) + (if bb == b {
                    1nat
                } else {
                    0nat
                }));
            }
        }
    }
    proof {
        assert(input@.take(input@.len() as int) =~= input@);
    }
    freq
}

/// The leaf symbols of every tree in a pool, in pool order.
pub open spec fn pool_symbols(pool: Seq<Node>) -> Seq<u8>
    decreases pool.len(),
{
    if pool.len() == 0 {
        Seq::empty()
    } else {
        symbols(pool[0]) + pool_symbols(pool.drop_first())
    }
}

/// Sum of the root frequencies of every tree in a pool.
pub open spec fn pool_freq_sum(pool: Seq<Node>) -> int
    decreases pool.len(),
{
    if pool.len() == 0 {
        0
    } else {
        pool[0].spec_frequency() + pool_freq_sum(pool.drop_first())
    }
}

proof fn lemma_pool_push(pool: Seq<Node>, t: Node)
    ensures
        pool_symbols(pool.push(t)) == pool_symbols(pool) + symbols(t),
        pool_freq_sum(pool.push(t)) == pool_freq_sum(pool) + t.spec_frequency(),
    decreases pool.len(),
{
    if pool.len() == 0 {
        assert(pool.push(t)[0] == t);
        assert(pool.push(t).drop_first() =~= Seq::<Node>::empty());
        assert(pool_symbols(pool.push(t)) == symbols(t) + pool_symbols(Seq::<Node>::empty()));
        assert(pool_symbols(pool.push(t)) =~= pool_symbols(pool) + symbols(t));
        assert(pool_freq_sum(pool.push(t)) == t.spec_frequency() + pool_freq_sum(
            Seq::<Node>::empty(),
        ));
    } else {
        assert(pool.push(t).drop_first() =~= pool.drop_first().push(t));
        assert(pool.push(t)[0] == pool[0]);
        lemma_pool_push(pool.drop_first(), t);
        assert(pool_symbols(pool.push(t)) =~= pool_symbols(pool) + symbols(t));
    }
}

proof fn lemma_pool_freq_nonneg(pool: Seq<Node>)
    ensures
        pool_freq_sum(pool) >= 0,
    decreases pool.len(),
{
    if pool.len() > 0 {
        lemma_pool_freq_nonneg(pool.drop_first());
    }
}

proof fn lemma_pool_remove(pool: Seq<Node>, i: int)
    requires
        0 <= i < pool.len(),
    ensures
        pool_symbols(pool).to_multiset() == pool_symbols(pool.remove(i)).to_multiset().add(
            symbols(pool[i]).to_multiset(),
        ),
        pool_freq_sum(pool.remove(i)) == pool_freq_sum(pool) - pool[i].spec_frequency(),
    decreases pool.len(),
{
    broadcast use vstd::multiset::group_multiset_axioms;

    if i == 0 {
        assert(pool.remove(0) =~= pool.drop_first());
        lemma_multiset_commutative(symbols(pool[0]), pool_symbols(pool.drop_first()));
        assert(pool_symbols(pool).to_multiset() =~= pool_symbols(pool.remove(0)).to_multiset()
            .add(symbols(pool[0]).to_multiset()));
    } else {
        let rest = pool.drop_first();
        assert(pool.remove(i).drop_first() =~= rest.remove(i - 1));
        assert(pool.remove(i)[0] == pool[0]);
        assert(rest[i - 1] == pool[i]);
        lemma_pool_remove(rest, i - 1);
        lemma_multiset_commutative(symbols(pool[0]), pool_symbols(rest));
        lemma_multiset_commutative(symbols(pool[0]), pool_symbols(rest.remove(i - 1)));
        assert(pool.remove(i).len() > 0);
        assert(pool_symbols(pool.remove(i)) == symbols(pool[0]) + pool_symbols(rest.remove(i - 1)));
        assert(pool_symbols(pool).to_multiset() =~= pool_symbols(pool.remove(i)).to_multiset()
            .add(symbols(pool[i]).to_multiset()));
    }
}

/// The symbols with a positive count among the byte values below `k`, in
/// ascending order.
pub open spec fn syms_below(counts: Seq<u64>, k: int) -> Seq<u8>
    decreases k,
{
    if k <= 0 {
        Seq::empty()
    } else {
        syms_below(counts, k - 1) + (if counts[k - 1] > 0 {
            seq![(k - 1) as u8]
        } else {
            Seq::empty()
        })
    }
}

proof fn lemma_syms_below(counts: Seq<u64>, k: int)
    requires
        0 <= k <= 256,
    ensures
        forall|s: u8| syms_below(counts, k).contains(s) <==> ((s as int) < k && counts[s as int]
            > 0),
        syms_below(counts, k).no_duplicates(),
    decreases k,
{
    if k > 0 {
        lemma_syms_below(counts, k - 1);
        let prev = syms_below(counts, k - 1);
        let cur = syms_below(counts, k);
        if counts[k - 1] > 0 {
            let last = (k - 1) as u8;
            assert forall|s: u8| cur.contains(s) implies ((s as int) < k && counts[s as int]
                > 0) by {
                let j = choose|j: int| 0 <= j < cur.len() && cur[j] == s;
                if j < prev.len() {
                    assert(prev[j] == s);
                    assert(prev.contains(s));
                } else {
                    assert(s == last);
                }
            }
            assert forall|s: u8| ((s as int) < k && counts[s as int] > 0) implies cur.contains(
                s,
            ) by {
                if (s as int) < k - 1 {
                    assert(prev.contains(s));
                    let j = choose|j: int| 0 <= j < prev.len() && prev[j] == s;
                    assert(cur[j] == s);
                } else {
                    assert(s == last);
                    assert(cur[cur.len() - 1] == s);
                }
            }
            assert forall|a: int, b: int|
                0 <= a < cur.len() && 0 <= b < cur.len() && a != b implies cur[a] != cur[b] by {
                if a < prev.len() && b < prev.len() {
                } else if a < prev.len() {
                    assert(prev.contains(prev[a]));
                } else if b < prev.len() {
                    assert(prev.contains(prev[b]));
                }
            }
            assert(cur.no_duplicates());
        } else {
            assert(cur =~= prev);
        }
    }
}

fn min_index(pool: &Vec<Node>) -> (r: usize)
    requires
        pool@.len() > 0,
    ensures
        r < pool@.len(),
        forall|j: int| 0 <= j < pool@.len() ==> pool@[r as int].spec_frequency()
            <= #[trigger] pool@[j].spec_frequency(),
{
    let mut best: usize = 0;
    let mut i: usize = 1;
    while i < pool.len()
        invariant
            1 <= i <= pool@.len(),
            best < i,
            forall|j: int| 0 <= j < i ==> pool@[best as int].spec_frequency()
                <= #[trigger] pool@[j].spec_frequency(),
        decreases pool@.len() - i,
    {
        if pool[i].frequency() < pool[best].frequency() {
            best = i;
        }
        i = i + 1;
    }
    best
}

/// Builds the prefix tree by repeatedly merging the two lowest-frequency
/// nodes of a pool seeded with one leaf per occurring symbol; returns `None`
/// exactly when no symbol occurs.
pub fn build_huffman_tree(freq: &Vec<u64>) -> (r: Option<Node>)
    requires
        freq@.len() == 256,
        sum_counts(freq@) <= u64::MAX,
    ensures
        (match r {
            Option::Some(t) => {
                &&& symbols(t).no_duplicates()
                &&& forall|b: u8| contains_sym(t, b) <==> freq@[b as int] > 0
                &&& freq_wf(t)
                &&& leaf_freqs_match(t, freq@)
                &&& t.spec_frequency() == sum_counts(freq@)
            },
            Option::None => forall|b: u8| freq@[b as int] == 0,
        }),
{
    broadcast use vstd::seq_lib::group_to_multiset_ensures;
    broadcast use vstd::multiset::group_multiset_axioms;

    let ghost target = syms_below(freq@, 256);
    proof {
        lemma_syms_below(freq@, 256);
    }
    let mut pool: Vec<Node> = Vec::new();
    let mut k: usize = 0;
    while k < 256
        invariant
            freq@.len() == 256,
            k <= 256,
            pool_symbols(pool@) == syms_below(freq@, k as int),
            pool_freq_sum(pool@) == sum_counts(freq@.take(k as int)),
            forall|j: int| 0 <= j < pool@.len() ==> freq_wf(#[trigger] pool@[j])
                && leaf_freqs_match(pool@[j], freq@),
        decreases 256 - k,
    {
        proof {
            assert(freq@.take(k as int + 1).drop_last() =~= freq@.take(k as int));
        }
        if freq[k] > 0 {
            let leaf = Node::Leaf { symbol: k as u8, frequency: freq[k] };
            proof {
                lemma_pool_push(pool@, leaf);
                assert(pool_symbols(pool@) + symbols(leaf) =~= syms_below(freq@, k as int + 1));
            }
            pool.push(leaf);
        } else {
            proof {
                assert(syms_below(freq@, k as int + 1) =~= syms_below(freq@, k as int));
            }
        }
        k = k + 1;
    }
    proof {
        assert(freq@.take(256) =~= freq@);
    }
    if pool.len() == 0 {
        proof {
            assert forall|b: u8| freq@[b as int] == 0 by {
                if freq@[b as int] > 0 {
                    assert(target.contains(b));
                }
            }
        }
        return Option::None;
    }
    while pool.len() > 1
        invariant
            freq@.len() == 256,
            sum_counts(freq@) <= u64::MAX,
            pool@.len() >= 1,
            target == syms_below(freq@, 256),
            pool_symbols(pool@).to_multiset() == target.to_multiset(),
            pool_freq_sum(pool@) == sum_counts(freq@),
            forall|j: int| 0 <= j < pool@.len() ==> freq_wf(#[trigger] pool@[j])
                && leaf_freqs_match(pool@[j], freq@),
        decreases pool@.len(),
    {
        let ghost pool0 = pool@;
        let i1 = min_index(&pool);
        proof {
            lemma_pool_remove(pool@, i1 as int);
        }
        let n1 = pool.remove(i1);
        proof {
            assert forall|j: int| 0 <= j < pool@.len() implies freq_wf(#[trigger] pool@[j])
                && leaf_freqs_match(pool@[j], freq@) by {
                assert(pool@ == pool0.remove(i1 as int));
                if j < i1 {
                    assert(pool@[j] == pool0[j]);
                } else {
                    assert(pool@[j] == pool0[j + 1]);
                }
            }
        }
        let ghost pool1 = pool@;
        let i2 = min_index(&pool);
        proof {
            lemma_pool_remove(pool@, i2 as int);
        }
        let n2 = pool.remove(i2);
        proof {
            assert forall|j: int| 0 <= j < pool@.len() implies freq_wf(#[trigger] pool@[j])
                && leaf_freqs_match(pool@[j], freq@) by {
                assert(pool@ == pool1.remove(i2 as int));
                if j < i2 {
                    assert(pool@[j] == pool1[j]);
                } else {
                    assert(pool@[j] == pool1[j + 1]);
                }
            }
            lemma_pool_freq_nonneg(pool@);
        }
        let f = n1.frequency() + n2.frequency();
        let merged = Node::Internal { frequency: f, left: Box::new(n1), right: Box::new(n2) };
        proof {
            lemma_pool_push(pool@, merged);
            assert(symbols(merged) == symbols(n1) + symbols(n2));
            lemma_multiset_commutative(pool_symbols(pool@), symbols(merged));
            lemma_multiset_commutative(symbols(n1), symbols(n2));
            assert((pool_symbols(pool@) + symbols(merged)).to_multiset() =~= target.to_multiset());
        }
        pool.push(merged);
    }
    let ghost fin = pool@;
    let root = pool.remove(0);
    proof {
        assert(root == fin[0]);
        assert(fin.drop_first() =~= Seq::<Node>::empty());
        assert(pool_symbols(fin) == symbols(root) + pool_symbols(Seq::<Node>::empty()));
        assert(pool_freq_sum(fin) == root.spec_frequency() + pool_freq_sum(Seq::<Node>::empty()));
        assert(root.spec_frequency() == sum_counts(freq@));
        assert(symbols(root) + Seq::<u8>::empty() =~= symbols(root));
        assert(symbols(root).to_multiset() == target.to_multiset());
        target.lemma_multiset_has_no_duplicates();
        assert forall|x: u8| symbols(root).to_multiset().contains(x) implies symbols(
            root,
        ).to_multiset().count(x) == 1 by {
            assert(target.to_multiset().contains(x));
        }
        symbols(root).lemma_multiset_has_no_duplicates_conv();
        assert forall|b: u8| contains_sym(root, b) <==> freq@[b as int] > 0 by {
            lemma_contains_iff_symbols(root, b);
            if symbols(root).contains(b) {
                assert(symbols(root).to_multiset().count(b) > 0);
                assert(target.to_multiset().contains(b));
                assert(target.contains(b));
            }
            if freq@[b as int] > 0 {
                assert(target.contains(b));
                assert(target.to_multiset().count(b) > 0);
                assert(symbols(root).to_multiset().contains(b));
                assert(symbols(root).contains(b));
            }
        }
    }
    Option::Some(root)
}

/// A concatenation without duplicates splits into duplicate-free,
/// symbol-disjoint halves.
pub proof fn lemma_no_dup_split(l: Node, r: Node)
    requires
        (symbols(l) + symbols(r)).no_duplicates(),
    ensures
        symbols(l).no_duplicates(),
        symbols(r).no_duplicates(),
        forall|s: u8| !(contains_sym(l, s) && contains_sym(r, s)),
{
    let c = symbols(l) + symbols(r);
    assert forall|i: int, j: int|
        0 <= i < symbols(l).len() && 0 <= j < symbols(l).len() && i != j implies symbols(l)[i]
        != symbols(l)[j] by {
        assert(c[i] == symbols(l)[i] && c[j] == symbols(l)[j]);
    }
    assert forall|i: int, j: int|
        0 <= i < symbols(r).len() && 0 <= j < symbols(r).len() && i != j implies symbols(r)[i]
        != symbols(r)[j] by {
        assert(c[symbols(l).len() + i] == symbols(r)[i] && c[symbols(l).len() + j] == symbols(
            r,
        )[j]);
    }
    assert forall|s: u8| !(contains_sym(l, s) && contains_sym(r, s)) by {
        lemma_contains_iff_symbols(l, s);
        lemma_contains_iff_symbols(r, s);
        if symbols(l).contains(s) && symbols(r).contains(s) {
            let i = choose|i: int| 0 <= i < symbols(l).len() && symbols(l)[i] == s;
            let j = choose|j: int| 0 <= j < symbols(r).len() && symbols(r)[j] == s;
            assert(c[i] == s && c[symbols(l).len() + j] == s);
        }
    }
}

/// Law: in a tree with distinct leaf symbols, no symbol's codeword is a
/// prefix of another symbol's codeword.
pub proof fn lemma_prefix_free(t: Node, a: u8, b: u8)
    requires
        symbols(t).no_duplicates(),
        contains_sym(t, a),
        contains_sym(t, b),
        a != b,
    ensures
        !code_for(t, a).is_prefix_of(code_for(t, b)),
    decreases t,
{
    match t {
        Node::Leaf { .. } => {},
        Node::Internal { left, right, .. } => {
            lemma_no_dup_split(*left, *right);
            let ca = enc_sym(t, a);
            let cb = enc_sym(t, b);
            if ca.is_prefix_of(cb) {
                assert(ca[0] == cb[0]);
                if contains_sym(*left, a) {
                    let ea = enc_sym(*left, a);
                    let eb = enc_sym(*left, b);
                    assert(contains_sym(*left, b));
                    assert(ea.len() <= eb.len());
                    assert forall|i: int| 0 <= i < ea.len() implies ea[i] == eb[i] by {
                        assert(ca[i + 1] == ea[i]);
                        assert(cb[i + 1] == eb[i]);
                        assert(ca[i + 1] == cb.subrange(0, ca.len() as int)[i + 1]);
                    }
                    assert(ea =~= eb.subrange(0, ea.len() as int));
                    lemma_prefix_free(*left, a, b);
                } else {
                    let ea = enc_sym(*right, a);
                    let eb = enc_sym(*right, b);
                    assert(contains_sym(*right, a));
                    assert(!contains_sym(*left, b));
                    assert(ea.len() <= eb.len());
                    assert forall|i: int| 0 <= i < ea.len() implies ea[i] == eb[i] by {
                        assert(ca[i + 1] == ea[i]);
                        assert(cb[i + 1] == eb[i]);
                        assert(ca[i + 1] == cb.subrange(0, ca.len() as int)[i + 1]);
                    }
                    assert(ea =~= eb.subrange(0, ea.len() as int));
                    lemma_prefix_free(*right, a, b);
                }
            }
        },
    }
}

fn copy_bits(src: &Vec<bool>) -> (r: Vec<bool>)
    ensures
        r@ == src@,
{
    let mut r: Vec<bool> = Vec::new();
    let mut i: usize = 0;
    while i < src.len()
        invariant
            i <= src@.len(),
            r@ == src@.take(i as int),
        decreases src@.len() - i,
    {
        r.push(src[i]);
        i = i + 1;
        proof {
            assert(src@.take(i as int) =~= src@.take(i as int - 1).push(src@[i as int - 1]));
        }
    }
    proof {
        assert(src@.take(src@.len() as int) =~= src@);
    }
    r
}

fn assign_codes(node: &Node, prefix: Vec<bool>, codes: &mut Vec<Option<Vec<bool>>>)
    requires
        old(codes)@.len() == 256,
        symbols(*node).no_duplicates(),
    ensures
        final(codes)@.len() == 256,
        forall|s: u8| contains_sym(*node, s) ==> (#[trigger] final(codes)@[s as int]) is Some
            && final(codes)@[s as int].unwrap()@ == prefix@ + enc_sym(*node, s),
        forall|s: u8| !contains_sym(*node, s) ==> final(codes)@[s as int] == old(codes)@[s as int],
    decreases *node,
{
    match node {
        Node::Leaf { symbol, .. } => {
            let ghost p = prefix@;
            let ghost before = codes@;
            codes[*symbol as usize] = Option::Some(prefix);
            proof {
                assert(p + enc_sym(*node, *symbol) =~= p);
                assert forall|s: u8| !contains_sym(*node, s) implies codes@[s as int] == before[
                    s as int
                ] by {
                    assert(s != *symbol);
                }
            }
        },
        Node::Internal { left, right, .. } => {
            proof {
                lemma_no_dup_split(**left, **right);
            }
            let mut left_code = copy_bits(&prefix);
            left_code.push(false);
            proof {
                assert(left_code@ =~= prefix@ + seq![false]);
            }
            assign_codes(left, left_code, codes);
            let ghost mid = codes@;
            let mut right_code = prefix;
            right_code.push(true);
            proof {
                assert(right_code@ =~= right_code@.take(right_code@.len() - 1) + seq![true]);
            }
            assign_codes(right, right_code, codes);
            proof {
                assert forall|s: u8| contains_sym(*node, s) implies (
                #[trigger] codes@[s as int]) is Some && codes@[s as int].unwrap()@ == prefix@
                    + enc_sym(*node, s) by {
                    if contains_sym(**left, s) {
                        assert(!contains_sym(**right, s));
                        assert(codes@[s as int] == mid[s as int]);
                        assert(mid[s as int].unwrap()@ == (prefix@ + seq![false]) + enc_sym(
                            **left,
                            s,
                        ));
                        assert((prefix@ + seq![false]) + enc_sym(**left, s) =~= prefix@ + (
                        seq![false] + enc_sym(**left, s)));
                    } else {
                        assert(contains_sym(**right, s));
                        assert(codes@[s as int].unwrap()@ == (prefix@ + seq![true]) + enc_sym(
                            **right,
                            s,
                        ));
                        assert((prefix@ + seq![true]) + enc_sym(**right, s) =~= prefix@ + (
                        seq![true] + enc_sym(**right, s)));
                    }
                }
                assert forall|s: u8| !contains_sym(*node, s) implies codes@[s as int] == old(
                    codes,
                )@[s as int] by {
                    assert(!contains_sym(**left, s) && !contains_sym(**right, s));
                    assert(codes@[s as int] == mid[s as int]);
                    assert(mid[s as int] == old(codes)@[s as int]);
                }
            }
        },
    }
}

/// Derives the code table from a tree: entry `s` holds the codeword of
/// symbol `s`, and is `None` exactly for the symbols the tree lacks.
pub fn generate_codes(root: &Node) -> (codes: Vec<Option<Vec<bool>>>)
    requires
        symbols(*root).no_duplicates(),
    ensures
        codes@.len() == 256,
        forall|s: u8| (#[trigger] codes@[s as int]) is Some <==> contains_sym(*root, s),
        forall|s: u8| contains_sym(*root, s) ==> (#[trigger] codes@[s as int]).unwrap()@
            == code_for(*root, s),
{
    let mut codes: Vec<Option<Vec<bool>>> = Vec::new();
    let mut k: usize = 0;
    while k < 256
        invariant
            codes@.len() == k,
            k <= 256,
            forall|j: int| 0 <= j < k ==> (#[trigger] codes@[j]) is None,
        decreases 256 - k,
    {
        codes.push(Option::None);
        k = k + 1;
    }
    match root {
        Node::Leaf { symbol, .. } => {
            let mut one: Vec<bool> = Vec::new();
            one.push(false);
            proof {
                assert(one@ =~= seq![false]);
            }
            codes[*symbol as usize] = Option::Some(one);
        },
        Node::Internal { .. } => {
            let empty_prefix: Vec<bool> = Vec::new();
            assign_codes(root, empty_prefix, &mut codes);
            proof {
                assert forall|s: u8| contains_sym(*root, s) implies (
                #[trigger] codes@[s as int]).unwrap()@ == code_for(*root, s) by {
                    assert(Seq::<bool>::empty() + enc_sym(*root, s) =~= enc_sym(*root, s));
                }
            }
        },
    }
    codes
}

} // verus!
