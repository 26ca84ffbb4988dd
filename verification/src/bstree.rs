//! An unbalanced binary search tree mapping keys to values.
//!
//! The tree is modelled twice over: by its in-order sequence of
//! `(key, value)` entries, which carries the values, and by its
//! [`TreeShape`], which carries the keys with the full branching structure.
//! The mutating operations state the exact shape they leave behind through
//! the open functions [`shape_insert`] and [`shape_remove`], and each
//! traversal renders an open function of the shape, so the contracts pin
//! down every traversal string.  Inserting an existing key keeps both
//! entries: the new one goes to the right subtree and only the first one
//! found by the search walk stays reachable through `get` and `remove`.

use vstd::prelude::*;
use crate::order::{CmpResult, ToText, TotalOrder, render_line, rendered};

verus! {

struct Node<K, V> {
    key: K,
    value: V,
    left: Option<Box<Node<K, V>>>,
    right: Option<Box<Node<K, V>>>,
}

/// An unbalanced binary search tree.  Keys carry a total order; values are
/// arbitrary.  Duplicate keys are kept as separate nodes.
pub struct BSTree<K, V> {
    root: Option<Box<Node<K, V>>>,
}

/// The in-order entries of a subtree.
spec fn entries_of<K, V>(t: Option<Box<Node<K, V>>>) -> Seq<(K, V)>
    decreases t,
{
    match t {
        None => Seq::empty(),
        Some(n) => entries_of(n.left) + seq![(n.key, n.value)] + entries_of(n.right),
    }
}

/// Every key of `s` is strictly below `k`.
spec fn keys_below<K: TotalOrder, V>(s: Seq<(K, V)>, k: K) -> bool {
    forall|i: int| 0 <= i < s.len() ==> (#[trigger] s[i]).0.leq(k) && s[i].0 != k
}

/// `k` is at or below every key of `s`.
spec fn keys_at_or_above<K: TotalOrder, V>(s: Seq<(K, V)>, k: K) -> bool {
    forall|i: int| 0 <= i < s.len() ==> k.leq((#[trigger] s[i]).0)
}

/// The search-tree order invariant: at every node, the left subtree holds
/// strictly smaller keys and the right subtree holds keys at or above.
spec fn wf_opt<K: TotalOrder, V>(t: Option<Box<Node<K, V>>>) -> bool
    decreases t,
{
    match t {
        None => true,
        Some(n) => wf_opt(n.left) && wf_opt(n.right) && keys_below(entries_of(n.left), n.key)
            && keys_at_or_above(entries_of(n.right), n.key),
    }
}

/// What the search walk finds: equal key stops, smaller keys go left,
/// larger keys go right.
spec fn spec_search<K: TotalOrder, V>(t: Option<Box<Node<K, V>>>, k: K) -> Option<V>
    decreases t,
{
    match t {
        None => None,
        Some(n) => if k == n.key {
            Some(n.value)
        } else if k.leq(n.key) {
            spec_search(n.left, k)
        } else {
            spec_search(n.right, k)
        },
    }
}

/// Some entry of `s` has key `k`.
pub open spec fn has_key<K, V>(s: Seq<(K, V)>, k: K) -> bool {
    exists|i: int| 0 <= i < s.len() && (#[trigger] s[i]).0 == k
}

/// The index of the first entry of `s` whose key is `k` (meaningful when
/// `has_key(s, k)` holds).
pub open spec fn first_idx<K, V>(s: Seq<(K, V)>, k: K) -> int
    decreases s.len(),
{
    if s.len() == 0 {
        0
    } else if s[0].0 == k {
        0
    } else {
        1 + first_idx(s.drop_first(), k)
    }
}

/// How many entries of `s` have a key at or below `k`; in a sorted sequence
/// this is the slot where an entry with key `k` is inserted, after all its
/// equals.
pub open spec fn count_leq<K: TotalOrder, V>(s: Seq<(K, V)>, k: K) -> int
    decreases s.len(),
{
    if s.len() == 0 {
        0
    } else {
        (if s[0].0.leq(k) {
            1int
        } else {
            0
        }) + count_leq(s.drop_first(), k)
    }
}

/// All keys of `s` are distinct.
pub open spec fn uniq_keys<K, V>(s: Seq<(K, V)>) -> bool {
    forall|i: int, j: int|
        0 <= i < j < s.len() ==> (#[trigger] s[i]).0 != (#[trigger] s[j]).0
}

proof fn lemma_has_key_concat<K, V>(a: Seq<(K, V)>, b: Seq<(K, V)>, k: K)
    ensures
        has_key(a + b, k) == (has_key(a, k) || has_key(b, k)),
{
    if has_key(a, k) {
        let i = choose|i: int| 0 <= i < a.len() && (#[trigger] a[i]).0 == k;
        assert((a + b)[i].0 == k);
    }
    if has_key(b, k) {
        let i = choose|i: int| 0 <= i < b.len() && (#[trigger] b[i]).0 == k;
        assert((a + b)[a.len() + i].0 == k);
    }
    if has_key(a + b, k) {
        let i = choose|i: int| 0 <= i < (a + b).len() && (#[trigger] (a + b)[i]).0 == k;
        if i < a.len() {
            assert(a[i].0 == k);
        } else {
            assert(b[i - a.len()].0 == k);
        }
    }
}

proof fn lemma_first_idx_concat<K, V>(a: Seq<(K, V)>, b: Seq<(K, V)>, k: K)
    ensures
        has_key(a, k) ==> first_idx(a + b, k) == first_idx(a, k),
        !has_key(a, k) && has_key(b, k) ==> first_idx(a + b, k) == a.len() + first_idx(b, k),
    decreases a.len(),
{
    if a.len() == 0 {
        assert(a + b =~= b);
    } else if a[0].0 == k {
        assert((a + b)[0].0 == k);
    } else {
        assert((a + b)[0] == a[0]);
        assert((a + b).drop_first() =~= a.drop_first() + b);
        lemma_first_idx_concat(a.drop_first(), b, k);
        if has_key(a, k) {
            let i = choose|i: int| 0 <= i < a.len() && (#[trigger] a[i]).0 == k;
            assert(a.drop_first()[i - 1].0 == k);
        }
        if has_key(a.drop_first(), k) {
            let i = choose|i: int| 0 <= i < a.drop_first().len() && (#[trigger] a.drop_first()[i]).0 == k;
            assert(a[i + 1].0 == k);
        }
    }
}

proof fn lemma_first_idx_props<K, V>(s: Seq<(K, V)>, k: K)
    requires
        has_key(s, k),
    ensures
        0 <= first_idx(s, k) < s.len(),
        s[first_idx(s, k)].0 == k,
        forall|j: int| 0 <= j < first_idx(s, k) ==> (#[trigger] s[j]).0 != k,
    decreases s.len(),
{
    let i0 = choose|i: int| 0 <= i < s.len() && (#[trigger] s[i]).0 == k;
    if s[0].0 == k {
    } else {
        assert(s.drop_first()[i0 - 1].0 == k);
        lemma_first_idx_props(s.drop_first(), k);
        let fi = first_idx(s, k);
        assert(s[fi] == s.drop_first()[fi - 1]);
        assert forall|j: int| 0 <= j < fi implies (#[trigger] s[j]).0 != k by {
            if j > 0 {
                assert(s.drop_first()[j - 1] == s[j]);
            }
        }
    }
}

proof fn lemma_first_idx_at<K, V>(s: Seq<(K, V)>, k: K, j: int)
    requires
        0 <= j < s.len(),
        s[j].0 == k,
        forall|i: int| 0 <= i < j ==> (#[trigger] s[i]).0 != k,
    ensures
        has_key(s, k),
        first_idx(s, k) == j,
    decreases s.len(),
{
    assert(has_key(s, k));
    if s[0].0 == k {
    } else {
        assert(s.drop_first()[j - 1] == s[j]);
        assert forall|i: int| 0 <= i < j - 1 implies (#[trigger] s.drop_first()[i]).0 != k by {
            assert(s.drop_first()[i] == s[i + 1]);
        }
        lemma_first_idx_at(s.drop_first(), k, j - 1);
    }
}

proof fn lemma_count_leq_concat<K: TotalOrder, V>(a: Seq<(K, V)>, b: Seq<(K, V)>, k: K)
    ensures
        count_leq(a + b, k) == count_leq(a, k) + count_leq(b, k),
    decreases a.len(),
{
    if a.len() == 0 {
        assert(a + b =~= b);
    } else {
        assert((a + b)[0] == a[0]);
        assert((a + b).drop_first() =~= a.drop_first() + b);
        lemma_count_leq_concat(a.drop_first(), b, k);
    }
}

proof fn lemma_count_leq_bounds<K: TotalOrder, V>(s: Seq<(K, V)>, k: K)
    ensures
        0 <= count_leq(s, k) <= s.len(),
    decreases s.len(),
{
    if s.len() > 0 {
        lemma_count_leq_bounds(s.drop_first(), k);
    }
}

proof fn lemma_count_leq_all<K: TotalOrder, V>(s: Seq<(K, V)>, k: K)
    requires
        forall|i: int| 0 <= i < s.len() ==> (#[trigger] s[i]).0.leq(k),
    ensures
        count_leq(s, k) == s.len(),
    decreases s.len(),
{
    if s.len() > 0 {
        assert forall|i: int| 0 <= i < s.drop_first().len() implies (#[trigger] s.drop_first()[i]).0.leq(k) by {
            assert(s.drop_first()[i] == s[i + 1]);
        }
        lemma_count_leq_all(s.drop_first(), k);
    }
}

proof fn lemma_count_leq_none<K: TotalOrder, V>(s: Seq<(K, V)>, k: K)
    requires
        forall|i: int| 0 <= i < s.len() ==> !(#[trigger] s[i]).0.leq(k),
    ensures
        count_leq(s, k) == 0,
    decreases s.len(),
{
    if s.len() > 0 {
        assert forall|i: int| 0 <= i < s.drop_first().len() implies !(#[trigger] s.drop_first()[i]).0.leq(k) by {
            assert(s.drop_first()[i] == s[i + 1]);
        }
        lemma_count_leq_none(s.drop_first(), k);
    }
}

proof fn lemma_count_leq_one<K: TotalOrder, V>(e: (K, V), k: K)
    ensures
        count_leq(seq![e], k) == if e.0.leq(k) { 1int } else { 0 },
{
    assert(seq![e].drop_first() =~= Seq::<(K, V)>::empty());
    assert(count_leq(Seq::<(K, V)>::empty(), k) == 0);
    assert(seq![e][0] == e);
    assert(count_leq(seq![e], k) == (if e.0.leq(k) { 1int } else { 0 }) + count_leq(
        seq![e].drop_first(),
        k,
    ));
}

proof fn lemma_insert_front<A>(a: Seq<A>, b: Seq<A>, i: int, x: A)
    requires
        0 <= i <= a.len(),
    ensures
        (a + b).insert(i, x) == a.insert(i, x) + b,
{
    assert((a + b).insert(i, x) =~= a.insert(i, x) + b);
}

proof fn lemma_insert_back<A>(a: Seq<A>, b: Seq<A>, i: int, x: A)
    requires
        0 <= i <= b.len(),
    ensures
        (a + b).insert(a.len() + i, x) == a + b.insert(i, x),
{
    assert((a + b).insert(a.len() + i, x) =~= a + b.insert(i, x));
}

impl<K: TotalOrder, V> BSTree<K, V> {
    /// The search-tree order invariant.
    pub closed spec fn well_formed(self) -> bool {
        wf_opt(self.root)
    }

    /// The value that the search walk finds for `key`.
    pub closed spec fn spec_get(self, key: K) -> Option<V> {
        spec_search(self.root, key)
    }

    /// Creates an empty tree.
    pub fn new() -> (tree: Self)
        ensures
            tree.well_formed(),
            tree@ == Seq::<(K, V)>::empty(),
            tree.shape() == TreeShape::<K>::Tip,
    {
        BSTree { root: None }
    }
}

impl<K, V> View for BSTree<K, V> {
    type V = Seq<(K, V)>;

    closed spec fn view(&self) -> Seq<(K, V)> {
        entries_of(self.root)
    }
}

impl<K, V> BSTree<K, V> {
    /// The shape of the tree, keys included.
    pub closed spec fn shape(self) -> TreeShape<K> {
        shape_of(self.root)
    }
}

/// The shape of a tree: every node's key together with the shapes of its
/// two subtrees.  The shape determines every traversal order, so the
/// mutating operations state the exact shape they leave behind.
pub enum TreeShape<K> {
    Tip,
    Fork(Box<TreeShape<K>>, K, Box<TreeShape<K>>),
}

spec fn shape_of<K, V>(t: Option<Box<Node<K, V>>>) -> TreeShape<K>
    decreases t,
{
    match t {
        None => TreeShape::Tip,
        Some(n) => TreeShape::Fork(
            Box::new(shape_of(n.left)),
            n.key,
            Box::new(shape_of(n.right)),
        ),
    }
}

spec fn shape_node<K, V>(n: Node<K, V>) -> TreeShape<K> {
    TreeShape::Fork(Box::new(shape_of(n.left)), n.key, Box::new(shape_of(n.right)))
}

/// Where the descend walk of `insert` puts a new key: left of a strictly
/// greater key, right of one at or below it, a fresh fork at the reached
/// tip.
pub open spec fn shape_insert<K: TotalOrder>(s: TreeShape<K>, k: K) -> TreeShape<K>
    decreases s,
{
    match s {
        TreeShape::Tip => TreeShape::Fork(Box::new(TreeShape::Tip), k, Box::new(TreeShape::Tip)),
        TreeShape::Fork(l, nk, r) => if k.leq(nk) && k != nk {
            TreeShape::Fork(Box::new(shape_insert(*l, k)), nk, r)
        } else {
            TreeShape::Fork(l, nk, Box::new(shape_insert(*r, k)))
        },
    }
}

/// The key of the right-most fork (meaningful for a fork).
pub open spec fn shape_max<K>(s: TreeShape<K>) -> K
    recommends
        s is Fork,
    decreases s,
{
    match s {
        TreeShape::Tip => vstd::pervasive::arbitrary(),
        TreeShape::Fork(l, k, r) => if *r is Fork {
            shape_max(*r)
        } else {
            k
        },
    }
}

/// The shape with its right-most fork taken out, its left subtree spliced
/// into the vacated slot.
pub open spec fn shape_drop_max<K>(s: TreeShape<K>) -> TreeShape<K>
    decreases s,
{
    match s {
        TreeShape::Tip => TreeShape::Tip,
        TreeShape::Fork(l, k, r) => if *r is Fork {
            TreeShape::Fork(l, k, Box::new(shape_drop_max(*r)))
        } else {
            *l
        },
    }
}

/// What `remove` leaves behind: the search walk descends by comparison; a
/// hit with two subtrees promotes the in-order predecessor — the greatest
/// key of the left subtree — into the removed fork; a hit with at most one
/// subtree splices that subtree in; a walk that reaches a tip changes
/// nothing.
pub open spec fn shape_remove<K: TotalOrder>(s: TreeShape<K>, k: K) -> TreeShape<K>
    decreases s,
{
    match s {
        TreeShape::Tip => TreeShape::Tip,
        TreeShape::Fork(l, nk, r) => if k == nk {
            if !(*l is Fork) {
                *r
            } else if !(*r is Fork) {
                *l
            } else {
                TreeShape::Fork(Box::new(shape_drop_max(*l)), shape_max(*l), r)
            }
        } else if k.leq(nk) {
            TreeShape::Fork(Box::new(shape_remove(*l, k)), nk, r)
        } else {
            TreeShape::Fork(l, nk, Box::new(shape_remove(*r, k)))
        },
    }
}

/// Where the search walk meets key `k` in the in-order entries: the found
/// entry's index (meaningful when the search hits).
spec fn search_pos<K: TotalOrder, V>(t: Option<Box<Node<K, V>>>, k: K) -> int
    decreases t,
{
    match t {
        None => 0,
        Some(n) => if k == n.key {
            entries_of(n.left).len() as int
        } else if k.leq(n.key) {
            search_pos(n.left, k)
        } else {
            entries_of(n.left).len() + 1 + search_pos(n.right, k)
        },
    }
}

/// Where the descend walk of `insert` lands in the in-order entries.
spec fn insert_pos<K: TotalOrder, V>(t: Option<Box<Node<K, V>>>, k: K) -> int
    decreases t,
{
    match t {
        None => 0,
        Some(n) => if k.leq(n.key) && k != n.key {
            insert_pos(n.left, k)
        } else {
            entries_of(n.left).len() + 1 + insert_pos(n.right, k)
        },
    }
}

fn search_at<K: TotalOrder, V: Copy>(node: &Option<Box<Node<K, V>>>, key: K) -> (r: Option<V>)
    ensures
        r == spec_search(*node, key),
    decreases *node,
{
    match node {
        None => None,
        Some(n) => {
            match key.cmp_with(&n.key) {
                CmpResult::Eq => Some(n.value),
                CmpResult::Lt => search_at(&n.left, key),
                CmpResult::Gt => {
                    proof {
                        if key.leq(n.key) {
                            K::lemma_antisym(key, n.key);
                        }
                    }
                    search_at(&n.right, key)
                },
            }
        },
    }
}

/// In a well-formed subtree the search walk finds exactly the first in-order
/// entry with the given key, and misses exactly when no entry has it.
proof fn lemma_search_entries<K: TotalOrder, V>(t: Option<Box<Node<K, V>>>, k: K)
    requires
        wf_opt(t),
    ensures
        spec_search(t, k) == if has_key(entries_of(t), k) {
            Some(entries_of(t)[first_idx(entries_of(t), k)].1)
        } else {
            None::<V>
        },
    decreases t,
{
    match t {
        None => {
        },
        Some(n) => {
            let l0 = entries_of(n.left);
            let r0 = entries_of(n.right);
            let m = (n.key, n.value);
            let s0 = l0 + seq![m] + r0;
            assert(entries_of(t) == s0);
            lemma_has_key_concat(l0, seq![m], k);
            lemma_has_key_concat(l0 + seq![m], r0, k);
            assert(s0 == (l0 + seq![m]) + r0);
            if k == n.key {
                assert(!has_key(l0, k));
                assert(has_key(seq![m], k)) by {
                    assert(seq![m][0].0 == k);
                }
                lemma_first_idx_concat(l0, seq![m] + r0, k);
                assert(l0 + (seq![m] + r0) =~= s0);
                assert((seq![m] + r0)[0].0 == k);
                assert(first_idx(seq![m] + r0, k) == 0);
                assert(first_idx(s0, k) == l0.len());
                assert(s0[l0.len() as int] == m);
            } else if k.leq(n.key) {
                lemma_search_entries(n.left, k);
                assert(!has_key(seq![m], k)) by {
                    if has_key(seq![m], k) {
                        let i = choose|i: int| 0 <= i < seq![m].len() && (#[trigger] seq![m][i]).0 == k;
                        assert(i == 0);
                    }
                }
                assert(!has_key(r0, k)) by {
                    if has_key(r0, k) {
                        let i = choose|i: int| 0 <= i < r0.len() && (#[trigger] r0[i]).0 == k;
                        K::lemma_antisym(k, n.key);
                    }
                }
                if has_key(l0, k) {
                    lemma_first_idx_concat(l0, seq![m] + r0, k);
                    assert(l0 + (seq![m] + r0) =~= s0);
                    lemma_first_idx_props(l0, k);
                    assert(s0[first_idx(l0, k)] == l0[first_idx(l0, k)]);
                }
            } else {
                K::lemma_total(k, n.key);
                lemma_search_entries(n.right, k);
                assert(!has_key(l0, k)) by {
                    if has_key(l0, k) {
                        let i = choose|i: int| 0 <= i < l0.len() && (#[trigger] l0[i]).0 == k;
                        K::lemma_antisym(k, n.key);
                    }
                }
                assert(!has_key(seq![m], k)) by {
                    if has_key(seq![m], k) {
                        let i = choose|i: int| 0 <= i < seq![m].len() && (#[trigger] seq![m][i]).0 == k;
                        assert(i == 0);
                    }
                }
                assert(!has_key(l0 + seq![m], k));
                if has_key(r0, k) {
                    lemma_first_idx_concat(l0 + seq![m], r0, k);
                    lemma_first_idx_props(r0, k);
                    assert(s0[(l0 + seq![m]).len() + first_idx(r0, k)] == r0[first_idx(r0, k)]);
                }
            }
        },
    }
}

fn insert_at<K: TotalOrder, V>(node: &mut Option<Box<Node<K, V>>>, key: K, value: V)
    ensures
        shape_of(*final(node)) == shape_insert(shape_of(*old(node)), key),
        0 <= insert_pos(*old(node), key) <= entries_of(*old(node)).len(),
        entries_of(*final(node)) == entries_of(*old(node)).insert(
            insert_pos(*old(node), key),
            (key, value),
        ),
        wf_opt(*old(node)) ==> wf_opt(*final(node)) && insert_pos(*old(node), key) == count_leq(
            entries_of(*old(node)),
            key,
        ),
    decreases *old(node),
{
    match node.take() {
        None => {
            *node = Some(Box::new(Node { key, value, left: None, right: None }));
            proof {
                assert(entries_of(*node) =~= seq![(key, value)]);
                assert(entries_of(*old(node)).insert(0, (key, value)) =~= seq![(key, value)]);
                assert(shape_of(*node) == shape_insert(shape_of(*old(node)), key));
            }
        },
        Some(mut bn) => {
            let ghost left0 = bn.left;
            let ghost right0 = bn.right;
            let ghost l0 = entries_of(bn.left);
            let ghost r0 = entries_of(bn.right);
            let ghost m = (bn.key, bn.value);
            let ghost s0 = l0 + seq![m] + r0;
            let ghost kv = (key, value);
            proof {
                assert(entries_of(*old(node)) == s0);
                assert(shape_of(*old(node)) == TreeShape::Fork(
                    Box::new(shape_of(left0)),
                    m.0,
                    Box::new(shape_of(right0)),
                ));
                lemma_count_leq_one::<K, V>(m, key);
                lemma_count_leq_concat::<K, V>(l0, seq![m], key);
                lemma_count_leq_concat::<K, V>(l0 + seq![m], r0, key);
                assert(s0 == (l0 + seq![m]) + r0);
                lemma_count_leq_bounds::<K, V>(l0, key);
                lemma_count_leq_bounds::<K, V>(r0, key);
            }
            match key.cmp_with(&bn.key) {
                CmpResult::Lt => {
                    proof {
                        if wf_opt(*old(node)) {
                            assert(!m.0.leq(key)) by {
                                if m.0.leq(key) {
                                    K::lemma_antisym(key, m.0);
                                }
                            }
                            assert forall|i: int| 0 <= i < r0.len() implies !(
                            #[trigger] r0[i]).0.leq(key) by {
                                if r0[i].0.leq(key) {
                                    K::lemma_trans(m.0, r0[i].0, key);
                                    K::lemma_antisym(key, m.0);
                                }
                            }
                            lemma_count_leq_none::<K, V>(r0, key);
                            assert(count_leq(s0, key) == count_leq(l0, key));
                        }
                    }
                    insert_at(&mut bn.left, key, value);
                    *node = Some(bn);
                    proof {
                        let l1 = entries_of(bn.left);
                        let pl = insert_pos(left0, key);
                        assert(insert_pos(*old(node), key) == pl);
                        assert(l1 == l0.insert(pl, kv));
                        lemma_insert_front::<(K, V)>(l0, seq![m] + r0, pl, kv);
                        assert(l0 + (seq![m] + r0) =~= s0);
                        assert(entries_of(*node) =~= l1 + (seq![m] + r0));
                        assert(entries_of(*node) == s0.insert(pl, kv));
                        assert(shape_of(*node) == TreeShape::Fork(
                            Box::new(shape_insert(shape_of(left0), key)),
                            m.0,
                            Box::new(shape_of(right0)),
                        ));
                        assert(shape_of(*node) == shape_insert(shape_of(*old(node)), key));
                        if wf_opt(*old(node)) {
                            l0.insert_ensures(pl, kv);
                            assert forall|i: int| 0 <= i < l1.len() implies (
                            #[trigger] l1[i]).0.leq(m.0) && l1[i].0 != m.0 by {
                                if i < pl {
                                    assert(l1[i] == l0[i]);
                                } else if i == pl {
                                    assert(l1[i] == kv);
                                } else {
                                    assert(l1[i] == l0[i - 1]);
                                }
                            }
                            assert(keys_below(l1, m.0));
                            assert(wf_opt(*node));
                        }
                    }
                },
                c => {
                    proof {
                        assert(!(key.leq(m.0) && key != m.0)) by {
                            match c {
                                CmpResult::Lt => {
                                },
                                CmpResult::Eq => {
                                },
                                CmpResult::Gt => {
                                    if key.leq(m.0) {
                                        K::lemma_antisym(key, m.0);
                                    }
                                },
                            }
                        }
                        if wf_opt(*old(node)) {
                            assert(m.0.leq(key)) by {
                                match c {
                                    CmpResult::Lt => {
                                    },
                                    CmpResult::Eq => {
                                        K::lemma_refl(key);
                                    },
                                    CmpResult::Gt => {
                                    },
                                }
                            }
                            assert forall|i: int| 0 <= i < l0.len() implies (
                            #[trigger] l0[i]).0.leq(key) by {
                                K::lemma_trans(l0[i].0, m.0, key);
                            }
                            lemma_count_leq_all::<K, V>(l0, key);
                            assert(count_leq(s0, key) == l0.len() + 1 + count_leq(r0, key));
                        }
                    }
                    insert_at(&mut bn.right, key, value);
                    *node = Some(bn);
                    proof {
                        let r1 = entries_of(bn.right);
                        let pr = insert_pos(right0, key);
                        assert(insert_pos(*old(node), key) == l0.len() + 1 + pr);
                        assert(r1 == r0.insert(pr, kv));
                        lemma_insert_back::<(K, V)>(l0 + seq![m], r0, pr, kv);
                        assert((l0 + seq![m]) + r0 =~= s0);
                        assert(entries_of(*node) =~= (l0 + seq![m]) + r1);
                        assert(entries_of(*node) == s0.insert(insert_pos(*old(node), key), kv));
                        assert(shape_of(*node) == TreeShape::Fork(
                            Box::new(shape_of(left0)),
                            m.0,
                            Box::new(shape_insert(shape_of(right0), key)),
                        ));
                        assert(shape_of(*node) == shape_insert(shape_of(*old(node)), key));
                        if wf_opt(*old(node)) {
                            r0.insert_ensures(pr, kv);
                            assert forall|i: int| 0 <= i < r1.len() implies m.0.leq(
                                (#[trigger] r1[i]).0,
                            ) by {
                                if i < pr {
                                    assert(r1[i] == r0[i]);
                                } else if i == pr {
                                    assert(r1[i] == kv);
                                } else {
                                    assert(r1[i] == r0[i - 1]);
                                }
                            }
                            assert(keys_at_or_above(r1, m.0));
                            assert(wf_opt(*node));
                        }
                    }
                },
            }
        },
    }
}

proof fn lemma_remove_front<A>(a: Seq<A>, b: Seq<A>, i: int)
    requires
        0 <= i < a.len(),
    ensures
        (a + b).remove(i) == a.remove(i) + b,
{
    assert((a + b).remove(i) =~= a.remove(i) + b);
}

proof fn lemma_remove_back<A>(a: Seq<A>, b: Seq<A>, i: int)
    requires
        0 <= i < b.len(),
    ensures
        (a + b).remove(a.len() + i) == a + b.remove(i),
{
    assert((a + b).remove(a.len() + i) =~= a + b.remove(i));
}

/// Detaches the right-most entry of a non-empty subtree: the last entry in
/// in-order, which is also the greatest key of the subtree.
fn extract_max<K: TotalOrder, V>(node: &mut Option<Box<Node<K, V>>>) -> (kv: (K, V))
    requires
        old(node).is_some(),
    ensures
        entries_of(*old(node)) == entries_of(*final(node)).push(kv),
        kv.0 == shape_max(shape_of(*old(node))),
        shape_of(*final(node)) == shape_drop_max(shape_of(*old(node))),
        wf_opt(*old(node)) ==> wf_opt(*final(node)) && (forall|i: int|
            0 <= i < entries_of(*final(node)).len() ==> (
            #[trigger] entries_of(*final(node))[i]).0.leq(kv.0)),
    decreases *old(node),
{
    let mut bn = node.take().unwrap();
    let ghost left0 = bn.left;
    let ghost right0 = bn.right;
    let ghost l0 = entries_of(bn.left);
    let ghost r0 = entries_of(bn.right);
    let ghost m = (bn.key, bn.value);
    proof {
        assert(shape_of(*old(node)) == TreeShape::Fork(
            Box::new(shape_of(left0)),
            m.0,
            Box::new(shape_of(right0)),
        ));
    }
    if bn.right.is_some() {
        let kv = extract_max(&mut bn.right);
        let ghost r1 = entries_of(bn.right);
        *node = Some(bn);
        proof {
            assert(entries_of(*node) == l0 + seq![m] + r1);
            assert(r0 == r1.push(kv));
            assert((l0 + seq![m] + r1).push(kv) =~= l0 + seq![m] + r0);
            assert(shape_of(right0) is Fork);
            assert(kv.0 == shape_max(shape_of(right0)));
            assert(kv.0 == shape_max(shape_of(*old(node))));
            assert(shape_of(*node) == TreeShape::Fork(
                Box::new(shape_of(left0)),
                m.0,
                Box::new(shape_drop_max(shape_of(right0))),
            ));
            assert(shape_of(*node) == shape_drop_max(shape_of(*old(node))));
            if wf_opt(*old(node)) {
                assert(r0[r1.len() as int] == kv);
                assert(m.0.leq(kv.0));
                let s1 = entries_of(*node);
                assert forall|i: int| 0 <= i < s1.len() implies (#[trigger] s1[i]).0.leq(kv.0) by {
                    if i < l0.len() {
                        assert(s1[i] == l0[i]);
                        K::lemma_trans(l0[i].0, m.0, kv.0);
                    } else if i == l0.len() {
                        assert(s1[i] == m);
                    } else {
                        assert(s1[i] == r1[i - l0.len() - 1]);
                    }
                }
                assert forall|i: int| 0 <= i < r1.len() implies m.0.leq((#[trigger] r1[i]).0) by {
                    assert(r0[i] == r1[i]);
                }
                assert(wf_opt(*node));
            }
        }
        kv
    } else {
        let n0 = *bn;
        let Node { key: nk, value: nv, left: nl, right: _ } = n0;
        *node = nl;
        proof {
            assert(r0 =~= Seq::<(K, V)>::empty());
            assert(entries_of(*old(node)) == l0 + seq![m] + r0);
            assert(l0 + seq![m] + r0 =~= l0.push(m));
            assert(!(shape_of(right0) is Fork));
            assert(shape_max(shape_of(*old(node))) == nk);
            assert(shape_of(*node) == shape_drop_max(shape_of(*old(node))));
        }
        (nk, nv)
    }
}

fn remove_at<K: TotalOrder, V>(node: &mut Option<Box<Node<K, V>>>, key: K) -> (r: Result<V, ()>)
    ensures
        r == (match spec_search(*old(node), key) {
            Some(v) => Ok::<V, ()>(v),
            None => Err::<V, ()>(()),
        }),
        shape_of(*final(node)) == shape_remove(shape_of(*old(node)), key),
        spec_search(*old(node), key) is None ==> *final(node) == *old(node),
        spec_search(*old(node), key) matches Some(v) ==> ({
            let p = search_pos(*old(node), key);
            &&& 0 <= p < entries_of(*old(node)).len()
            &&& entries_of(*old(node))[p] == (key, v)
            &&& entries_of(*final(node)) == entries_of(*old(node)).remove(p)
        }),
        wf_opt(*old(node)) && has_key(entries_of(*old(node)), key) ==> r == Ok::<V, ()>(
            entries_of(*old(node))[first_idx(entries_of(*old(node)), key)].1,
        ) && entries_of(*final(node)) == entries_of(*old(node)).remove(
            first_idx(entries_of(*old(node)), key),
        ),
        wf_opt(*old(node)) && !has_key(entries_of(*old(node)), key) ==> r == Err::<V, ()>(()),
        wf_opt(*old(node)) && (!has_key(entries_of(*old(node)), key) || uniq_keys(
            entries_of(*old(node)),
        )) ==> wf_opt(*final(node)),
    decreases *old(node),
{
    match node.take() {
        None => Err(()),
        Some(mut bn) => {
            let ghost left0 = bn.left;
            let ghost right0 = bn.right;
            let ghost l0 = entries_of(bn.left);
            let ghost r0 = entries_of(bn.right);
            let ghost m = (bn.key, bn.value);
            let ghost s0 = l0 + seq![m] + r0;
            proof {
                assert(entries_of(*old(node)) == s0);
                assert(shape_of(*old(node)) == TreeShape::Fork(
                    Box::new(shape_of(left0)),
                    m.0,
                    Box::new(shape_of(right0)),
                ));
                lemma_has_key_concat(l0, seq![m], key);
                lemma_has_key_concat(l0 + seq![m], r0, key);
                assert(s0 == (l0 + seq![m]) + r0);
                assert(l0 + (seq![m] + r0) =~= s0);
                assert(uniq_keys(s0) ==> uniq_keys(l0) && uniq_keys(r0)) by {
                    if uniq_keys(s0) {
                        assert forall|i: int, j: int| 0 <= i < j < l0.len() implies (
                        #[trigger] l0[i]).0 != (#[trigger] l0[j]).0 by {
                            assert(s0[i] == l0[i] && s0[j] == l0[j]);
                        }
                        assert forall|i: int, j: int| 0 <= i < j < r0.len() implies (
                        #[trigger] r0[i]).0 != (#[trigger] r0[j]).0 by {
                            assert(s0[l0.len() + 1 + i] == r0[i] && s0[l0.len() + 1 + j] == r0[j]);
                        }
                    }
                }
            }
            match key.cmp_with(&bn.key) {
                CmpResult::Lt => {
                    let res = remove_at(&mut bn.left, key);
                    let ghost l1 = entries_of(bn.left);
                    let ghost lsh1 = shape_of(bn.left);
                    *node = Some(bn);
                    proof {
                        assert(spec_search(*old(node), key) == spec_search(left0, key));
                        assert(search_pos(*old(node), key) == search_pos(left0, key));
                        assert(shape_of(*node) == TreeShape::Fork(
                            Box::new(lsh1),
                            m.0,
                            Box::new(shape_of(right0)),
                        ));
                        assert(lsh1 == shape_remove(shape_of(left0), key));
                        assert(shape_of(*node) == shape_remove(shape_of(*old(node)), key));
                        match spec_search(left0, key) {
                            None => {
                                assert(*node == *old(node));
                            },
                            Some(v) => {
                                let p = search_pos(left0, key);
                                assert(0 <= p < l0.len());
                                assert(l0[p] == (key, v));
                                assert(l1 == l0.remove(p));
                                assert(s0[p] == l0[p]);
                                lemma_remove_front::<(K, V)>(l0, seq![m] + r0, p);
                                assert(entries_of(*node) =~= l1 + (seq![m] + r0));
                                assert(entries_of(*node) == s0.remove(p));
                            },
                        }
                        if wf_opt(*old(node)) {
                            assert(!has_key(seq![m], key)) by {
                                if has_key(seq![m], key) {
                                    let i = choose|i: int|
                                        0 <= i < seq![m].len() && (#[trigger] seq![m][i]).0 == key;
                                    assert(i == 0);
                                }
                            }
                            assert(!has_key(r0, key)) by {
                                if has_key(r0, key) {
                                    let i = choose|i: int|
                                        0 <= i < r0.len() && (#[trigger] r0[i]).0 == key;
                                    K::lemma_antisym(key, m.0);
                                }
                            }
                            assert(!has_key(seq![m] + r0, key)) by {
                                lemma_has_key_concat(seq![m], r0, key);
                            }
                            lemma_first_idx_concat(l0, seq![m] + r0, key);
                            if has_key(l0, key) {
                                lemma_first_idx_props(l0, key);
                                let fi = first_idx(l0, key);
                                assert(first_idx(s0, key) == fi);
                                assert(s0[fi] == l0[fi]);
                                lemma_remove_front::<(K, V)>(l0, seq![m] + r0, fi);
                                assert(entries_of(*node) =~= l1 + (seq![m] + r0));
                                assert(entries_of(*node) == s0.remove(fi));
                                if uniq_keys(s0) {
                                    l0.remove_ensures(fi);
                                    assert forall|i: int| 0 <= i < l1.len() implies (
                                    #[trigger] l1[i]).0.leq(m.0) && l1[i].0 != m.0 by {
                                        if i < fi {
                                            assert(l1[i] == l0[i]);
                                        } else {
                                            assert(l1[i] == l0[i + 1]);
                                        }
                                    }
                                    assert(wf_opt(*node));
                                }
                            } else {
                                assert(!has_key(s0, key));
                                lemma_search_entries(left0, key);
                                assert(*node == *old(node));
                            }
                        }
                    }
                    res
                },
                CmpResult::Gt => {
                    proof {
                        assert(!(key.leq(m.0) && key != m.0)) by {
                            if key.leq(m.0) {
                                K::lemma_antisym(key, m.0);
                            }
                        }
                    }
                    let res = remove_at(&mut bn.right, key);
                    let ghost r1 = entries_of(bn.right);
                    let ghost rsh1 = shape_of(bn.right);
                    *node = Some(bn);
                    proof {
                        assert(spec_search(*old(node), key) == spec_search(right0, key));
                        assert(search_pos(*old(node), key) == l0.len() + 1 + search_pos(
                            right0,
                            key,
                        ));
                        assert(shape_of(*node) == TreeShape::Fork(
                            Box::new(shape_of(left0)),
                            m.0,
                            Box::new(rsh1),
                        ));
                        assert(rsh1 == shape_remove(shape_of(right0), key));
                        assert(shape_of(*node) == shape_remove(shape_of(*old(node)), key));
                        match spec_search(right0, key) {
                            None => {
                                assert(*node == *old(node));
                            },
                            Some(v) => {
                                let p = search_pos(right0, key);
                                assert(0 <= p < r0.len());
                                assert(r0[p] == (key, v));
                                assert(r1 == r0.remove(p));
                                assert(s0[l0.len() + 1 + p] == r0[p]);
                                lemma_remove_back::<(K, V)>(l0 + seq![m], r0, p);
                                assert(entries_of(*node) =~= (l0 + seq![m]) + r1);
                                assert(entries_of(*node) == s0.remove(l0.len() + 1 + p));
                            },
                        }
                        if wf_opt(*old(node)) {
                            assert(!has_key(seq![m], key)) by {
                                if has_key(seq![m], key) {
                                    let i = choose|i: int|
                                        0 <= i < seq![m].len() && (#[trigger] seq![m][i]).0 == key;
                                    assert(i == 0);
                                }
                            }
                            assert(!has_key(l0, key)) by {
                                if has_key(l0, key) {
                                    let i = choose|i: int|
                                        0 <= i < l0.len() && (#[trigger] l0[i]).0 == key;
                                    K::lemma_antisym(key, m.0);
                                }
                            }
                            assert(!has_key(l0 + seq![m], key)) by {
                                lemma_has_key_concat(l0, seq![m], key);
                            }
                            lemma_first_idx_concat(l0 + seq![m], r0, key);
                            if has_key(r0, key) {
                                lemma_first_idx_props(r0, key);
                                let fi = first_idx(r0, key);
                                assert(first_idx(s0, key) == l0.len() + 1 + fi);
                                assert(s0[l0.len() + 1 + fi] == r0[fi]);
                                lemma_remove_back::<(K, V)>(l0 + seq![m], r0, fi);
                                assert(entries_of(*node) =~= (l0 + seq![m]) + r1);
                                assert(entries_of(*node) == s0.remove(l0.len() + 1 + fi));
                                if uniq_keys(s0) {
                                    r0.remove_ensures(fi);
                                    assert forall|i: int| 0 <= i < r1.len() implies m.0.leq(
                                        (#[trigger] r1[i]).0,
                                    ) by {
                                        if i < fi {
                                            assert(r1[i] == r0[i]);
                                        } else {
                                            assert(r1[i] == r0[i + 1]);
                                        }
                                    }
                                    assert(wf_opt(*node));
                                }
                            } else {
                                assert(!has_key(s0, key));
                                lemma_search_entries(right0, key);
                                assert(*node == *old(node));
                            }
                        }
                    }
                    res
                },
                CmpResult::Eq => {
                    proof {
                        assert(spec_search(*old(node), key) == Some(m.1));
                        assert(search_pos(*old(node), key) == l0.len());
                        assert(s0[l0.len() as int] == m);
                        assert(s0.remove(l0.len() as int) =~= l0 + r0);
                        if wf_opt(*old(node)) {
                            assert(!has_key(l0, key));
                            assert((seq![m] + r0)[0].0 == key);
                            lemma_first_idx_concat(l0, seq![m] + r0, key);
                            assert(first_idx(seq![m] + r0, key) == 0);
                            assert(first_idx(s0, key) == l0.len());
                            assert(has_key(s0, key)) by {
                                assert(s0[l0.len() as int].0 == key);
                            }
                        }
                    }
                    let n0 = *bn;
                    let Node { key: nk, value: nv, left: nl, right: nr } = n0;
                    match (nl, nr) {
                        (None, None) => {
                            *node = None;
                            proof {
                                assert(entries_of(*node) =~= l0 + r0);
                                assert(shape_of(*node) == shape_remove(
                                    shape_of(*old(node)),
                                    key,
                                ));
                            }
                            Ok(nv)
                        },
                        (None, Some(rn)) => {
                            *node = Some(rn);
                            proof {
                                assert(l0 + r0 =~= r0);
                                assert(shape_of(*node) == shape_of(right0));
                                assert(shape_of(*node) == shape_remove(
                                    shape_of(*old(node)),
                                    key,
                                ));
                            }
                            Ok(nv)
                        },
                        (Some(ln), None) => {
                            *node = Some(ln);
                            proof {
                                assert(l0 + r0 =~= l0);
                                assert(shape_of(*node) == shape_of(left0));
                                assert(shape_of(*node) == shape_remove(
                                    shape_of(*old(node)),
                                    key,
                                ));
                            }
                            Ok(nv)
                        },
                        (Some(ln), Some(rn)) => {
                            let mut lslot = Some(ln);
                            proof {
                                assert(lslot == left0);
                            }
                            let pkv = extract_max(&mut lslot);
                            let ghost l1 = entries_of(lslot);
                            let ghost lsh1 = shape_of(lslot);
                            *node = Some(
                                Box::new(
                                    Node { key: pkv.0, value: pkv.1, left: lslot, right: Some(rn) },
                                ),
                            );
                            proof {
                                assert(entries_of(*node) == l1 + seq![pkv] + entries_of(Some(rn)));
                                assert(entries_of(Some(rn)) == r0);
                                assert(l0 == l1.push(pkv));
                                assert(l1 + seq![pkv] + r0 =~= l0 + r0);
                                assert(entries_of(*node) == s0.remove(l0.len() as int));
                                assert(shape_of(left0) is Fork);
                                assert(shape_of(right0) is Fork);
                                assert(pkv.0 == shape_max(shape_of(left0)));
                                assert(lsh1 == shape_drop_max(shape_of(left0)));
                                assert(shape_of(*node) == TreeShape::Fork(
                                    Box::new(lsh1),
                                    pkv.0,
                                    Box::new(shape_of(right0)),
                                ));
                                assert(shape_of(*node) == shape_remove(
                                    shape_of(*old(node)),
                                    key,
                                ));
                                if wf_opt(*old(node)) && uniq_keys(s0) {
                                    assert(l0[l1.len() as int] == pkv);
                                    assert forall|i: int| 0 <= i < l1.len() implies (
                                    #[trigger] l1[i]).0.leq(pkv.0) && l1[i].0 != pkv.0 by {
                                        assert(l1[i] == l0[i]);
                                    }
                                    assert(keys_below(l1, pkv.0));
                                    assert(pkv.0.leq(m.0) && pkv.0 != m.0);
                                    assert forall|i: int| 0 <= i < r0.len() implies pkv.0.leq(
                                        (#[trigger] r0[i]).0,
                                    ) by {
                                        K::lemma_trans(pkv.0, m.0, r0[i].0);
                                    }
                                    assert(keys_at_or_above(r0, pkv.0));
                                    assert(wf_opt(*node));
                                }
                            }
                            Ok(nv)
                        },
                    }
                },
            }
        },
    }
}

impl<K: TotalOrder, V> BSTree<K, V> {
    /// Looks the key up without changing the tree.  The result is exactly
    /// what the search walk finds; on a well-formed tree that is the first
    /// in-order entry with this key, or nothing when no entry has it.
    pub fn get(&self, key: K) -> (r: Option<V>) where V: Copy
        ensures
            r == self.spec_get(key),
            self.well_formed() ==> r == (if has_key(self@, key) {
                Some(self@[first_idx(self@, key)].1)
            } else {
                None::<V>
            }),
    {
        proof {
            if self.well_formed() {
                lemma_search_entries(self.root, key);
            }
        }
        search_at(&self.root, key)
    }

    /// Inserts the entry.  A new fork grows at the tip that the descend
    /// walk reaches — left of a strictly greater key, right of one at or
    /// below — and every existing node keeps its key, value and children.
    /// On a well-formed tree the entry lands in the in-order sequence right
    /// after every entry whose key is at or below the new key, so an equal
    /// key goes to the right of its duplicates and the rest keep their
    /// order.
    pub fn insert(&mut self, key: K, value: V)
        ensures
            final(self).shape() == shape_insert(old(self).shape(), key),
            exists|p: int|
                0 <= p <= old(self)@.len() && final(self)@ == old(self)@.insert(
                    p,
                    (key, value),
                ),
            old(self).well_formed() ==> final(self).well_formed() && final(self)@ == old(
                self,
            )@.insert(count_leq(old(self)@, key), (key, value)),
    {
        let ghost root0 = self.root;
        insert_at(&mut self.root, key, value);
        proof {
            let p = insert_pos(root0, key);
            assert(0 <= p <= old(self)@.len());
            assert(self@ == old(self)@.insert(p, (key, value)));
        }
    }

    /// Removes the entry that the search walk finds for `key` and returns
    /// its value; succeeds exactly when the search hits, and on a
    /// well-formed tree that is exactly when some entry has the key.  The
    /// fork the hit lands on is replaced by its only subtree, or, with two
    /// subtrees, takes over the key and value of its in-order predecessor —
    /// the greatest key of its left subtree — whose own fork is spliced
    /// out.  A miss leaves the tree untouched.  When the keys are distinct
    /// the tree stays well formed; a duplicate key can leave the deeper
    /// copy ordered ahead of the promoted predecessor, so well-formedness
    /// is only promised then for a removal that misses.
    pub fn remove(&mut self, key: K) -> (r: Result<V, ()>)
        ensures
            r == (match old(self).spec_get(key) {
                Some(v) => Ok::<V, ()>(v),
                None => Err::<V, ()>(()),
            }),
            final(self).shape() == shape_remove(old(self).shape(), key),
            old(self).spec_get(key) is None ==> final(self)@ == old(self)@ && final(self).shape()
                == old(self).shape(),
            old(self).spec_get(key) matches Some(v) ==> (exists|p: int|
                0 <= p < old(self)@.len() && (#[trigger] old(self)@[p]) == (key, v)
                    && final(self)@ == old(self)@.remove(p)),
            old(self).well_formed() && has_key(old(self)@, key) ==> r == Ok::<V, ()>(
                old(self)@[first_idx(old(self)@, key)].1,
            ) && final(self)@ == old(self)@.remove(first_idx(old(self)@, key)),
            old(self).well_formed() && !has_key(old(self)@, key) ==> r == Err::<V, ()>(())
                && final(self)@ == old(self)@,
            old(self).well_formed() && (!has_key(old(self)@, key) || uniq_keys(old(self)@))
                ==> final(self).well_formed(),
    {
        let ghost root0 = self.root;
        let r = remove_at(&mut self.root, key);
        proof {
            if old(self).spec_get(key) is Some {
                let p = search_pos(root0, key);
                let v = old(self).spec_get(key).unwrap();
                assert(0 <= p < old(self)@.len());
                assert(old(self)@[p] == (key, v));
                assert(self@ == old(self)@.remove(p));
            }
            if wf_opt(root0) && !has_key(entries_of(root0), key) {
                lemma_search_entries(root0, key);
            }
        }
        r
    }
}


/// The in-order entries that repeated insertion builds from a sequence of
/// entries, inserting each one after all entries with a key at or below its
/// own.
pub open spec fn inserted_entries<K: TotalOrder, V>(s: Seq<(K, V)>) -> Seq<(K, V)>
    decreases s.len(),
{
    if s.len() == 0 {
        Seq::empty()
    } else {
        let prev = inserted_entries(s.drop_last());
        prev.insert(count_leq(prev, s.last().0), s.last())
    }
}

/// The shape that repeated insertion builds from a sequence of entries.
pub open spec fn inserted_shape<K: TotalOrder, V>(s: Seq<(K, V)>) -> TreeShape<K>
    decreases s.len(),
{
    if s.len() == 0 {
        TreeShape::Tip
    } else {
        shape_insert(inserted_shape(s.drop_last()), s.last().0)
    }
}

proof fn lemma_wf_sorted<K: TotalOrder, V>(t: Option<Box<Node<K, V>>>)
    requires
        wf_opt(t),
    ensures
        forall|i: int, j: int|
            0 <= i < j < entries_of(t).len() ==> (#[trigger] entries_of(t)[i]).0.leq(
                (#[trigger] entries_of(t)[j]).0,
            ),
    decreases t,
{
    match t {
        None => {
        },
        Some(n) => {
            lemma_wf_sorted(n.left);
            lemma_wf_sorted(n.right);
            let l0 = entries_of(n.left);
            let r0 = entries_of(n.right);
            let m = (n.key, n.value);
            let s0 = entries_of(t);
            assert(s0 == l0 + seq![m] + r0);
            assert forall|i: int, j: int| 0 <= i < j < s0.len() implies (#[trigger] s0[i]).0.leq(
                (#[trigger] s0[j]).0,
            ) by {
                let ll = l0.len() as int;
                if j < ll {
                    assert(s0[i] == l0[i] && s0[j] == l0[j]);
                } else if i < ll && j == ll {
                    assert(s0[i] == l0[i] && s0[j] == m);
                } else if i < ll && j > ll {
                    assert(s0[i] == l0[i] && s0[j] == r0[j - ll - 1]);
                    K::lemma_trans(l0[i].0, m.0, r0[j - ll - 1].0);
                } else if i == ll {
                    assert(s0[i] == m && s0[j] == r0[j - ll - 1]);
                } else {
                    assert(s0[i] == r0[i - ll - 1] && s0[j] == r0[j - ll - 1]);
                }
            }
        },
    }
}

impl<K: TotalOrder, V> BSTree<K, V> {
    /// Law: on a well-formed tree the in-order entries carry keys in
    /// ascending order, and strictly ascending when the keys are distinct.
    pub proof fn lemma_in_order_ascending(self)
        requires
            self.well_formed(),
        ensures
            forall|i: int, j: int|
                0 <= i < j < self@.len() ==> (#[trigger] self@[i]).0.leq((#[trigger] self@[j]).0),
            uniq_keys(self@) ==> forall|i: int, j: int|
                0 <= i < j < self@.len() ==> (#[trigger] self@[i]).0.leq((#[trigger] self@[j]).0)
                    && self@[i].0 != self@[j].0,
    {
        lemma_wf_sorted(self.root);
    }

    /// Law: inserting a key that is not yet present and then looking it up
    /// gives back the inserted value.  (Inserting a key that is already
    /// present adds an entry that stays shadowed by the old one, so that
    /// case is excluded here.)
    pub proof fn lemma_get_after_insert(pre: Self, post: Self, key: K, value: V)
        requires
            pre.well_formed(),
            post.well_formed(),
            !has_key(pre@, key),
            post@ == pre@.insert(count_leq(pre@, key), (key, value)),
        ensures
            post.spec_get(key) == Some(value),
    {
        let j = count_leq(pre@, key);
        lemma_count_leq_bounds::<K, V>(pre@, key);
        pre@.insert_ensures(j, (key, value));
        assert(post@[j] == (key, value));
        assert forall|i: int| 0 <= i < j implies (#[trigger] post@[i]).0 != key by {
            assert(post@[i] == pre@[i]);
            if post@[i].0 == key {
                assert(pre@[i].0 == key);
                assert(has_key(pre@, key));
            }
        }
        lemma_first_idx_at(post@, key, j);
        lemma_search_entries(post.root, key);
    }

    /// Law: removing a key from a tree with distinct keys leaves no entry
    /// with that key, so a later lookup misses and a later removal of the
    /// same key reports the miss.
    pub proof fn lemma_gone_after_remove(pre: Self, post: Self, key: K)
        requires
            pre.well_formed(),
            uniq_keys(pre@),
            has_key(pre@, key),
            post@ == pre@.remove(first_idx(pre@, key)),
            post.well_formed(),
        ensures
            !has_key(post@, key),
            post.spec_get(key) == None::<V>,
    {
        lemma_first_idx_props(pre@, key);
        let fi = first_idx(pre@, key);
        pre@.remove_ensures(fi);
        assert forall|i: int| 0 <= i < post@.len() implies (#[trigger] post@[i]).0 != key by {
            if i < fi {
                assert(post@[i] == pre@[i]);
            } else {
                assert(post@[i] == pre@[i + 1]);
                if post@[i].0 == key {
                    assert(pre@[fi].0 == pre@[i + 1].0);
                }
            }
        }
        lemma_search_entries(post.root, key);
    }

    /// Law: an insertion grows the entry count by exactly one.
    pub proof fn lemma_insert_grows(pre: Self, post: Self, key: K, value: V)
        requires
            post@ == pre@.insert(count_leq(pre@, key), (key, value)),
        ensures
            post@.len() == pre@.len() + 1,
    {
        lemma_count_leq_bounds::<K, V>(pre@, key);
        pre@.insert_ensures(count_leq(pre@, key), (key, value));
    }

    /// Law: a removal that succeeds shrinks the entry count by exactly one;
    /// a miss leaves the tree as it was.
    pub proof fn lemma_remove_shrinks(pre: Self, post: Self, key: K)
        requires
            has_key(pre@, key),
            post@ == pre@.remove(first_idx(pre@, key)),
        ensures
            post@.len() == pre@.len() - 1,
    {
        lemma_first_idx_props(pre@, key);
        pre@.remove_ensures(first_idx(pre@, key));
    }

    /// Law: an empty tree has no key to remove, so removal always misses.
    pub proof fn lemma_empty_misses(self, key: K)
        requires
            self@.len() == 0,
        ensures
            !has_key(self@, key),
    {
    }

    /// Bulk-loads a tree by inserting the entries in sequence order.
    pub fn from_slice(items: &[(K, V)]) -> (tree: Self) where V: Copy
        ensures
            tree.well_formed(),
            tree@ == inserted_entries(items@),
            tree.shape() == inserted_shape(items@),
    {
        let mut tree = Self::new();
        let mut i: usize = 0;
        while i < items.len()
            invariant
                0 <= i <= items@.len(),
                tree.well_formed(),
                tree@ == inserted_entries(items@.take(i as int)),
                tree.shape() == inserted_shape(items@.take(i as int)),
            decreases items@.len() - i,
        {
            let (k, v) = items[i];
            tree.insert(k, v);
            proof {
                assert(items@.take(i as int + 1).drop_last() =~= items@.take(i as int));
                assert(items@.take(i as int + 1).last() == items@[i as int]);
            }
            i += 1;
        }
        proof {
            assert(items@.take(items@.len() as int) =~= items@);
        }
        tree
    }
}

/// The keys of a shape in pre-order: fork, then left, then right.
pub open spec fn shape_pre_keys<K>(s: TreeShape<K>) -> Seq<K>
    decreases s,
{
    match s {
        TreeShape::Tip => Seq::empty(),
        TreeShape::Fork(l, k, r) => seq![k] + shape_pre_keys(*l) + shape_pre_keys(*r),
    }
}

/// The keys of a shape in post-order: left, then right, then fork.
pub open spec fn shape_post_keys<K>(s: TreeShape<K>) -> Seq<K>
    decreases s,
{
    match s {
        TreeShape::Tip => Seq::empty(),
        TreeShape::Fork(l, k, r) => shape_post_keys(*l) + shape_post_keys(*r) + seq![k],
    }
}

/// The keys of a subtree in in-order: left, then node, then right.
spec fn in_keys_of<K, V>(t: Option<Box<Node<K, V>>>) -> Seq<K>
    decreases t,
{
    match t {
        None => Seq::empty(),
        Some(n) => in_keys_of(n.left) + seq![n.key] + in_keys_of(n.right),
    }
}

proof fn lemma_in_keys_entries<K, V>(t: Option<Box<Node<K, V>>>)
    ensures
        in_keys_of(t) == entries_of(t).map_values(|e: (K, V)| e.0),
    decreases t,
{
    match t {
        None => {
            assert(in_keys_of(t) =~= entries_of(t).map_values(|e: (K, V)| e.0));
        },
        Some(n) => {
            lemma_in_keys_entries(n.left);
            lemma_in_keys_entries(n.right);
            assert(in_keys_of(t) =~= entries_of(t).map_values(|e: (K, V)| e.0));
        },
    }
}

/// The number of forks in a shape.
pub open spec fn shape_size<K>(s: TreeShape<K>) -> nat
    decreases s,
{
    match s {
        TreeShape::Tip => 0,
        TreeShape::Fork(l, k, r) => 1 + shape_size(*l) + shape_size(*r),
    }
}

/// The children of a fork that are themselves forks, left before right.
pub open spec fn shape_kids<K>(s: TreeShape<K>) -> Seq<TreeShape<K>> {
    match s {
        TreeShape::Tip => Seq::empty(),
        TreeShape::Fork(l, k, r) => (if *l is Fork {
            seq![*l]
        } else {
            Seq::empty()
        }) + (if *r is Fork {
            seq![*r]
        } else {
            Seq::empty()
        }),
    }
}

/// The number of forks in all the shapes of a queue.
pub open spec fn srow_total<K>(q: Seq<TreeShape<K>>) -> nat
    decreases q.len(),
{
    if q.len() == 0 {
        0
    } else {
        shape_size(q[0]) + srow_total(q.drop_first())
    }
}

proof fn lemma_srow_total_concat<K>(a: Seq<TreeShape<K>>, b: Seq<TreeShape<K>>)
    ensures
        srow_total(a + b) == srow_total(a) + srow_total(b),
    decreases a.len(),
{
    if a.len() == 0 {
        assert(a + b =~= b);
    } else {
        assert((a + b)[0] == a[0]);
        assert((a + b).drop_first() =~= a.drop_first() + b);
        lemma_srow_total_concat(a.drop_first(), b);
    }
}

proof fn lemma_srow_total_one<K>(s: TreeShape<K>)
    ensures
        srow_total(seq![s]) == shape_size(s),
{
    assert(seq![s].drop_first() =~= Seq::<TreeShape<K>>::empty());
    assert(srow_total(Seq::<TreeShape<K>>::empty()) == 0);
}

proof fn lemma_srow_total_kids<K>(s: TreeShape<K>)
    requires
        s is Fork,
    ensures
        srow_total(shape_kids(s)) + 1 == shape_size(s),
{
    match s {
        TreeShape::Tip => {
        },
        TreeShape::Fork(l, k, r) => {
            if *l is Fork {
                lemma_srow_total_one(*l);
                if *r is Fork {
                    lemma_srow_total_one(*r);
                    lemma_srow_total_concat(seq![*l], seq![*r]);
                } else {
                    assert(shape_kids(s) =~= seq![*l]);
                    assert(shape_size(*r) == 0);
                }
            } else {
                assert(shape_size(*l) == 0);
                if *r is Fork {
                    lemma_srow_total_one(*r);
                    assert(shape_kids(s) =~= seq![*r]);
                } else {
                    assert(shape_kids(s) =~= Seq::<TreeShape<K>>::empty());
                    assert(shape_size(*r) == 0);
                }
            }
        },
    }
}

/// The keys in breadth-first order, starting from a queue of pending
/// shapes: the first fork's key, then the rest of the queue with that
/// fork's children appended at the back.
pub open spec fn shape_bfs_from<K>(q: Seq<TreeShape<K>>) -> Seq<K>
    decreases srow_total(q), q.len(),
    via shape_bfs_from_dec::<K>
{
    if q.len() == 0 {
        Seq::empty()
    } else {
        match q[0] {
            TreeShape::Tip => shape_bfs_from(q.drop_first()),
            TreeShape::Fork(l, k, r) => seq![k] + shape_bfs_from(
                q.drop_first() + shape_kids(q[0]),
            ),
        }
    }
}

#[via_fn]
proof fn shape_bfs_from_dec<K>(q: Seq<TreeShape<K>>) {
    if q.len() > 0 {
        match q[0] {
            TreeShape::Tip => {
                assert(srow_total(q) == shape_size(q[0]) + srow_total(q.drop_first()));
            },
            TreeShape::Fork(l, k, r) => {
                lemma_srow_total_concat(q.drop_first(), shape_kids(q[0]));
                lemma_srow_total_kids(q[0]);
            },
        }
    }
}

/// The keys of a shape level by level, each level left to right.
pub open spec fn shape_bfs_keys<K>(s: TreeShape<K>) -> Seq<K> {
    match s {
        TreeShape::Tip => Seq::empty(),
        TreeShape::Fork(l, k, r) => shape_bfs_from(seq![s]),
    }
}

fn pre_collect<K: TotalOrder, V>(node: &Option<Box<Node<K, V>>>, out: &mut Vec<K>)
    ensures
        final(out)@ == old(out)@ + shape_pre_keys(shape_of(*node)),
    decreases *node,
{
    match node {
        None => {
            proof {
                assert(out@ =~= out@ + shape_pre_keys(shape_of(*node)));
            }
        },
        Some(n) => {
            out.push(n.key);
            pre_collect(&n.left, out);
            pre_collect(&n.right, out);
            proof {
                assert(shape_of(*node) == TreeShape::Fork(
                    Box::new(shape_of(n.left)),
                    n.key,
                    Box::new(shape_of(n.right)),
                ));
                assert(out@ =~= old(out)@ + shape_pre_keys(shape_of(*node)));
            }
        },
    }
}

fn in_collect<K: TotalOrder, V>(node: &Option<Box<Node<K, V>>>, out: &mut Vec<K>)
    ensures
        final(out)@ == old(out)@ + in_keys_of(*node),
    decreases *node,
{
    match node {
        None => {
            proof {
                assert(out@ =~= out@ + in_keys_of(*node));
            }
        },
        Some(n) => {
            in_collect(&n.left, out);
            out.push(n.key);
            in_collect(&n.right, out);
            proof {
                assert(out@ =~= old(out)@ + in_keys_of(*node));
            }
        },
    }
}

fn post_collect<K: TotalOrder, V>(node: &Option<Box<Node<K, V>>>, out: &mut Vec<K>)
    ensures
        final(out)@ == old(out)@ + shape_post_keys(shape_of(*node)),
    decreases *node,
{
    match node {
        None => {
            proof {
                assert(out@ =~= out@ + shape_post_keys(shape_of(*node)));
            }
        },
        Some(n) => {
            post_collect(&n.left, out);
            post_collect(&n.right, out);
            out.push(n.key);
            proof {
                assert(shape_of(*node) == TreeShape::Fork(
                    Box::new(shape_of(n.left)),
                    n.key,
                    Box::new(shape_of(n.right)),
                ));
                assert(out@ =~= old(out)@ + shape_post_keys(shape_of(*node)));
            }
        },
    }
}

impl<K: TotalOrder + ToText, V> BSTree<K, V> {
    /// Renders the keys in pre-order, or the empty marker.
    pub fn pre_order_traversal(&self) -> (out: String)
        ensures
            out@ == rendered(shape_pre_keys(self.shape())),
    {
        let mut keys: Vec<K> = Vec::new();
        pre_collect(&self.root, &mut keys);
        render_line(&keys)
    }

    /// Renders the keys in in-order, or the empty marker.  In-order is the
    /// entry order of the view, so on a well-formed tree the keys come out
    /// ascending.
    pub fn in_order_traversal(&self) -> (out: String)
        ensures
            out@ == rendered(self@.map_values(|e: (K, V)| e.0)),
    {
        let mut keys: Vec<K> = Vec::new();
        in_collect(&self.root, &mut keys);
        proof {
            lemma_in_keys_entries(self.root);
        }
        render_line(&keys)
    }

    /// Renders the keys in post-order, or the empty marker.
    pub fn post_order_traversal(&self) -> (out: String)
        ensures
            out@ == rendered(shape_post_keys(self.shape())),
    {
        let mut keys: Vec<K> = Vec::new();
        post_collect(&self.root, &mut keys);
        render_line(&keys)
    }

    /// Renders the keys level by level from the root, each level left to
    /// right, or the empty marker.
    pub fn breadth_first_traversal(&self) -> (out: String)
        ensures
            out@ == rendered(shape_bfs_keys(self.shape())),
    {
        let mut keys: Vec<K> = Vec::new();
        match &self.root {
            None => {
                proof {
                    assert(keys@ =~= shape_bfs_keys(self.shape()));
                }
            },
            Some(root) => {
                let mut queue: Vec<&Node<K, V>> = Vec::new();
                queue.push(root);
                proof {
                    assert(self.shape() == shape_node(**root));
                    assert(queue@.skip(0).map_values(|p: &Node<K, V>| shape_node(*p)) =~= seq![
                        self.shape(),
                    ]);
                    assert(shape_bfs_keys(self.shape()) == shape_bfs_from(seq![self.shape()]));
                }
                let mut head: usize = 0;
                while head < queue.len()
                    invariant
                        0 <= head <= queue@.len(),
                        keys@ + shape_bfs_from(
                            queue@.skip(head as int).map_values(|p: &Node<K, V>| shape_node(*p)),
                        ) == shape_bfs_keys(self.shape()),
                    decreases srow_total(
                        queue@.skip(head as int).map_values(|p: &Node<K, V>| shape_node(*p)),
                    ),
                {
                    let ghost q0 = queue@;
                    let ghost h0 = head as int;
                    let ghost rem0 = q0.skip(h0).map_values(|p: &Node<K, V>| shape_node(*p));
                    let ghost keys0 = keys@;
                    let n: &Node<K, V> = queue[head];
                    head += 1;
                    keys.push(n.key);
                    match &n.left {
                        Some(l) => queue.push(l),
                        None => {},
                    }
                    match &n.right {
                        Some(r) => queue.push(r),
                        None => {},
                    }
                    proof {
                        let rem1 = queue@.skip(h0 + 1).map_values(|p: &Node<K, V>| shape_node(*p));
                        assert(rem0[0] == shape_node(*n));
                        assert(rem1 =~= rem0.drop_first() + shape_kids(rem0[0]));
                        assert(shape_bfs_from(rem0) == seq![n.key] + shape_bfs_from(
                            rem0.drop_first() + shape_kids(rem0[0]),
                        ));
                        assert(keys@ =~= keys0 + seq![n.key]);
                        assert(keys@ + shape_bfs_from(rem1) =~= keys0 + shape_bfs_from(rem0));
                        lemma_srow_total_concat(rem0.drop_first(), shape_kids(rem0[0]));
                        lemma_srow_total_kids(rem0[0]);
                    }
                }
                proof {
                    assert(queue@.skip(queue@.len() as int).map_values(
                        |p: &Node<K, V>| shape_node(*p),
                    ) =~= Seq::<TreeShape<K>>::empty());
                    assert(keys@ =~= keys@ + Seq::<K>::empty());
                    assert(keys@ == shape_bfs_keys(self.shape()));
                }
            },
        }
        render_line(&keys)
    }
}

} // verus!
