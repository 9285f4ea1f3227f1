//! A radix tree: a map from byte strings to values whose nodes share common
//! prefixes. Each node holds a prefix, an optional value, and its children,
//! ordered by the first byte of their prefixes.
use vstd::prelude::*;
use crate::data_structures::bytes::copy_bytes;

verus! {

struct RadixNode<V> {
    prefix: Vec<u8>,
    children: Vec<(u8, RadixNode<V>)>,
    value: Option<V>,
}

/// A map from byte strings to values, stored as a radix tree.
pub struct RadixTree<V> {
    root: RadixNode<V>,
}

impl<V> RadixTree<V> {
    /// The tree is well formed and its root has an empty prefix.
    pub closed spec fn wf(&self) -> bool {
        wf_node(self.root) && self.root.prefix@.len() == 0
    }
}

impl<V> View for RadixTree<V> {
    type V = Map<Seq<u8>, V>;

    closed spec fn view(&self) -> Map<Seq<u8>, V> {
        tree_map(self.root)
    }
}

impl<V> RadixTree<V> {
    /// The value that `key` maps to, to read.
    pub fn peek(&self, key: &[u8]) -> (r: Option<&V>)
        requires
            self.wf(),
        ensures
            match r {
                Some(v) => self@.contains_key(key@) && *v == self@[key@],
                None => !self@.contains_key(key@),
            },
    {
        peek_rec(&self.root, key)
    }
}

fn peek_rec<'a, V>(node: &'a RadixNode<V>, key: &[u8]) -> (r: Option<&'a V>)
    requires
        wf_node(*node),
    ensures
        match r {
            Some(v) => lookup(*node, key@) == Some(*v),
            None => lookup(*node, key@) is None,
        },
    decreases *node,
{
    if !starts_with(key, node.prefix.as_slice()) {
        return None;
    }
    let plen = node.prefix.len();
    let rem = &key[plen..key.len()];
    assert(rem@ == key@.skip(plen as int));
    if rem.len() == 0 {
        return match &node.value {
            Some(v) => Some(v),
            None => None,
        };
    }
    let i = match find_child(node, rem[0]) {
        Some(i) => i,
        None => return None,
    };
    proof {
        lemma_split_key(key@, node.prefix@);
        assert(has_child(*node, rem@[0]));
        assert(decreases_to!(*node => node.children));
        assert(decreases_to!(node.children => node.children@));
        assert(decreases_to!(node.children@ => node.children@[i as int]));
        assert(decreases_to!(node.children@[i as int] => node.children@[i as int].1));
    }
    peek_rec(&node.children[i].1, rem)
}

spec fn tree_map<V>(root: RadixNode<V>) -> Map<Seq<u8>, V> {
    Map::new(|k: Seq<u8>| lookup(root, k) is Some, |k: Seq<u8>| lookup(root, k).unwrap())
}

impl<V> RadixTree<V> {
    /// An empty tree.
    pub fn new() -> (r: Self)
        ensures
            r.wf(),
            r@ == Map::<Seq<u8>, V>::empty(),
    {
        let r = RadixTree { root: RadixNode { prefix: Vec::new(), children: Vec::new(), value: None } };
        proof {
            assert forall|k: Seq<u8>| !(#[trigger] lookup(r.root, k) is Some) by {
                if has_prefix(k, r.root.prefix@) {
                    let rem = k.skip(0);
                    if rem.len() > 0 {
                        assert(!has_child(r.root, rem[0]));
                    }
                }
            }
            assert(tree_map(r.root) =~= Map::<Seq<u8>, V>::empty());
        }
        r
    }

    /// Maps `key` to `value`, replacing what it mapped to before.
    pub fn insert(&mut self, key: &[u8], value: V)
        requires
            old(self).wf(),
        ensures
            final(self).wf(),
            final(self)@ == old(self)@.insert(key@, value),
    {
        let ghost r0 = self.root;
        insert_rec(&mut self.root, key, value);
        proof {
            assert(tree_map(self.root) =~= tree_map(r0).insert(key@, value)) by {
                assert forall|k: Seq<u8>| #[trigger] tree_map(self.root).contains_key(k)
                    == tree_map(r0).insert(key@, value).contains_key(k) by {
                    assert(lookup(self.root, k) == if k == key@ { Some(value) } else { lookup(r0, k) });
                }
                assert forall|k: Seq<u8>| #[trigger] tree_map(self.root).contains_key(k)
                    implies tree_map(self.root)[k] == tree_map(r0).insert(key@, value)[k] by {
                    assert(lookup(self.root, k) == if k == key@ { Some(value) } else { lookup(r0, k) });
                }
            }
        }
    }

    /// The value that `key` maps to, to read or change in place.
    pub fn get(&mut self, key: &[u8]) -> (r: Option<&mut V>)
        requires
            old(self).wf(),
        ensures
            final(self).wf(),
            match r {
                Some(v) => old(self)@.contains_key(key@) && *v == old(self)@[key@]
                    && final(self)@ == old(self)@.insert(key@, *final(v)),
                None => !old(self)@.contains_key(key@) && final(self)@ == old(self)@,
            },
    {
        proof {
            let r0 = self.root;
            assert forall|new_root: RadixNode<V>|
                (forall|k: Seq<u8>| #![trigger lookup(new_root, k)]
                    k != key@ ==> lookup(new_root, k) == lookup(r0, k))
                implies (lookup(new_root, key@) matches Some(v) ==> #[trigger] tree_map(new_root)
                    == tree_map(r0).insert(key@, v)) && (lookup(new_root, key@) is None
                    && lookup(r0, key@) is None ==> tree_map(new_root) == tree_map(r0)) by {
                lemma_tree_map_update(r0, new_root, key@);
            }
        }
        get_rec(&mut self.root, key)
    }
}

proof fn lemma_tree_map_update<V>(r0: RadixNode<V>, r1: RadixNode<V>, key: Seq<u8>)
    requires
        forall|k: Seq<u8>| #![trigger lookup(r1, k)] k != key ==> lookup(r1, k) == lookup(r0, k),
    ensures
        lookup(r1, key) matches Some(v) ==> tree_map(r1) == tree_map(r0).insert(key, v),
        lookup(r1, key) is None && lookup(r0, key) is None ==> tree_map(r1) == tree_map(r0),
{
    if let Some(v) = lookup(r1, key) {
        assert(tree_map(r1) =~= tree_map(r0).insert(key, v)) by {
            assert forall|k: Seq<u8>| #[trigger] tree_map(r1).contains_key(k)
                == tree_map(r0).insert(key, v).contains_key(k) by {
                if k != key {
                    assert(lookup(r1, k) == lookup(r0, k));
                }
            }
            assert forall|k: Seq<u8>| #[trigger] tree_map(r1).contains_key(k)
                implies tree_map(r1)[k] == tree_map(r0).insert(key, v)[k] by {
                if k != key {
                    assert(lookup(r1, k) == lookup(r0, k));
                }
            }
        }
    } else if lookup(r0, key) is None {
        assert(tree_map(r1) =~= tree_map(r0)) by {
            assert forall|k: Seq<u8>| #[trigger] tree_map(r1).contains_key(k)
                == tree_map(r0).contains_key(k) by {
                if k != key {
                    assert(lookup(r1, k) == lookup(r0, k));
                }
            }
            assert forall|k: Seq<u8>| #[trigger] tree_map(r1).contains_key(k)
                implies tree_map(r1)[k] == tree_map(r0)[k] by {
                if k != key {
                    assert(lookup(r1, k) == lookup(r0, k));
                }
            }
        }
    }
}

/// `key` begins with `p`.
pub open spec fn has_prefix(key: Seq<u8>, p: Seq<u8>) -> bool {
    p.len() <= key.len() && key.take(p.len() as int) == p
}

/// Some child of the node is tagged with byte `b`.
spec fn has_child<V>(n: RadixNode<V>, b: u8) -> bool {
    exists|i: int| 0 <= i < n.children@.len() && n.children@[i].0 == b
}

/// The index of the child tagged with byte `b`.
spec fn child_index<V>(n: RadixNode<V>, b: u8) -> int {
    choose|i: int| 0 <= i < n.children@.len() && n.children@[i].0 == b
}

/// The value that the subtree at `n` holds for `key`, where `key` includes
/// the node's own prefix.
spec fn lookup<V>(n: RadixNode<V>, key: Seq<u8>) -> Option<V>
    decreases n,
{
    let p = n.prefix@;
    if !has_prefix(key, p) {
        None
    } else {
        let rem = key.skip(p.len() as int);
        if rem.len() == 0 {
            n.value
        } else if has_child(n, rem[0]) {
            let i = child_index(n, rem[0]);
            proof {
                assert(decreases_to!(n => n.children));
                assert(decreases_to!(n.children => n.children@));
                assert(decreases_to!(n.children@ => n.children@[i]));
                assert(decreases_to!(n.children@[i] => n.children@[i].1));
            }
            lookup(n.children@[i].1, rem)
        } else {
            None
        }
    }
}

/// Each child's prefix is non-empty and begins with its tag; the tags rise
/// strictly; the children are well formed themselves.
spec fn wf_node<V>(n: RadixNode<V>) -> bool
    decreases n,
{
    &&& forall|i: int|
        0 <= i < n.children@.len() ==> (#[trigger] n.children@[i]).1.prefix@.len() > 0
            && n.children@[i].1.prefix@[0] == n.children@[i].0
    &&& forall|i: int, j: int|
        0 <= i < j < n.children@.len() ==> (#[trigger] n.children@[i]).0 < (#[trigger] n.children@[j]).0
    &&& forall|i: int|
        0 <= i < n.children@.len() ==> {
            proof {
                assert(decreases_to!(n => n.children));
                assert(decreases_to!(n.children => n.children@));
                assert(decreases_to!(n.children@ => n.children@[i]));
                assert(decreases_to!(n.children@[i] => n.children@[i].1));
            }
            wf_node(#[trigger] n.children@[i].1)
        }
}

/// The tags of the children, in order.
spec fn tags<V>(n: RadixNode<V>) -> Seq<u8> {
    n.children@.map_values(|c: (u8, RadixNode<V>)| c.0)
}

proof fn lemma_child_index_unique<V>(n: RadixNode<V>, j: int)
    requires
        wf_node(n),
        0 <= j < n.children@.len(),
    ensures
        has_child(n, n.children@[j].0),
        child_index(n, n.children@[j].0) == j,
{
    let b = n.children@[j].0;
    assert(0 <= j < n.children@.len() && n.children@[j].0 == b);
    let i = child_index(n, b);
    if i != j {
        if i < j {
            assert(n.children@[i].0 < n.children@[j].0);
        } else {
            assert(n.children@[j].0 < n.children@[i].0);
        }
    }
}

/// The length of the longest common prefix of `a` and `b`.
fn lcp(a: &[u8], b: &[u8]) -> (r: usize)
    ensures
        r <= a@.len(),
        r <= b@.len(),
        a@.take(r as int) == b@.take(r as int),
        r < a@.len() && r < b@.len() ==> a@[r as int] != b@[r as int],
{
    let len = if a.len() < b.len() { a.len() } else { b.len() };
    let mut i: usize = 0;
    while i < len
        invariant
            i <= len,
            len <= a@.len(),
            len <= b@.len(),
            len == a@.len() || len == b@.len(),
            a@.take(i as int) == b@.take(i as int),
        decreases len - i,
    {
        if a[i] != b[i] {
            return i;
        }
        assert(a@.take(i + 1) =~= a@.take(i as int).push(a@[i as int]));
        assert(b@.take(i + 1) =~= b@.take(i as int).push(b@[i as int]));
        i = i + 1;
    }
    len
}

fn starts_with(key: &[u8], p: &[u8]) -> (r: bool)
    ensures
        r == has_prefix(key@, p@),
{
    if p.len() > key.len() {
        return false;
    }
    let c = lcp(key, p);
    if c == p.len() {
        assert(p@.take(c as int) =~= p@);
        true
    } else {
        assert(key@.take(p@.len() as int)[c as int] != p@[c as int]);
        false
    }
}

/// A key that begins with the node's prefix is that prefix followed by the
/// rest.
proof fn lemma_split_key(k: Seq<u8>, p: Seq<u8>)
    requires
        has_prefix(k, p),
    ensures
        k == p + k.skip(p.len() as int),
{
    assert(k =~= k.take(p.len() as int) + k.skip(p.len() as int));
}

/// Changing the node's own value changes what it holds for its prefix only.
proof fn lemma_lookup_set_value<V>(old_n: RadixNode<V>, new_n: RadixNode<V>)
    requires
        new_n.prefix == old_n.prefix,
        new_n.children == old_n.children,
    ensures
        forall|k: Seq<u8>|
            #![trigger lookup(new_n, k)]
            lookup(new_n, k) == if k == old_n.prefix@ {
                new_n.value
            } else {
                lookup(old_n, k)
            },
{
    assert forall|k: Seq<u8>| #![trigger lookup(new_n, k)]
        lookup(new_n, k) == if k == old_n.prefix@ { new_n.value } else { lookup(old_n, k) } by {
        let p = old_n.prefix@;
        if has_prefix(k, p) {
            lemma_split_key(k, p);
            if k.skip(p.len() as int).len() == 0 {
                assert(k =~= p);
            } else {
                assert(k != p);
            }
        } else {
            assert(!has_prefix(p, p) || k != p);
            if k == p {
                assert(p.take(p.len() as int) =~= p);
            }
        }
    }
}

/// `new_n` is `old_n` with child `i` replaced by one whose lookups differ at
/// most at `rem`, where they give `x`.
spec fn lookup_set_child_pre<V>(
    old_n: RadixNode<V>,
    new_n: RadixNode<V>,
    i: int,
    rem: Seq<u8>,
    x: Option<V>,
) -> bool {
    &&& wf_node(old_n)
    &&& 0 <= i < old_n.children@.len()
    &&& new_n.prefix == old_n.prefix
    &&& new_n.value == old_n.value
    &&& new_n.children@.len() == old_n.children@.len()
    &&& forall|j: int| 0 <= j < old_n.children@.len() && j != i ==> new_n.children@[j] == old_n.children@[j]
    &&& new_n.children@[i].0 == old_n.children@[i].0
    &&& new_n.children@[i].1.prefix@.len() > 0
    &&& new_n.children@[i].1.prefix@[0] == old_n.children@[i].0
    &&& wf_node(new_n.children@[i].1)
    &&& rem.len() > 0
    &&& rem[0] == old_n.children@[i].0
    &&& forall|k: Seq<u8>|
        #![trigger lookup(new_n.children@[i].1, k)]
        lookup(new_n.children@[i].1, k) == if k == rem {
            x
        } else {
            lookup(old_n.children@[i].1, k)
        }
}

/// Changing one child changes what the node holds only through that child.
proof fn lemma_lookup_set_child<V>(
    old_n: RadixNode<V>,
    new_n: RadixNode<V>,
    i: int,
    rem: Seq<u8>,
    x: Option<V>,
)
    requires
        lookup_set_child_pre(old_n, new_n, i, rem, x),
    ensures
        wf_node(new_n),
        forall|k: Seq<u8>|
            #![trigger lookup(new_n, k)]
            lookup(new_n, k) == if k == old_n.prefix@ + rem {
                x
            } else {
                lookup(old_n, k)
            },
{
    assert(wf_node(new_n)) by {
        assert forall|j: int| 0 <= j < new_n.children@.len() implies wf_node(#[trigger] new_n.children@[j].1) by {
            if j != i {
                assert(new_n.children@[j] == old_n.children@[j]);
            }
        }
        assert forall|a: int, b: int| 0 <= a < b < new_n.children@.len() implies
            (#[trigger] new_n.children@[a]).0 < (#[trigger] new_n.children@[b]).0 by {
            assert(old_n.children@[a].0 < old_n.children@[b].0);
        }
        assert forall|j: int| 0 <= j < new_n.children@.len() implies
            (#[trigger] new_n.children@[j]).1.prefix@.len() > 0
            && new_n.children@[j].1.prefix@[0] == new_n.children@[j].0 by {
            assert(old_n.children@[j].1.prefix@.len() > 0);
        }
    }
    let p = old_n.prefix@;
    let key = p + rem;
    assert forall|k: Seq<u8>| #![trigger lookup(new_n, k)]
        lookup(new_n, k) == if k == key { x } else { lookup(old_n, k) } by {
        if has_prefix(k, p) {
            lemma_split_key(k, p);
            let rk = k.skip(p.len() as int);
            if rk.len() > 0 {
                if has_child(old_n, rk[0]) {
                    let j = child_index(old_n, rk[0]);
                    lemma_child_index_unique(old_n, j);
                    lemma_child_index_unique(new_n, j);
                    assert(has_child(new_n, rk[0]));
                    assert(lookup(new_n, k) == lookup(new_n.children@[j].1, rk));
                    assert(lookup(old_n, k) == lookup(old_n.children@[j].1, rk));
                    if j == i {
                        if rk == rem {
                            assert(k == key);
                        } else {
                            assert(k != key) by {
                                if k == key {
                                    assert(rk =~= rem);
                                }
                            }
                        }
                    } else {
                        assert(new_n.children@[j] == old_n.children@[j]);
                        assert(k != key) by {
                            if k == key {
                                assert(rk =~= rem);
                            }
                        }
                    }
                } else {
                    assert(!has_child(new_n, rk[0])) by {
                        if has_child(new_n, rk[0]) {
                            let j = child_index(new_n, rk[0]);
                            assert(old_n.children@[j].0 == rk[0]);
                        }
                    }
                    assert(k != key) by {
                        if k == key {
                            assert(rk =~= rem);
                            assert(old_n.children@[i].0 == rk[0]);
                        }
                    }
                }
            } else {
                assert(lookup(new_n, k) == new_n.value);
                assert(k != key) by {
                    if k == key {
                        assert(rk =~= rem);
                    }
                }
            }
        } else {
            assert(lookup(new_n, k) is None);
            assert(k != key) by {
                if k == key {
                    assert(key.take(p.len() as int) =~= p);
                }
            }
        }
    }
}

/// The index of the child tagged with `b`, if there is one.
fn find_child<V>(node: &RadixNode<V>, b: u8) -> (r: Option<usize>)
    requires
        wf_node(*node),
    ensures
        match r {
            Some(i) => i < node.children@.len() && node.children@[i as int].0 == b && child_index(*node, b) == i,
            None => !has_child(*node, b),
        },
{
    let n = node.children.len();
    let mut i: usize = 0;
    while i < n
        invariant
            wf_node(*node),
            n == node.children@.len(),
            i <= n,
            forall|j: int| 0 <= j < i ==> node.children@[j].0 != b,
        decreases n - i,
    {
        if node.children[i].0 == b {
            proof { lemma_child_index_unique(*node, i as int); }
            return Some(i);
        }
        i = i + 1;
    }
    None
}

proof fn lemma_get_child_step<V>(node: RadixNode<V>, i: int, key: Seq<u8>, rem: Seq<u8>)
    requires
        wf_node(node),
        0 <= i < node.children@.len(),
        has_prefix(key, node.prefix@),
        rem == key.skip(node.prefix@.len() as int),
        rem.len() > 0,
        node.children@[i].0 == rem[0],
        child_index(node, rem[0]) == i,
    ensures
        lookup(node, key) == lookup(node.children@[i].1, rem),
        forall|new_n: RadixNode<V>, k: Seq<u8>|
            lookup_set_child_pre(node, new_n, i, rem, lookup(new_n.children@[i].1, rem))
            ==> #[trigger] lookup(new_n, k) == (if k == key {
                lookup(new_n.children@[i].1, rem)
            } else {
                lookup(node, k)
            }) && wf_node(new_n),
{
    lemma_split_key(key, node.prefix@);
    assert(has_child(node, rem[0]));
    assert forall|new_n: RadixNode<V>, k: Seq<u8>|
        lookup_set_child_pre(node, new_n, i, rem, lookup(new_n.children@[i].1, rem))
        implies #[trigger] lookup(new_n, k) == (if k == key {
            lookup(new_n.children@[i].1, rem)
        } else {
            lookup(node, k)
        }) && wf_node(new_n) by {
        lemma_lookup_set_child(node, new_n, i, rem, lookup(new_n.children@[i].1, rem));
    }
}

fn child_mut<'a, V>(node: &'a mut RadixNode<V>, i: usize) -> (c: &'a mut RadixNode<V>)
    requires
        i < old(node).children@.len(),
    ensures
        *c == old(node).children@[i as int].1,
        final(node).prefix == old(node).prefix,
        final(node).value == old(node).value,
        final(node).children@ == old(node).children@.update(
            i as int,
            (old(node).children@[i as int].0, *final(c)),
        ),
{
    &mut node.children[i].1
}

fn get_rec<'a, V>(node: &'a mut RadixNode<V>, key: &[u8]) -> (r: Option<&'a mut V>)
    requires
        wf_node(*old(node)),
    ensures
        wf_node(*final(node)),
        final(node).prefix@ == old(node).prefix@,
        match r {
            Some(v) => lookup(*old(node), key@) == Some(*v),
            None => lookup(*old(node), key@) is None,
        },
        forall|k: Seq<u8>|
            #![trigger lookup(*final(node), k)]
            lookup(*final(node), k) == if k == key@ {
                match r {
                    Some(v) => Some(*final(v)),
                    None => None,
                }
            } else {
                lookup(*old(node), k)
            },
    decreases *old(node),
{
    if !starts_with(key, node.prefix.as_slice()) {
        return None;
    }
    let plen = node.prefix.len();
    let rem = &key[plen..key.len()];
    assert(rem@ == key@.skip(plen as int));
    if rem.len() == 0 {
        assert(key@ == node.prefix@) by {
            assert(key@ =~= key@.take(plen as int));
        }
        proof {
            assert forall|new_n: RadixNode<V>, k: Seq<u8>|
                new_n.prefix == node.prefix && new_n.children == node.children
                implies #[trigger] lookup(new_n, k) == if k == node.prefix@ {
                new_n.value
            } else {
                lookup(*node, k)
            } by {
                lemma_lookup_set_value(*node, new_n);
            }
        }
        return node.value.as_mut();
    }
    let next = rem[0];
    let i = match find_child(node, next) {
        Some(i) => i,
        None => return None,
    };
    proof {
        lemma_get_child_step(*node, i as int, key@, rem@);
    }
    let child = child_mut(node, i);
    get_rec(child, rem)
}

/// Splitting a node at `c` into a node with the first `c` bytes of its
/// prefix and a single child with the rest, the old children and the old
/// value, keeps what the subtree holds.
proof fn lemma_split<V>(old_n: RadixNode<V>, new_n: RadixNode<V>, c: int)
    requires
        wf_node(old_n),
        0 <= c < old_n.prefix@.len(),
        new_n.prefix@ == old_n.prefix@.take(c),
        new_n.value is None,
        new_n.children@.len() == 1,
        new_n.children@[0].0 == old_n.prefix@[c],
        new_n.children@[0].1.prefix@ == old_n.prefix@.skip(c),
        new_n.children@[0].1.children == old_n.children,
        new_n.children@[0].1.value == old_n.value,
    ensures
        wf_node(new_n),
        forall|k: Seq<u8>| #![trigger lookup(new_n, k)] lookup(new_n, k) == lookup(old_n, k),
{
    let p = old_n.prefix@;
    let child = new_n.children@[0].1;
    assert(wf_node(child));
    assert(wf_node(new_n));
    assert forall|k: Seq<u8>| #![trigger lookup(new_n, k)] lookup(new_n, k) == lookup(old_n, k) by {
        if has_prefix(k, p.take(c)) {
            let rem = k.skip(c);
            assert(rem.len() == k.len() - c);
            if rem.len() == 0 {
                assert(!has_prefix(k, p));
            } else if rem[0] == p[c] {
                lemma_child_index_unique(new_n, 0);
                assert(lookup(new_n, k) == lookup(child, rem));
                if has_prefix(k, p) {
                    assert(rem.take(p.len() - c) =~= p.skip(c)) by {
                        assert(k.take(p.len() as int) == p);
                    }
                    assert(rem.skip(p.len() - c) =~= k.skip(p.len() as int));
                    assert(has_prefix(rem, child.prefix@));
                } else {
                    assert(!has_prefix(rem, child.prefix@)) by {
                        if has_prefix(rem, child.prefix@) {
                            assert(k.take(p.len() as int) =~= p) by {
                                assert(k.take(c) == p.take(c));
                                assert(rem.take(p.len() - c) == p.skip(c));
                                assert forall|j: int| 0 <= j < p.len() implies k.take(p.len() as int)[j] == p[j] by {
                                    if j < c {
                                        assert(k.take(c)[j] == p.take(c)[j]);
                                    } else {
                                        assert(rem.take(p.len() - c)[j - c] == p.skip(c)[j - c]);
                                    }
                                }
                            }
                        }
                    }
                }
            } else {
                assert(!has_child(new_n, rem[0]));
                assert(!has_prefix(k, p)) by {
                    if has_prefix(k, p) {
                        assert(k.take(p.len() as int)[c] == p[c]);
                    }
                }
            }
        } else {
            assert(!has_prefix(k, p)) by {
                if has_prefix(k, p) {
                    assert(k.take(c) =~= p.take(c)) by {
                        assert forall|j: int| 0 <= j < c implies k.take(c)[j] == p.take(c)[j] by {
                            assert(k.take(p.len() as int)[j] == p[j]);
                        }
                    }
                }
            }
        }
    }
}

/// Adding a child tagged `b` that holds only `value` at its own prefix
/// `rem`, where no child was tagged `b`, adds the key `prefix + rem`.
proof fn lemma_add_child<V>(old_n: RadixNode<V>, new_n: RadixNode<V>, pos: int, rem: Seq<u8>, value: V)
    requires
        wf_node(old_n),
        rem.len() > 0,
        !has_child(old_n, rem[0]),
        0 <= pos <= old_n.children@.len(),
        forall|j: int| 0 <= j < pos ==> (#[trigger] old_n.children@[j]).0 < rem[0],
        forall|j: int| pos <= j < old_n.children@.len() ==> (#[trigger] old_n.children@[j]).0 > rem[0],
        new_n.prefix == old_n.prefix,
        new_n.value == old_n.value,
        new_n.children@ == old_n.children@.insert(pos, (rem[0], new_n.children@[pos].1)),
        new_n.children@[pos].1.prefix@ == rem,
        new_n.children@[pos].1.children@.len() == 0,
        new_n.children@[pos].1.value == Some(value),
    ensures
        wf_node(new_n),
        forall|k: Seq<u8>|
            #![trigger lookup(new_n, k)]
            lookup(new_n, k) == if k == old_n.prefix@ + rem {
                Some(value)
            } else {
                lookup(old_n, k)
            },
{
    let leaf = new_n.children@[pos].1;
    let b = rem[0];
    assert(wf_node(leaf));
    assert(wf_node(new_n)) by {
        assert forall|j: int| 0 <= j < new_n.children@.len() implies wf_node(#[trigger] new_n.children@[j].1) by {
            if j < pos {
                assert(new_n.children@[j] == old_n.children@[j]);
            } else if j > pos {
                assert(new_n.children@[j] == old_n.children@[j - 1]);
            }
        }
        assert forall|x: int, y: int| 0 <= x < y < new_n.children@.len() implies
            (#[trigger] new_n.children@[x]).0 < (#[trigger] new_n.children@[y]).0 by {
            if y < pos {
                assert(old_n.children@[x].0 < old_n.children@[y].0);
            } else if y == pos {
                assert(new_n.children@[x] == old_n.children@[x]);
            } else if x < pos {
                assert(new_n.children@[y] == old_n.children@[y - 1]);
                assert(new_n.children@[x] == old_n.children@[x]);
            } else if x == pos {
                assert(new_n.children@[y] == old_n.children@[y - 1]);
            } else {
                assert(old_n.children@[x - 1].0 < old_n.children@[y - 1].0);
            }
        }
        assert forall|j: int| 0 <= j < new_n.children@.len() implies
            (#[trigger] new_n.children@[j]).1.prefix@.len() > 0
            && new_n.children@[j].1.prefix@[0] == new_n.children@[j].0 by {
            if j < pos {
                assert(new_n.children@[j] == old_n.children@[j]);
            } else if j > pos {
                assert(new_n.children@[j] == old_n.children@[j - 1]);
            }
        }
    }
    let p = old_n.prefix@;
    let key = p + rem;
    lemma_child_index_unique(new_n, pos);
    assert forall|k: Seq<u8>| #![trigger lookup(new_n, k)]
        lookup(new_n, k) == if k == key { Some(value) } else { lookup(old_n, k) } by {
        if has_prefix(k, p) {
            lemma_split_key(k, p);
            let rk = k.skip(p.len() as int);
            if rk.len() > 0 {
                if rk[0] == b {
                    assert(lookup(new_n, k) == lookup(leaf, rk));
                    assert(lookup(old_n, k) is None);
                    if has_prefix(rk, rem) {
                        if rk.skip(rem.len() as int).len() == 0 {
                            assert(rk =~= rem);
                        } else {
                            assert(!has_child(leaf, rk.skip(rem.len() as int)[0]));
                            assert(k != key) by {
                                if k == key {
                                    assert(rk =~= rem);
                                }
                            }
                        }
                    } else {
                        assert(k != key) by {
                            if k == key {
                                assert(rk =~= rem);
                                assert(rem.take(rem.len() as int) =~= rem);
                            }
                        }
                    }
                } else {
                    assert(k != key) by {
                        if k == key {
                            assert(rk =~= rem);
                        }
                    }
                    if has_child(old_n, rk[0]) {
                        let j = child_index(old_n, rk[0]);
                        lemma_child_index_unique(old_n, j);
                        if j < pos {
                            assert(new_n.children@[j] == old_n.children@[j]);
                            lemma_child_index_unique(new_n, j);
                        } else {
                            assert(new_n.children@[j + 1] == old_n.children@[j]);
                            lemma_child_index_unique(new_n, j + 1);
                        }
                    } else {
                        assert(!has_child(new_n, rk[0])) by {
                            if has_child(new_n, rk[0]) {
                                let j = child_index(new_n, rk[0]);
                                if j < pos {
                                    assert(new_n.children@[j] == old_n.children@[j]);
                                } else if j > pos {
                                    assert(new_n.children@[j] == old_n.children@[j - 1]);
                                }
                            }
                        }
                    }
                }
            } else {
                assert(k != key) by {
                    if k == key {
                        assert(rk =~= rem);
                    }
                }
            }
        } else {
            assert(k != key) by {
                if k == key {
                    assert(key.take(p.len() as int) =~= p);
                }
            }
        }
    }
}

/// The position at which a child tagged `b` keeps the tags rising: after
/// every smaller tag.
fn insert_position<V>(node: &RadixNode<V>, b: u8) -> (r: usize)
    requires
        wf_node(*node),
        !has_child(*node, b),
    ensures
        r <= node.children@.len(),
        forall|j: int| 0 <= j < r ==> (#[trigger] node.children@[j]).0 < b,
        forall|j: int| r <= j < node.children@.len() ==> (#[trigger] node.children@[j]).0 > b,
{
    let n = node.children.len();
    let mut i: usize = 0;
    while i < n
        invariant
            wf_node(*node),
            !has_child(*node, b),
            n == node.children@.len(),
            i <= n,
            forall|j: int| 0 <= j < i ==> (#[trigger] node.children@[j]).0 < b,
        decreases n - i,
    {
        if node.children[i].0 > b {
            assert forall|j: int| i <= j < node.children@.len() implies (#[trigger] node.children@[j]).0 > b by {
                if j > i {
                    assert(node.children@[i as int].0 < node.children@[j].0);
                }
            }
            return i;
        }
        assert(node.children@[i as int].0 != b);
        i = i + 1;
    }
    i
}

fn insert_rec<V>(node: &mut RadixNode<V>, key: &[u8], value: V)
    requires
        wf_node(*old(node)),
        old(node).prefix@.len() > 0 ==> key@.len() > 0 && key@[0] == old(node).prefix@[0],
    ensures
        wf_node(*final(node)),
        old(node).prefix@.len() > 0 ==> final(node).prefix@.len() > 0 && final(node).prefix@[0]
            == old(node).prefix@[0],
        old(node).prefix@.len() == 0 ==> final(node).prefix@.len() == 0,
        forall|k: Seq<u8>|
            #![trigger lookup(*final(node), k)]
            lookup(*final(node), k) == if k == key@ {
                Some(value)
            } else {
                lookup(*old(node), k)
            },
    decreases *old(node),
{
    let ghost n0 = *node;
    let common = lcp(node.prefix.as_slice(), key);
    let plen = node.prefix.len();
    if common < plen {
        let mut old_children: Vec<(u8, RadixNode<V>)> = Vec::new();
        std::mem::swap(&mut old_children, &mut node.children);
        let old_value = node.value.take();
        let suffix = copy_bytes(&node.prefix.as_slice()[common..plen]);
        let tag = suffix[0];
        let child = RadixNode { prefix: suffix, children: old_children, value: old_value };
        node.prefix.truncate(common);
        node.children.push((tag, child));
        proof {
            assert(suffix@ =~= n0.prefix@.skip(common as int));
            assert(node.prefix@ =~= n0.prefix@.take(common as int));
            assert(node.children@ =~= seq![(tag, child)]);
            lemma_split(n0, *node, common as int);
            if n0.prefix@.len() > 0 {
                assert(common > 0) by {
                    if common == 0 {
                        assert(n0.prefix@[0] == key@[0]);
                    }
                }
            }
        }
    }
    let ghost n1 = *node;
    assert(n1.prefix@ == key@.take(common as int));
    if common == key.len() {
        node.value = Some(value);
        proof {
            lemma_lookup_set_value(n1, *node);
            assert(key@ =~= key@.take(common as int));
        }
        return;
    }
    let next = key[common];
    let rem = &key[common..key.len()];
    assert(rem@ =~= key@.skip(common as int));
    proof {
        assert(key@ =~= n1.prefix@ + rem@);
    }
    match find_child(node, next) {
        Some(i) => {
            let (b, mut child) = node.children.remove(i);
            proof {
                assert(child == n1.children@[i as int].1);
                assert(common == plen) by {
                    if common < plen {
                        assert(n1.children@[i as int].0 == n0.prefix@[common as int]);
                    }
                }
                assert(n1 == n0);
                assert(decreases_to!(n0 => n0.children));
                assert(decreases_to!(n0.children => n0.children@));
                assert(decreases_to!(n0.children@ => n0.children@[i as int]));
                assert(decreases_to!(n0.children@[i as int] => n0.children@[i as int].1));
            }
            let ghost c0 = child;
            insert_rec(&mut child, rem, value);
            node.children.insert(i, (b, child));
            proof {
                assert(node.children@ =~= n1.children@.update(i as int, (b, child)));
                assert(c0.prefix@.len() > 0 && c0.prefix@[0] == b);
                lemma_lookup_set_child(n1, *node, i as int, rem@, Some(value));
            }
        },
        None => {
            let pos = insert_position(node, next);
            let leaf = RadixNode { prefix: copy_bytes(rem), children: Vec::new(), value: Some(value) };
            node.children.insert(pos, (next, leaf));
            proof {
                lemma_add_child(n1, *node, pos as int, rem@, value);
            }
        },
    }
}

/// A lookup after `insert` finds the value just stored under its key, and
/// under every other key what was there before.
pub proof fn lemma_lookup_after_insert<V>(
    before: RadixTree<V>,
    after: RadixTree<V>,
    key: Seq<u8>,
    value: V,
    other: Seq<u8>,
)
    requires
        after@ == before@.insert(key, value),
    ensures
        after@.contains_key(key),
        after@[key] == value,
        other != key ==> after@.contains_key(other) == before@.contains_key(other),
        other != key && before@.contains_key(other) ==> after@[other] == before@[other],
{
}

} // verus!
