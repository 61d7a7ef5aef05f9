//! A radix tree: values under byte strings.

use vstd::prelude::*;

verus! {

/// A node of a radix tree. Below it lie the keys that go on with `prefix`.
pub struct RadixNode<K, V> {
    /// What the keys go on with.
    pub prefix: Vec<K>,
    /// The value of the key that ends here.
    pub data: Option<V>,
    /// Where longer keys go on.
    pub children: Vec<RadixNode<K, V>>,
}

/// Child `i` is the one for keys that go on with `b`.
pub open spec fn leads<V>(children: Seq<RadixNode<u8, V>>, b: u8, i: int) -> bool {
    &&& 0 <= i < children.len()
    &&& children[i].prefix@.len() > 0
    &&& children[i].prefix@[0] == b
}

impl<V> RadixNode<u8, V> {
    /// No child goes on with nothing, and no two with the same byte.
    pub open spec fn wf(&self) -> bool
        decreases self,
    {
        &&& forall|i: int|
            0 <= i < self.children@.len() ==> (#[trigger] self.children@[i]).prefix@.len() > 0
                && self.children@[i].wf()
        &&& forall|i: int, j: int|
            0 <= i < j < self.children@.len() ==> (#[trigger] self.children@[i]).prefix@[0] != (
            #[trigger] self.children@[j]).prefix@[0]
    }

    /// The value under `key`.
    pub open spec fn get(&self, key: Seq<u8>) -> Option<V>
        decreases self,
    {
        let p = self.prefix@;
        let rest = key.skip(p.len() as int);
        if !p.is_prefix_of(key) {
            None
        } else if rest.len() == 0 {
            self.data
        } else if exists|i: int| leads(self.children@, rest[0], i) {
            self.children@[choose|i: int| leads(self.children@, rest[0], i)].get(rest)
        } else {
            None
        }
    }

    /// A node without children.
    pub fn new(prefix: Vec<u8>, data: Option<V>) -> (r: Self)
        ensures
            r.wf(),
            r.prefix == prefix,
            r.data == data,
            r.children@.len() == 0,
            forall|k: Seq<u8>| #[trigger]
                r.get(k) == if k == prefix@ {
                    data
                } else {
                    None
                },
    {
        let r = RadixNode { prefix, data, children: Vec::new() };
        proof {
            lemma_leaf(&r);
        }
        r
    }

    /// The index of the child for keys that go on with `b`.
    fn child_for(&self, b: u8) -> (r: Option<usize>)
        requires
            self.wf(),
        ensures
            r matches Some(i) ==> leads(self.children@, b, i as int),
            r is None ==> forall|i: int| !leads(self.children@, b, i),
    {
        let mut i: usize = 0;
        while i < self.children.len()
            invariant
                self.wf(),
                i <= self.children@.len(),
                forall|j: int| 0 <= j < i ==> !leads(self.children@, b, j),
            decreases self.children@.len() - i,
        {
            assert(self.children@[i as int].prefix@.len() > 0);
            if self.children[i].prefix[0] == b {
                return Some(i);
            }
            i = i + 1;
        }
        None
    }

    /// The node that holds the value under `key`, if there is one.
    pub fn find(&self, key: &[u8]) -> (r: Option<&RadixNode<u8, V>>)
        requires
            self.wf(),
        ensures
            r is Some <==> self.get(key@) is Some,
            r matches Some(node) ==> node.data == self.get(key@),
        decreases self,
    {
        let p: usize = self.prefix.len();
        let ghost rest = key@.skip(p as int);
        if !starts_with(key, &self.prefix) {
            return None;
        }
        if key.len() == p {
            if self.data.is_some() {
                return Some(self);
            }
            return None;
        }
        match self.child_for(key[p]) {
            None => None,
            Some(i) => {
                proof {
                    assert(rest[0] == key@[p as int]);
                    lemma_one_leads(self, rest[0], i as int);
                }
                let part: &[u8] = vstd::slice::slice_subrange(key, p, key.len());
                assert(part@ =~= rest);
                self.children[i].find(part)
            },
        }
    }

    /// Puts `data` under `key`.
    pub fn insert(&mut self, key: Vec<u8>, data: V)
        requires
            old(self).wf(),
        ensures
            final(self).wf(),
            forall|k: Seq<u8>| #[trigger]
                final(self).get(k) == if k == key@ {
                    Some(data)
                } else {
                    old(self).get(k)
                },
            final(self).prefix@.is_prefix_of(old(self).prefix@),
            old(self).prefix@.len() > 0 && key@.len() > 0 && key@[0] == old(self).prefix@[0]
                ==> final(self).prefix@.len() > 0,
        decreases key@.len(), (if old(self).prefix@.len() == 0 { 1int } else { 0int }),
    {
        let ghost node0 = *self;
        let common: usize = common_len(&self.prefix, &key);
        if common < self.prefix.len() {
            self.split(common);
        }
        let ghost node1 = *self;
        let p: usize = self.prefix.len();
        let mut head: Vec<u8> = key;
        let ghost all = head@;
        let rest: Vec<u8> = head.split_off(p);
        let ghost tail = rest@;
        proof {
            assert(tail =~= all.skip(p as int));
            assert(p == common);
            assert(node1.prefix@ =~= node0.prefix@.take(common as int));
            assert(all =~= node1.prefix@ + tail);
        }
        if rest.len() == 0 {
            self.data = Some(data);
            proof {
                assert(all =~= node1.prefix@);
                lemma_data_set(&node1, self, data);
            }
        } else {
            let b: u8 = rest[0];
            match self.child_for(b) {
                Some(i) => {
                    proof {
                        assert(node1.children@[i as int].wf());
                        if node0.prefix@.len() > 0 && p == 0 {
                            assert(common == 0);
                            assert(leads(node1.children@, node0.prefix@[0], 0));
                            lemma_one_leads(&node1, b, i as int);
                        }
                    }
                    self.children[i].insert(rest, data);
                    proof {
                        lemma_child_set(&node1, self, i as int, tail, data);
                    }
                },
                None => {
                    self.children.push(RadixNode::new(rest, Some(data)));
                    proof {
                        assert(self.children@.drop_last() =~= node1.children@);
                        lemma_child_added(&node1, self, tail, data);
                    }
                },
            }
        }
        proof {
            assert forall|k: Seq<u8>| #[trigger] self.get(k) == (if k == all {
                Some(data)
            } else {
                node0.get(k)
            }) by {
                assert(node1.get(k) == node0.get(k));
            }
        }
    }

    /// Cuts the prefix to `at` bytes; what was below the node goes to a child
    /// that goes on with the rest.
    fn split(&mut self, at: usize)
        requires
            old(self).wf(),
            at < old(self).prefix@.len(),
        ensures
            final(self).wf(),
            final(self).prefix@ == old(self).prefix@.take(at as int),
            final(self).children@.len() == 1,
            final(self).children@[0].prefix@ == old(self).prefix@.skip(at as int),
            forall|k: Seq<u8>| #[trigger] final(self).get(k) == old(self).get(k),
    {
        let ghost node0 = *self;
        let rest: Vec<u8> = self.prefix.split_off(at);
        let mut children: Vec<RadixNode<u8, V>> = Vec::new();
        std::mem::swap(&mut children, &mut self.children);
        let mut data: Option<V> = None;
        std::mem::swap(&mut data, &mut self.data);
        let child = RadixNode { prefix: rest, data, children };
        self.children.push(child);
        proof {
            lemma_split(&node0, self, at as int);
        }
    }
}

/// Whether `key` starts with `prefix`.
fn starts_with(key: &[u8], prefix: &Vec<u8>) -> (r: bool)
    ensures
        r == prefix@.is_prefix_of(key@),
{
    if prefix.len() > key.len() {
        return false;
    }
    let mut i: usize = 0;
    while i < prefix.len()
        invariant
            i <= prefix@.len() <= key@.len(),
            forall|j: int| 0 <= j < i ==> prefix@[j] == key@[j],
        decreases prefix@.len() - i,
    {
        if prefix[i] != key[i] {
            proof {
                if prefix@.is_prefix_of(key@) {
                    assert(key@.subrange(0, prefix@.len() as int)[i as int] == key@[i as int]);
                }
            }
            return false;
        }
        i = i + 1;
    }
    assert(prefix@ =~= key@.subrange(0, prefix@.len() as int));
    true
}

/// Length of what `a` and `b` start with in common.
fn common_len(a: &Vec<u8>, b: &Vec<u8>) -> (n: usize)
    ensures
        n <= a@.len(),
        n <= b@.len(),
        a@.take(n as int) == b@.take(n as int),
        n < a@.len() && n < b@.len() ==> a@[n as int] != b@[n as int],
{
    let mut i: usize = 0;
    while i < a.len() && i < b.len() && a[i] == b[i]
        invariant
            i <= a@.len(),
            i <= b@.len(),
            forall|j: int| 0 <= j < i ==> a@[j] == b@[j],
        decreases a@.len() - i,
    {
        i = i + 1;
    }
    assert(a@.take(i as int) =~= b@.take(i as int));
    i
}

/// At most one child is for a byte.
proof fn lemma_one_leads<V>(node: &RadixNode<u8, V>, b: u8, i: int)
    requires
        node.wf(),
        leads(node.children@, b, i),
    ensures
        forall|j: int| leads(node.children@, b, j) ==> j == i,
        i == choose|j: int| leads(node.children@, b, j),
{
    assert forall|j: int| leads(node.children@, b, j) implies j == i by {
        if j < i {
            assert(node.children@[j].prefix@[0] != node.children@[i].prefix@[0]);
        } else if i < j {
            assert(node.children@[i].prefix@[0] != node.children@[j].prefix@[0]);
        }
    }
}

/// A key that goes on below a child has the value it has there.
proof fn lemma_get_child<V>(node: &RadixNode<u8, V>, k: Seq<u8>, j: int)
    requires
        node.wf(),
        node.prefix@.is_prefix_of(k),
        k.len() > node.prefix@.len(),
        leads(node.children@, k.skip(node.prefix@.len() as int)[0], j),
    ensures
        node.get(k) == node.children@[j].get(k.skip(node.prefix@.len() as int)),
{
    lemma_one_leads(node, k.skip(node.prefix@.len() as int)[0], j);
}

/// A node without children holds the value of its prefix alone.
proof fn lemma_leaf<V>(node: &RadixNode<u8, V>)
    requires
        node.children@.len() == 0,
    ensures
        node.wf(),
        forall|k: Seq<u8>| #[trigger]
            node.get(k) == if k == node.prefix@ {
                node.data
            } else {
                None
            },
{
    assert forall|k: Seq<u8>| #[trigger] node.get(k) == (if k == node.prefix@ {
        node.data
    } else {
        None
    }) by {
        let p = node.prefix@;
        if p.is_prefix_of(k) {
            let rest = k.skip(p.len() as int);
            if rest.len() == 0 {
                assert(k =~= p);
            } else {
                assert(k != p);
            }
        } else {
            assert(p =~= p.subrange(0, p.len() as int));
        }
    }
}

/// Setting the value of a node changes that of its prefix alone.
proof fn lemma_data_set<V>(before: &RadixNode<u8, V>, after: &RadixNode<u8, V>, data: V)
    requires
        before.wf(),
        after.prefix@ == before.prefix@,
        after.children@ == before.children@,
        after.data == Some(data),
    ensures
        after.wf(),
        forall|k: Seq<u8>| #[trigger]
            after.get(k) == if k == before.prefix@ {
                Some(data)
            } else {
                before.get(k)
            },
{
    assert forall|k: Seq<u8>| #[trigger] after.get(k) == (if k == before.prefix@ {
        Some(data)
    } else {
        before.get(k)
    }) by {
        let p = before.prefix@;
        let rest = k.skip(p.len() as int);
        if k == p {
            assert(p =~= p.subrange(0, p.len() as int));
        } else if p.is_prefix_of(k) && rest.len() == 0 {
            assert(k =~= p);
        }
    }
}

/// Putting a value below a child changes that of one key alone.
proof fn lemma_child_set<V>(
    before: &RadixNode<u8, V>,
    after: &RadixNode<u8, V>,
    i: int,
    tail: Seq<u8>,
    data: V,
)
    requires
        before.wf(),
        tail.len() > 0,
        leads(before.children@, tail[0], i),
        after.prefix@ == before.prefix@,
        after.data == before.data,
        after.children@.len() == before.children@.len(),
        forall|j: int|
            0 <= j < before.children@.len() && j != i ==> #[trigger] after.children@[j]
                == before.children@[j],
        after.children@[i].wf(),
        after.children@[i].prefix@.is_prefix_of(before.children@[i].prefix@),
        after.children@[i].prefix@.len() > 0,
        forall|k: Seq<u8>| #[trigger]
            after.children@[i].get(k) == if k == tail {
                Some(data)
            } else {
                before.children@[i].get(k)
            },
    ensures
        after.wf(),
        forall|k: Seq<u8>| #[trigger]
            after.get(k) == if k == before.prefix@ + tail {
                Some(data)
            } else {
                before.get(k)
            },
{
    let a = before.children@;
    let b = after.children@;
    assert(b[i].prefix@[0] == a[i].prefix@[0]) by {
        assert(b[i].prefix@[0] == a[i].prefix@.subrange(0, b[i].prefix@.len() as int)[0]);
    }
    assert forall|j: int| 0 <= j < b.len() implies (#[trigger] b[j]).prefix@.len() > 0 && b[j].prefix@[0]
        == a[j].prefix@[0] && b[j].wf() by {
        assert(a[j].prefix@.len() > 0 && a[j].wf());
    }
    assert(after.wf()) by {
        assert forall|x: int, y: int| 0 <= x < y < b.len() implies (#[trigger] b[x]).prefix@[0] != (
        #[trigger] b[y]).prefix@[0] by {
            assert(a[x].prefix@[0] != a[y].prefix@[0]);
        }
    }
    assert forall|k: Seq<u8>| #[trigger] after.get(k) == (if k == before.prefix@ + tail {
        Some(data)
    } else {
        before.get(k)
    }) by {
        let p = before.prefix@;
        let rest = k.skip(p.len() as int);
        if p.is_prefix_of(k) {
            assert(k =~= p + rest);
            if rest.len() > 0 {
                assert(rest == tail <==> k == p + tail) by {
                    if k == p + tail {
                        assert(rest =~= tail);
                    }
                }
                if exists|j: int| leads(a, rest[0], j) {
                    let j = choose|j: int| leads(a, rest[0], j);
                    lemma_get_child(before, k, j);
                    assert(b[j].prefix@.len() > 0);
                    assert(leads(b, rest[0], j));
                    lemma_get_child(after, k, j);
                    if rest == tail {
                        lemma_one_leads(before, tail[0], i);
                    }
                    if j != i {
                        assert(b[j] == a[j]);
                    }
                } else {
                    if rest == tail {
                        assert(leads(a, rest[0], i));
                    }
                    assert forall|j: int| !leads(b, rest[0], j) by {
                        assert(!leads(a, rest[0], j));
                        if 0 <= j < a.len() {
                            assert(b[j].prefix@[0] == a[j].prefix@[0]);
                            assert(a[j].prefix@.len() > 0);
                        }
                    }
                }
            } else {
                assert(k.len() == p.len());
            }
        } else {
            if k == p + tail {
                assert(p =~= k.subrange(0, p.len() as int));
            }
        }
    }
}

/// Adding a child for a byte that has none changes the value of one key alone.
proof fn lemma_child_added<V>(
    before: &RadixNode<u8, V>,
    after: &RadixNode<u8, V>,
    tail: Seq<u8>,
    data: V,
)
    requires
        before.wf(),
        tail.len() > 0,
        forall|i: int| !leads(before.children@, tail[0], i),
        after.prefix@ == before.prefix@,
        after.data == before.data,
        after.children@.len() == before.children@.len() + 1,
        after.children@.drop_last() == before.children@,
        after.children@.last().wf(),
        after.children@.last().prefix@ == tail,
        forall|k: Seq<u8>| #[trigger]
            after.children@.last().get(k) == if k == tail {
                Some(data)
            } else {
                None
            },
    ensures
        after.wf(),
        forall|k: Seq<u8>| #[trigger]
            after.get(k) == if k == before.prefix@ + tail {
                Some(data)
            } else {
                before.get(k)
            },
{
    let a = before.children@;
    let b = after.children@;
    let l = a.len() as int;
    assert forall|j: int| 0 <= j < l implies #[trigger] b[j] == a[j] by {
        assert(b.drop_last()[j] == b[j]);
    }
    assert(b[l] == b.last());
    assert(after.wf()) by {
        assert forall|j: int| 0 <= j < b.len() implies (#[trigger] b[j]).prefix@.len() > 0
            && b[j].wf() by {
            if j < l {
                assert(a[j].prefix@.len() > 0 && a[j].wf());
            }
        }
        assert forall|x: int, y: int| 0 <= x < y < b.len() implies (#[trigger] b[x]).prefix@[0] != (
        #[trigger] b[y]).prefix@[0] by {
            assert(a[x].prefix@.len() > 0);
            if y < l {
                assert(a[x].prefix@[0] != a[y].prefix@[0]);
            } else {
                assert(!leads(a, tail[0], x));
            }
        }
    }
    assert forall|k: Seq<u8>| #[trigger] after.get(k) == (if k == before.prefix@ + tail {
        Some(data)
    } else {
        before.get(k)
    }) by {
        let p = before.prefix@;
        let rest = k.skip(p.len() as int);
        if p.is_prefix_of(k) {
            assert(k =~= p + rest);
            if rest.len() > 0 {
                assert(rest == tail <==> k == p + tail) by {
                    if k == p + tail {
                        assert(rest =~= tail);
                    }
                }
                if rest[0] == tail[0] {
                    assert(leads(b, rest[0], l));
                    lemma_get_child(after, k, l);
                    assert forall|j: int| !leads(a, rest[0], j) by {
                        assert(!leads(a, tail[0], j));
                    }
                } else if exists|j: int| leads(a, rest[0], j) {
                    let j = choose|j: int| leads(a, rest[0], j);
                    lemma_get_child(before, k, j);
                    assert(b[j] == a[j]);
                    assert(leads(b, rest[0], j));
                    lemma_get_child(after, k, j);
                } else {
                    assert forall|j: int| !leads(b, rest[0], j) by {
                        assert(!leads(a, rest[0], j));
                        if 0 <= j < l {
                            assert(b[j] == a[j]);
                        }
                    }
                }
            } else {
                assert(k.len() == p.len());
            }
        } else {
            if k == p + tail {
                assert(p =~= k.subrange(0, p.len() as int));
            }
        }
    }
}

/// Splitting a node changes no value.
proof fn lemma_split<V>(before: &RadixNode<u8, V>, after: &RadixNode<u8, V>, at: int)
    requires
        before.wf(),
        0 <= at < before.prefix@.len(),
        after.prefix@ == before.prefix@.take(at),
        after.data is None,
        after.children@.len() == 1,
        after.children@[0].prefix@ == before.prefix@.skip(at),
        after.children@[0].data == before.data,
        after.children@[0].children@ == before.children@,
    ensures
        after.wf(),
        forall|k: Seq<u8>| #[trigger] after.get(k) == before.get(k),
{
    let child = after.children@[0];
    let p = before.prefix@;
    let q = child.prefix@;
    assert(child.wf());
    assert(after.wf());
    assert forall|k: Seq<u8>| #[trigger] after.get(k) == before.get(k) by {
        let head = after.prefix@;
        let rest = k.skip(at);
        if head.is_prefix_of(k) {
            if rest.len() > 0 && rest[0] == q[0] {
                assert(leads(after.children@, rest[0], 0));
                lemma_one_leads(after, rest[0], 0);
                assert(after.get(k) == child.get(rest));
                if q.is_prefix_of(rest) {
                    assert(p =~= k.subrange(0, p.len() as int)) by {
                        assert forall|j: int| 0 <= j < p.len() implies #[trigger] p[j]
                            == k.subrange(0, p.len() as int)[j] by {
                            if j < at {
                                assert(head[j] == k.subrange(0, at)[j]);
                            } else {
                                assert(q[j - at] == rest.subrange(0, q.len() as int)[j - at]);
                            }
                        }
                    }
                    assert(rest.skip(q.len() as int) =~= k.skip(p.len() as int));
                } else if p.is_prefix_of(k) {
                    assert(q =~= rest.subrange(0, q.len() as int)) by {
                        assert forall|j: int| 0 <= j < q.len() implies #[trigger] q[j]
                            == rest.subrange(0, q.len() as int)[j] by {
                            assert(p[j + at] == k.subrange(0, p.len() as int)[j + at]);
                        }
                    }
                }
            } else {
                if p.is_prefix_of(k) {
                    assert(p[at] == k.subrange(0, p.len() as int)[at]);
                }
                if rest.len() > 0 {
                    assert(!leads(after.children@, rest[0], 0));
                }
            }
        } else if p.is_prefix_of(k) {
            assert(head =~= k.subrange(0, at)) by {
                assert forall|j: int| 0 <= j < at implies #[trigger] head[j] == k.subrange(0, at)[j] by {
                    assert(p[j] == k.subrange(0, p.len() as int)[j]);
                }
            }
        }
    }
}

// ---------------------------------------------------------------------------
// Trees that hold indices
// ---------------------------------------------------------------------------

impl RadixNode<u8, Option<usize>> {
    /// Every index in the tree is below `n`.
    pub open spec fn names_below(&self, n: int) -> bool
        decreases self,
    {
        &&& self.data matches Some(Some(i)) ==> i < n
        &&& forall|i: int|
            0 <= i < self.children@.len() ==> (#[trigger] self.children@[i]).names_below(n)
    }

    /// Whether the tree is one, with indices below `n` alone.
    pub fn sound_below(&self, n: usize) -> (r: bool)
        ensures
            r == (self.wf() && self.names_below(n as int)),
        decreases self,
    {
        if let Some(Some(i)) = self.data {
            if i >= n {
                return false;
            }
        }
        let mut a: usize = 0;
        while a < self.children.len()
            invariant
                a <= self.children@.len(),
                self.data matches Some(Some(i)) ==> i < n,
                forall|i: int|
                    0 <= i < a ==> (#[trigger] self.children@[i]).prefix@.len() > 0
                        && self.children@[i].wf() && self.children@[i].names_below(n as int),
                forall|i: int, j: int|
                    0 <= i < j < a ==> (#[trigger] self.children@[i]).prefix@[0] != (
                    #[trigger] self.children@[j]).prefix@[0],
            decreases self.children@.len() - a,
        {
            let child: &RadixNode<u8, Option<usize>> = &self.children[a];
            assert(*child == self.children@[a as int]);
            if child.prefix.len() == 0 {
                return false;
            }
            if !child.sound_below(n) {
                return false;
            }
            let mut b: usize = 0;
            while b < a
                invariant
                    b <= a < self.children@.len(),
                    *child == self.children@[a as int],
                    child.prefix@.len() > 0,
                    forall|i: int|
                        0 <= i < a ==> (#[trigger] self.children@[i]).prefix@.len() > 0,
                    forall|i: int|
                        0 <= i < b ==> (#[trigger] self.children@[i]).prefix@[0]
                            != child.prefix@[0],
                decreases a - b,
            {
                assert(self.children@[b as int].prefix@.len() > 0);
                if self.children[b].prefix[0] == child.prefix[0] {
                    return false;
                }
                b = b + 1;
            }
            a = a + 1;
        }
        true
    }
}

/// What is found in a tree with indices below `n` is below `n`.
pub proof fn lemma_names_below(node: &RadixNode<u8, Option<usize>>, n: int, k: Seq<u8>)
    requires
        node.names_below(n),
    ensures
        node.get(k) matches Some(Some(i)) ==> i < n,
    decreases node,
{
    let p = node.prefix@;
    let rest = k.skip(p.len() as int);
    if p.is_prefix_of(k) && rest.len() > 0 && exists|i: int| leads(node.children@, rest[0], i) {
        let i = choose|i: int| leads(node.children@, rest[0], i);
        lemma_names_below(&node.children@[i], n, rest);
    }
}

} // verus!
