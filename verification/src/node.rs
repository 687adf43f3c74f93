use vstd::prelude::*;
use vstd::string::StringSliceAdditionalSpecFns;

use crate::delete::Cursor;
use crate::delete::Playback;

verus! {

/// Whether a node marks the end of an inserted key ("Key") or exists only to
/// route toward deeper key nodes ("Inner").
#[derive(Debug, PartialEq, Eq, Structural, Copy, Clone)]
pub enum NodeType {
    Key,
    Inner,
}

/// Child-edge cardinality, derived from a node's edge count: one edge, or two
/// and more. A node with no edges has no edge type at all.
#[derive(Debug, PartialEq, Eq, Structural, Copy, Clone)]
pub enum EdgeType {
    Single,
    Many,
}

/// One trie node: the single byte it represents, an optionally stored value,
/// the terminal tag, and the exclusively owned child edges. No two children
/// share the same transition byte.
#[derive(Debug)]
#[verifier::ext_equal]
pub struct Node {
    pub key: u8,
    pub value: Option<i32>,
    pub tag: NodeType,
    pub edges: Vec<Node>,
}

impl Node {
    /// Well-formedness: transition bytes are unique among the children of any
    /// node, and below the root no node is dead weight (an `Inner` node with
    /// zero edges must never survive an insert or a delete).
    pub open spec fn wf(self) -> bool
        decreases self,
    {
        &&& edges_unique(self.edges@)
        &&& (forall|i: int|
            0 <= i < self.edges@.len() ==> (#[trigger] self.edges@[i]).wf() && self.edges@[i].live())
    }

    /// A node earns its keep either by marking the end of a key or by routing
    /// toward at least one deeper node.
    pub open spec fn live(self) -> bool {
        self.tag == NodeType::Key || self.edges.len() > 0
    }

    /// Whether some child is reached by the transition byte `b`.
    pub open spec fn has_edge(self, b: u8) -> bool {
        has_edge_in(self.edges@, b)
    }

    /// The index of the child reached by `b`.
    pub open spec fn edge_idx(self, b: u8) -> int {
        edge_idx_in(self.edges@, b)
    }

    /// The child reached by the transition byte `b`.
    pub open spec fn child(self, b: u8) -> Node
        recommends
            self.has_edge(b),
    {
        self.edges@[self.edge_idx(b)]
    }

    /// Whether descending from this node along every byte of `p` stays on
    /// existing edges.
    pub open spec fn has_node(self, p: Seq<u8>) -> bool
        decreases p.len(),
    {
        p.len() == 0 || (self.has_edge(p[0]) && self.child(p[0]).has_node(p.drop_first()))
    }

    /// The node reached by descending from this node along every byte of `p`.
    pub open spec fn node_at(self, p: Seq<u8>) -> Node
        recommends
            self.has_node(p),
        decreases p.len(),
    {
        if p.len() == 0 {
            self
        } else {
            self.child(p[0]).node_at(p.drop_first())
        }
    }

    /// Whether `p` was stored as a key: its path exists and ends at a node
    /// tagged `Key`.
    pub open spec fn has_key(self, p: Seq<u8>) -> bool {
        self.has_node(p) && self.node_at(p).tag == NodeType::Key
    }

    /// The value stored at key `p`.
    pub open spec fn val_at(self, p: Seq<u8>) -> Option<i32>
        recommends
            self.has_key(p),
    {
        self.node_at(p).value
    }

    /// Every stored key decodes as UTF-8; holds whenever keys only ever
    /// entered through `insert`, which takes them from `&str`.
    pub open spec fn keys_utf8(self) -> bool {
        forall|k: Seq<u8>| #[trigger] self.has_key(k) ==> vstd::utf8::valid_utf8(k)
    }

}

/// Whether some element of `es` carries the transition byte `b`.
pub open spec fn has_edge_in(es: Seq<Node>, b: u8) -> bool {
    exists|i: int| 0 <= i < es.len() && es[i].key == b
}

/// The index of the element of `es` that carries the transition byte `b`.
pub open spec fn edge_idx_in(es: Seq<Node>, b: u8) -> int {
    choose|i: int| 0 <= i < es.len() && es[i].key == b
}

/// Transition bytes are unique among `es`.
pub open spec fn edges_unique(es: Seq<Node>) -> bool {
    forall|i: int, j: int| 0 <= i < j < es.len() ==> es[i].key != es[j].key
}

impl Node {
    /// A fresh node carrying `key` and `value`, tagged `Inner`, with no edges.
    pub fn new(key: u8, value: Option<i32>) -> (r: Self)
        ensures
            r == (Node { key, value, tag: NodeType::Inner, edges: r.edges }),
            r.edges@ =~= Seq::<Node>::empty(),
            r.wf(),
    {
        Node { key, value, tag: NodeType::Inner, edges: Vec::new() }
    }

    /// The single byte this node represents.
    pub fn key(&self) -> (r: &u8)
        ensures
            *r == self.key,
    {
        &self.key
    }

    /// Whether this node marks the end of an inserted key.
    pub fn is_key(&self) -> (r: bool)
        ensures
            r == (self.tag == NodeType::Key),
    {
        matches!(self.tag, NodeType::Key)
    }

    /// The edge cardinality: `None` for no edges, `Single` for one, `Many`
    /// for two and more.
    pub fn edge_type(&self) -> (r: Option<EdgeType>)
        ensures
            r == (if self.edges.len() == 0 {
                Option::<EdgeType>::None
            } else if self.edges.len() == 1 {
                Option::<EdgeType>::Some(EdgeType::Single)
            } else {
                Option::<EdgeType>::Some(EdgeType::Many)
            }),
    {
        match self.edges.len() {
            0 => None,
            1 => Some(EdgeType::Single),
            _ => Some(EdgeType::Many),
        }
    }

    /// The children of this node, in some order over existing edges.
    pub fn edges_iter(&self) -> (r: &Vec<Node>)
        ensures
            r == &self.edges,
    {
        &self.edges
    }

    /// The index of the child reached by `b`, if that edge exists.
    #[verifier::loop_isolation(false)]
    fn find_edge(&self, b: u8) -> (r: Option<usize>)
        ensures
            match r {
                Some(i) => self.has_edge(b) && i < self.edges@.len() && self.edges@[i as int].key
                    == b,
                None => !self.has_edge(b),
            },
    {
        let mut i: usize = 0;
        while i < self.edges.len()
            invariant
                i <= self.edges@.len(),
                forall|j: int| 0 <= j < i ==> self.edges@[j].key != b,
            decreases self.edges@.len() - i,
        {
            if self.edges[i].key == b {
                return Some(i);
            }
            i = i + 1;
        }
        None
    }

    /// Pure descent: follows one edge per byte of `prefix` and hands back the
    /// reached node together with its tag, or `None` the instant a byte has
    /// no matching edge. A tag of `Inner` means the string exists only as a
    /// prefix of other keys, not itself a stored key.
    #[verifier::loop_isolation(false)]
    pub fn search(&self, prefix: &str) -> (r: Option<(NodeType, &Node)>)
        requires
            self.wf(),
        ensures
            match r {
                Some((t, n)) => self.has_node(prefix.spec_bytes()) && *n == self.node_at(
                    prefix.spec_bytes(),
                ) && t == n.tag,
                None => !self.has_node(prefix.spec_bytes()),
            },
    {
        let bytes = prefix.as_bytes();
        let ghost p = prefix.spec_bytes();
        let mut current: &Node = self;
        let mut i: usize = 0;
        while i < bytes.len()
            invariant
                self.wf(),
                p == bytes@,
                i <= p.len(),
                self.has_node(p.take(i as int)),
                *current == self.node_at(p.take(i as int)),
                current.wf(),
            decreases p.len() - i,
        {
            proof {
                lemma_take_one_more(*self, p, i as int);
            }
            match current.find_edge(bytes[i]) {
                Some(idx) => {
                    proof {
                        lemma_child_is_at_edge_idx(*current, p[i as int], idx as int);
                    }
                    current = &current.edges[idx];
                },
                None => {
                    proof {
                        assert(!current.has_edge(p[i as int]));
                        assert(!self.has_node(p.take(i as int + 1)));
                        if self.has_node(p) {
                            lemma_has_node_take(*self, p, i as int + 1);
                        }
                        assert(!self.has_node(p));
                    }
                    return None;
                },
            }
            i = i + 1;
        }
        proof {
            assert(p.take(p.len() as int) =~= p);
        }
        Some((current.tag, current))
    }
}

impl Node {
    /// Materializes the root-to-target path for `prefix` as a stack of
    /// `(node, its byte, next byte to descend into, depth level)` tuples,
    /// without parent pointers. The stack always starts with this node; it
    /// stops short of full length the instant a byte has no matching edge,
    /// and that partial-stack case is deliberate: callers read a short stack
    /// as "the prefix falls off the trie partway".
    #[verifier::loop_isolation(false)]
    pub fn fold(&self, prefix: &str) -> (r: Vec<(&Node, u8, Option<u8>, u32)>)
        requires
            self.wf(),
            prefix.spec_bytes().len() < u32::MAX,
        ensures
            ({
                let p = prefix.spec_bytes();
                &&& 1 <= r@.len() <= p.len() + 1
                &&& (forall|j: int|
                    0 <= j < r@.len() ==> {
                        &&& self.has_node(p.take(j))
                        &&& *(#[trigger] r@[j]).0 == self.node_at(p.take(j))
                        &&& r@[j].1 == self.node_at(p.take(j)).key
                        &&& r@[j].2 == (if j < p.len() {
                            Some(p[j])
                        } else {
                            None::<u8>
                        })
                        &&& r@[j].3 == j as u32
                    })
                &&& (r@.len() == p.len() + 1 <==> self.has_node(p))
                &&& (r@.len() <= p.len() ==> !self.has_node(p.take(r@.len() as int)))
            }),
    {
        let bytes = prefix.as_bytes();
        let ghost p = prefix.spec_bytes();
        let mut stack: Vec<(&Node, u8, Option<u8>, u32)> = Vec::new();
        let mut current: &Node = self;
        let mut i: usize = 0;

        // Seed the stack with this node and the first prefix byte as the
        // next byte to descend into.
        let first = if bytes.len() > 0 {
            Some(bytes[0])
        } else {
            None
        };
        proof {
            assert(p.take(0) =~= Seq::<u8>::empty());
        }
        stack.push((current, current.key, first, 0));

        while i < bytes.len()
            invariant
                i <= p.len(),
                i < u32::MAX,
                stack@.len() == i + 1,
                self.has_node(p.take(i as int)),
                *current == self.node_at(p.take(i as int)),
                forall|j: int|
                    0 <= j < stack@.len() ==> {
                        &&& self.has_node(p.take(j))
                        &&& *(#[trigger] stack@[j]).0 == self.node_at(p.take(j))
                        &&& stack@[j].1 == self.node_at(p.take(j)).key
                        &&& stack@[j].2 == (if j < p.len() {
                            Some(p[j])
                        } else {
                            None::<u8>
                        })
                        &&& stack@[j].3 == j as u32
                    },
            decreases p.len() - i,
        {
            proof {
                lemma_take_one_more(*self, p, i as int);
            }
            match current.find_edge(bytes[i]) {
                Some(idx) => {
                    proof {
                        lemma_node_at_wf(*self, p.take(i as int));
                        lemma_child_is_at_edge_idx(*current, p[i as int], idx as int);
                    }
                    current = &current.edges[idx];
                    i = i + 1;
                    let nb = if i < bytes.len() {
                        Some(bytes[i])
                    } else {
                        None
                    };
                    stack.push((current, current.key, nb, i as u32));
                },
                None => {
                    proof {
                        if self.has_node(p) {
                            lemma_has_node_take(*self, p, i as int + 1);
                        }
                    }
                    return stack;
                },
            }
        }
        proof {
            assert(p.take(p.len() as int) =~= p);
        }
        stack
    }
}

/// Every node on a resolved path of a well-formed trie is itself
/// well-formed.
pub proof fn lemma_node_at_wf(n: Node, q: Seq<u8>)
    requires
        n.wf(),
        n.has_node(q),
    ensures
        n.node_at(q).wf(),
        q.len() > 0 ==> n.node_at(q).live(),
    decreases q.len(),
{
    if q.len() > 0 {
        let c = n.child(q[0]);
        lemma_node_at_wf(c, q.drop_first());
        if q.drop_first().len() == 0 {
            assert(n.node_at(q) == c);
        }
    }
}

impl Node {
    /// What `insert` does: afterwards `p` is stored with `value`; every other
    /// key, every other value and the whole reachable path structure are kept;
    /// the returned value is the one previously stored under `p`, if any.
    pub open spec fn insert_post(t0: Node, t1: Node, p: Seq<u8>, value: Option<i32>, r: Option<
        i32,
    >) -> bool {
        &&& t1.wf()
        &&& t1.key == t0.key
        &&& t1.live()
        &&& r == (if t0.has_key(p) {
            t0.val_at(p)
        } else {
            None::<i32>
        })
        &&& (forall|k: Seq<u8>|
            #![trigger t1.has_key(k)]
            #![trigger t0.has_key(k)]
            t1.has_key(k) <==> (t0.has_key(k) || k == p))
        &&& t1.val_at(p) == value
        &&& (forall|k: Seq<u8>|
            #![trigger t1.val_at(k)]
            #![trigger t0.val_at(k)]
            t0.has_key(k) && k != p ==> t1.val_at(k) == t0.val_at(k))
        &&& (forall|q: Seq<u8>|
            #![trigger t1.has_node(q)]
            #![trigger t0.has_node(q)]
            t1.has_node(q) <==> (t0.has_node(q) || q.is_prefix_of(p)))
    }

    /// Inserts the byte suffix `bytes[i..]` below this node, creating missing
    /// intermediate nodes lazily; at the final node an `Inner` tag is promoted
    /// to `Key`, while an existing `Key` keeps its children and hands back its
    /// previous value.
    fn insert_at(&mut self, bytes: &[u8], i: usize, value: Option<i32>) -> (r: Option<i32>)
        requires
            old(self).wf(),
            i <= bytes.len(),
        ensures
            Node::insert_post(*old(self), *final(self), bytes@.skip(i as int), value, r),
        decreases bytes.len() - i,
    {
        let ghost t0 = *self;
        let ghost s = bytes@.skip(i as int);
        if i == bytes.len() {
            let r = if matches!(self.tag, NodeType::Key) {
                self.value
            } else {
                None
            };
            self.tag = NodeType::Key;
            self.value = value;
            proof {
                assert(s =~= Seq::<u8>::empty());
                lemma_insert_post_base(t0, *self, value, r);
            }
            r
        } else {
            let b = bytes[i];
            let idx: usize;
            match self.find_edge(b) {
                Some(j) => {
                    idx = j;
                },
                None => {
                    idx = self.edges.len();
                    self.edges.push(Node::new(b, None));
                },
            }
            let ghost t_mid = *self;
            proof {
                lemma_at_edge_idx(t_mid.edges@, b, idx as int);
            }
            let r = self.edges[idx].insert_at(bytes, i + 1, value);
            proof {
                let c1 = self.edges@[idx as int];
                assert(s.drop_first() =~= bytes@.skip(i as int + 1));
                assert(self.edges@ =~= t_mid.edges@.update(idx as int, c1));
                lemma_insert_lift(t0, t_mid, *self, c1, s, value, r, idx as int);
            }
            r
        }
    }

    /// Inserts `prefix` with `value`. An empty `prefix` is a defined no-op
    /// that returns no previous value and leaves the trie untouched.
    pub fn insert(&mut self, prefix: &str, value: Option<i32>) -> (r: Option<i32>)
        requires
            old(self).wf(),
        ensures
            prefix.spec_bytes().len() == 0 ==> *final(self) == *old(self) && r is None,
            prefix.spec_bytes().len() > 0 ==> Node::insert_post(
                *old(self),
                *final(self),
                prefix.spec_bytes(),
                value,
                r,
            ),
            old(self).keys_utf8() ==> final(self).keys_utf8(),
    {
        proof {
            lemma_encode_len_zero(prefix@);
        }
        if prefix.is_empty() {
            return None;
        }
        let bytes = prefix.as_bytes();
        proof {
            assert(bytes@.skip(0) =~= prefix.spec_bytes());
        }
        let r = self.insert_at(bytes, 0, value);
        proof {
            if old(self).keys_utf8() {
                let p = prefix.spec_bytes();
                vstd::utf8::encode_utf8_valid_utf8(prefix@);
                assert forall|k: Seq<u8>| #[trigger] self.has_key(k) implies vstd::utf8::valid_utf8(
                    k,
                ) by {
                    if k != p {
                        assert(old(self).has_key(k));
                    }
                };
            }
        }
        r
    }
}

/// A character sequence encodes to no bytes exactly when it has no
/// characters.
pub proof fn lemma_encode_len_zero(chars: Seq<char>)
    ensures
        vstd::utf8::encode_utf8(chars).len() == 0 <==> chars.len() == 0,
{
    if chars.len() > 0 {
        assert(vstd::utf8::encode_scalar(chars[0] as u32).len() >= 1);
    }
}

/// In an edge list with unique transition bytes, any index whose element
/// carries byte `b` is the index that `edge_idx_in` picks.
pub proof fn lemma_at_edge_idx(es: Seq<Node>, b: u8, i: int)
    requires
        edges_unique(es),
        0 <= i < es.len(),
        es[i].key == b,
    ensures
        has_edge_in(es, b),
        edge_idx_in(es, b) == i,
{
    assert(has_edge_in(es, b));
    let j = edge_idx_in(es, b);
    if i < j {
        assert(es[i].key != es[j].key);
    } else if j < i {
        assert(es[j].key != es[i].key);
    }
}

/// The same, phrased on a node: the child reached by `b` is the element at
/// index `i`.
pub proof fn lemma_child_is_at_edge_idx(n: Node, b: u8, i: int)
    requires
        edges_unique(n.edges@),
        0 <= i < n.edges@.len(),
        n.edges@[i].key == b,
    ensures
        n.has_edge(b),
        n.edge_idx(b) == i,
        n.child(b) == n.edges@[i],
{
    lemma_at_edge_idx(n.edges@, b, i);
}

/// Unfolding a one-byte descent step: path existence and the reached node
/// factor through the child for the first byte.
pub proof fn lemma_step(t: Node, k: Seq<u8>)
    requires
        k.len() > 0,
    ensures
        t.has_node(k) == (t.has_edge(k[0]) && t.child(k[0]).has_node(k.drop_first())),
        t.has_edge(k[0]) ==> t.node_at(k) == t.child(k[0]).node_at(k.drop_first()),
        t.has_key(k) == (t.has_edge(k[0]) && t.child(k[0]).has_key(k.drop_first())),
        t.has_edge(k[0]) ==> t.val_at(k) == t.child(k[0]).val_at(k.drop_first()),
{
}

/// An edge list `es1` that agrees with `es0` everywhere except at `idx`,
/// where both (if present in `es0`) carry the byte `b`, resolves every other
/// byte exactly as `es0` does.
pub proof fn lemma_edges_resolve(es0: Seq<Node>, es1: Seq<Node>, idx: int, b: u8)
    requires
        edges_unique(es0),
        edges_unique(es1),
        0 <= idx < es1.len(),
        es1[idx].key == b,
        idx < es0.len() ==> es0[idx].key == b,
        es0.len() == es1.len() || (idx == es0.len() && es1.len() == es0.len() + 1),
        forall|j: int| 0 <= j < es1.len() && j != idx ==> es1[j] == es0[j],
    ensures
        has_edge_in(es1, b),
        edge_idx_in(es1, b) == idx,
        forall|b2: u8|
            b2 != b ==> (#[trigger] has_edge_in(es1, b2)) == has_edge_in(es0, b2),
        forall|b2: u8|
            b2 != b && has_edge_in(es0, b2) ==> es1[edge_idx_in(es1, b2)] == es0[edge_idx_in(
                es0,
                b2,
            )],
{
    lemma_at_edge_idx(es1, b, idx);
    assert forall|b2: u8| b2 != b implies (#[trigger] has_edge_in(es1, b2)) == has_edge_in(
        es0,
        b2,
    ) && (has_edge_in(es0, b2) ==> es1[edge_idx_in(es1, b2)] == es0[edge_idx_in(es0, b2)]) by {
        if has_edge_in(es0, b2) {
            let j = edge_idx_in(es0, b2);
            assert(0 <= j < es0.len() && es0[j].key == b2);
            assert(j != idx);
            assert(es1[j] == es0[j]);
            lemma_at_edge_idx(es1, b2, j);
        }
        if has_edge_in(es1, b2) {
            let j = edge_idx_in(es1, b2);
            assert(0 <= j < es1.len() && es1[j].key == b2);
            assert(j != idx);
            lemma_at_edge_idx(es0, b2, j);
        }
    };
}

/// Two byte strings sharing their first byte are equal exactly when their
/// tails are; a prefix relation on nonempty strings steps the same way.
pub proof fn lemma_seq_head_tail(k: Seq<u8>, s: Seq<u8>)
    requires
        k.len() > 0,
        s.len() > 0,
        k[0] == s[0],
    ensures
        (k == s) <==> (k.drop_first() == s.drop_first()),
        k.is_prefix_of(s) <==> k.drop_first().is_prefix_of(s.drop_first()),
{
    let kd = k.drop_first();
    let sd = s.drop_first();
    if kd == sd {
        assert forall|i: int| 0 <= i < k.len() implies k[i] == s[i] by {
            if i > 0 {
                assert(k[i] == kd[i - 1]);
                assert(s[i] == sd[i - 1]);
            }
        };
        assert(k =~= s);
    }
    if kd.is_prefix_of(sd) {
        assert forall|i: int| 0 <= i < k.len() implies k[i] == s.take(k.len() as int)[i] by {
            if i > 0 {
                assert(k[i] == kd[i - 1]);
                assert(kd[i - 1] == sd.take(kd.len() as int)[i - 1]);
                assert(sd[i - 1] == s[i]);
            }
        };
        assert(k =~= s.take(k.len() as int));
    }
    if k.is_prefix_of(s) {
        assert forall|j: int| 0 <= j < kd.len() implies kd[j] == sd.take(kd.len() as int)[j] by {
            assert(kd[j] == k[j + 1]);
            assert(k[j + 1] == s.take(k.len() as int)[j + 1]);
            assert(s[j + 1] == sd[j]);
        };
        assert(kd =~= sd.take(kd.len() as int));
    }
}

/// A fresh `Inner` node with no edges stores no key and resolves only the
/// empty path.
pub proof fn lemma_fresh_no_keys(c: Node)
    requires
        c.tag == NodeType::Inner,
        c.edges@.len() == 0,
    ensures
        forall|k: Seq<u8>| !(#[trigger] c.has_key(k)),
        forall|q: Seq<u8>| #[trigger] c.has_node(q) <==> q.len() == 0,
{
    assert forall|k: Seq<u8>| !(#[trigger] c.has_key(k)) by {
        if k.len() > 0 {
            lemma_step(c, k);
        }
    };
    assert forall|q: Seq<u8>| #[trigger] c.has_node(q) <==> q.len() == 0 by {
        if q.len() > 0 {
            lemma_step(c, q);
        }
    };
}

/// The base of `insert`: marking the reached node as a key (keeping its
/// children) satisfies the insert contract for the empty suffix.
proof fn lemma_insert_post_base(t0: Node, t1: Node, value: Option<i32>, r: Option<i32>)
    requires
        t0.wf(),
        t1.key == t0.key,
        t1.edges == t0.edges,
        t1.tag == NodeType::Key,
        t1.value == value,
        r == (if t0.tag == NodeType::Key {
            t0.value
        } else {
            None::<i32>
        }),
    ensures
        Node::insert_post(t0, t1, Seq::<u8>::empty(), value, r),
{
    let p = Seq::<u8>::empty();
    assert(t1.has_node(p) && t1.node_at(p) == t1);
    assert(t1.has_key(p));
    assert forall|k: Seq<u8>|
        #![trigger t1.has_key(k)]
        #![trigger t0.has_key(k)]
        t1.has_key(k) <==> (t0.has_key(k) || k == p) by {
        if k.len() == 0 {
            assert(k =~= p);
        } else {
            lemma_step(t1, k);
            lemma_step(t0, k);
        }
    };
    assert forall|q: Seq<u8>|
        #![trigger t1.has_node(q)]
        #![trigger t0.has_node(q)]
        t1.has_node(q) <==> (t0.has_node(q) || q.is_prefix_of(p)) by {
        if q.len() > 0 {
            lemma_step(t1, q);
            lemma_step(t0, q);
        }
    };
    assert forall|k: Seq<u8>|
        #![trigger t1.val_at(k)]
        #![trigger t0.val_at(k)]
        t0.has_key(k) && k != p implies t1.val_at(k) == t0.val_at(k) by {
        if k.len() == 0 {
            assert(k =~= p);
        } else {
            lemma_step(t1, k);
            lemma_step(t0, k);
        }
    };
    assert(r == (if t0.has_key(p) {
        t0.val_at(p)
    } else {
        None::<i32>
    }));
}

/// The glue for one level of `insert`: from the child's insert contract to
/// the parent's, whether the child's edge already existed or was freshly
/// pushed.
proof fn lemma_insert_lift(
    t0: Node,
    t_mid: Node,
    t1: Node,
    c1: Node,
    s: Seq<u8>,
    value: Option<i32>,
    r: Option<i32>,
    idx: int,
)
    requires
        t0.wf(),
        s.len() > 0,
        t_mid.key == t0.key,
        t_mid.value == t0.value,
        t_mid.tag == t0.tag,
        0 <= idx < t_mid.edges@.len(),
        t_mid.edges@[idx].key == s[0],
        t0.has_edge(s[0]) ==> t_mid == t0 && idx == t0.edge_idx(s[0]),
        !t0.has_edge(s[0]) ==> {
            &&& t_mid.edges@ == t0.edges@.push(t_mid.edges@[idx])
            &&& idx == t0.edges@.len()
            &&& t_mid.edges@[idx].tag == NodeType::Inner
            &&& t_mid.edges@[idx].value is None
            &&& t_mid.edges@[idx].edges@.len() == 0
        },
        Node::insert_post(t_mid.edges@[idx], c1, s.drop_first(), value, r),
        t1.key == t_mid.key,
        t1.value == t_mid.value,
        t1.tag == t_mid.tag,
        t1.edges@ == t_mid.edges@.update(idx, c1),
    ensures
        Node::insert_post(t0, t1, s, value, r),
{
    let b = s[0];
    let sd = s.drop_first();
    let c0 = t_mid.edges@[idx];
    assert(c1.key == b);
    assert(edges_unique(t1.edges@) && (idx < t0.edges@.len() ==> t0.edges@[idx].key == b)) by {
        assert forall|i: int, j: int| 0 <= i < j < t1.edges@.len() implies t1.edges@[i].key
            != t1.edges@[j].key by {
            if t0.has_edge(b) {
                assert(t0.edges@[i].key == t1.edges@[i].key);
                assert(t0.edges@[j].key == t1.edges@[j].key);
            } else {
                if j < idx {
                } else if j == idx {
                    if t1.edges@[i].key == b {
                        lemma_at_edge_idx(t0.edges@, b, i);
                    }
                }
            }
        };
    }
    lemma_edges_resolve(t0.edges@, t1.edges@, idx, b);
    assert(t1.has_edge(b) && t1.child(b) == c1);
    assert(t0.has_edge(b) ==> t0.child(b) == c0) by {
        if t0.has_edge(b) {
            lemma_at_edge_idx(t0.edges@, b, idx);
        }
    }
    if !t0.has_edge(b) {
        lemma_fresh_no_keys(c0);
    }
    assert(forall|b2: u8|
        b2 != b && has_edge_in(t0.edges@, b2) ==> #[trigger] t1.child(b2) == t0.child(b2));

    // Well-formedness of the rebuilt parent.
    assert(t1.wf()) by {
        assert forall|i: int| 0 <= i < t1.edges@.len() implies (#[trigger] t1.edges@[i]).wf()
            && t1.edges@[i].live() by {
            if i == idx {
            } else {
                assert(t1.edges@[i] == t0.edges@[i]);
                assert(t0.edges@[i].wf() && t0.edges@[i].live());
            }
        };
    }

    // Key membership.
    assert forall|k: Seq<u8>|
        #![trigger t1.has_key(k)]
        #![trigger t0.has_key(k)]
        t1.has_key(k) <==> (t0.has_key(k) || k == s) by {
        if k.len() == 0 {
            assert(k != s);
        } else {
            lemma_step(t1, k);
            lemma_step(t0, k);
            let kd = k.drop_first();
            if k[0] == b {
                lemma_seq_head_tail(k, s);
                assert(t1.has_key(k) == c1.has_key(kd));
                assert(c1.has_key(kd) <==> (c0.has_key(kd) || kd == sd));
                if t0.has_edge(b) {
                    assert(t0.has_key(k) == c0.has_key(kd));
                } else {
                    assert(!t0.has_key(k) && !c0.has_key(kd));
                }
            } else {
                assert(k != s);
            }
        }
    };

    // Path existence.
    assert forall|q: Seq<u8>|
        #![trigger t1.has_node(q)]
        #![trigger t0.has_node(q)]
        t1.has_node(q) <==> (t0.has_node(q) || q.is_prefix_of(s)) by {
        if q.len() == 0 {
            assert(q.is_prefix_of(s)) by {
                assert(q =~= s.take(0));
            }
        } else {
            lemma_step(t1, q);
            lemma_step(t0, q);
            let qd = q.drop_first();
            if q[0] == b {
                lemma_seq_head_tail(q, s);
                assert(t1.has_node(q) == c1.has_node(qd));
                assert(c1.has_node(qd) <==> (c0.has_node(qd) || qd.is_prefix_of(sd)));
                if !t0.has_edge(b) {
                    assert(c0.has_node(qd) <==> qd.len() == 0);
                    assert(qd.len() == 0 ==> qd.is_prefix_of(sd)) by {
                        if qd.len() == 0 {
                            assert(qd =~= sd.take(0));
                        }
                    }
                }
            } else {
                assert(!q.is_prefix_of(s)) by {
                    if q.is_prefix_of(s) {
                        assert(q[0] == s.take(q.len() as int)[0]);
                    }
                }
            }
        }
    };

    // Stored values.
    assert(t1.val_at(s) == value) by {
        lemma_step(t1, s);
        assert(sd =~= s.drop_first());
    }
    assert forall|k: Seq<u8>|
        #![trigger t1.val_at(k)]
        #![trigger t0.val_at(k)]
        t0.has_key(k) && k != s implies t1.val_at(k) == t0.val_at(k) by {
        if k.len() == 0 {
        } else {
            lemma_step(t1, k);
            lemma_step(t0, k);
            let kd = k.drop_first();
            if k[0] == b {
                lemma_seq_head_tail(k, s);
                assert(t0.has_edge(b));
                assert(c0.has_key(kd) && kd != sd);
                assert(c1.val_at(kd) == c0.val_at(kd));
            }
        }
    };

    // Previous value handed back.
    assert(r == (if t0.has_key(s) {
        t0.val_at(s)
    } else {
        None::<i32>
    })) by {
        lemma_step(t0, s);
        if t0.has_edge(b) {
            assert(t0.has_key(s) == c0.has_key(sd));
        }
    }
}

/// Extending a resolved path by one more existing edge: `node_at` steps to
/// the child, and `has_node` carries over.
pub proof fn lemma_take_one_more(n: Node, p: Seq<u8>, i: int)
    requires
        0 <= i < p.len(),
        n.has_node(p.take(i)),
    ensures
        n.node_at(p.take(i)).has_edge(p[i]) ==> {
            &&& n.has_node(p.take(i + 1))
            &&& n.node_at(p.take(i + 1)) == n.node_at(p.take(i)).child(p[i])
        },
        !n.node_at(p.take(i)).has_edge(p[i]) ==> !n.has_node(p.take(i + 1)),
    decreases i,
{
    if i == 0 {
        assert(p.take(0) =~= Seq::<u8>::empty());
        assert(p.take(1) =~= seq![p[0]]);
        assert(p.take(1).drop_first() =~= Seq::<u8>::empty());
        if n.has_edge(p[0]) {
            let c = n.child(p[0]);
            assert(c.has_node(Seq::<u8>::empty()));
            assert(c.node_at(Seq::<u8>::empty()) == c);
            assert(n.has_node(p.take(1)));
            assert(n.node_at(p.take(1)) == c);
        } else {
            assert(!n.has_node(p.take(1)));
        }
    } else {
        assert(p.take(i)[0] == p[0]);
        assert(p.take(i + 1)[0] == p[0]);
        if n.has_edge(p[0]) {
            let c = n.child(p[0]);
            let pd = p.drop_first();
            assert(p.take(i).drop_first() =~= pd.take(i - 1));
            assert(p.take(i + 1).drop_first() =~= pd.take(i));
            assert(c.has_node(pd.take(i - 1)));
            lemma_take_one_more(c, pd, i - 1);
            assert(pd[i - 1] == p[i]);
            assert(n.node_at(p.take(i)) == c.node_at(pd.take(i - 1)));
            if c.node_at(pd.take(i - 1)).has_edge(pd[i - 1]) {
                assert(c.has_node(pd.take(i)));
                assert(n.has_node(p.take(i + 1)));
                assert(n.node_at(p.take(i + 1)) == c.node_at(pd.take(i)));
            } else {
                assert(!c.has_node(pd.take(i)));
                assert(!n.has_node(p.take(i + 1)));
            }
        }
    }
}

/// A resolved path stays resolved when truncated, and the full descent
/// factors through any intermediate node.
pub proof fn lemma_has_node_take(n: Node, p: Seq<u8>, i: int)
    requires
        0 <= i <= p.len(),
        n.has_node(p),
    ensures
        n.has_node(p.take(i)),
    decreases p.len(),
{
    if p.len() == 0 || i == 0 {
        assert(p.take(i) =~= Seq::<u8>::empty());
    } else {
        let c = n.child(p[0]);
        let pd = p.drop_first();
        lemma_has_node_take(c, pd, i - 1);
        assert(p.take(i)[0] == p[0]);
        assert(p.take(i).drop_first() =~= pd.take(i - 1));
    }
}


/// The shape of a tree after the subtree at path `q` has been swapped for
/// `sub`: everything off the path is untouched, and along the path only the
/// one child slot changes.
pub open spec fn replaced(t0: Node, q: Seq<u8>, sub: Node, t1: Node) -> bool
    recommends
        t0.has_node(q),
    decreases q.len(),
{
    if q.len() == 0 {
        t1 == sub
    } else {
        let i = t0.edge_idx(q[0]);
        &&& t1.key == t0.key
        &&& t1.value == t0.value
        &&& t1.tag == t0.tag
        &&& t1.edges@.len() == t0.edges@.len()
        &&& 0 <= i < t1.edges@.len()
        &&& (forall|j: int| 0 <= j < t1.edges@.len() && j != i ==> t1.edges@[j] == t0.edges@[j])
        &&& replaced(t0.child(q[0]), q.drop_first(), sub, t1.edges@[i])
    }
}

/// Descending one byte deeper: once the child slot for `b` of the node at
/// `q` is itself under replacement, the whole tree is under replacement at
/// `q` extended by `b`.
pub proof fn lemma_replaced_extend(t0: Node, q: Seq<u8>, b: u8, a: Node, a2: Node, t1: Node)
    requires
        t0.wf(),
        t0.has_node(q),
        t0.node_at(q).has_edge(b),
        replaced(t0, q, a, t1),
        a.key == t0.node_at(q).key,
        a.value == t0.node_at(q).value,
        a.tag == t0.node_at(q).tag,
        a.edges@ == t0.node_at(q).edges@.update(t0.node_at(q).edge_idx(b), a2),
    ensures
        t0.has_node(q.push(b)),
        t0.node_at(q.push(b)) == t0.node_at(q).child(b),
        replaced(t0, q.push(b), a2, t1),
    decreases q.len(),
{
    let m = t0.node_at(q);
    let qb = q.push(b);
    if q.len() == 0 {
        assert(qb[0] == b);
        assert(qb.drop_first() =~= Seq::<u8>::empty());
        assert(m == t0);
        assert(t1 == a);
        lemma_step(t0, qb);
        assert(t0.child(b).has_node(qb.drop_first()));
        assert(replaced(t0.child(b), qb.drop_first(), a2, t1.edges@[t0.edge_idx(b)]));
    } else {
        let i = t0.edge_idx(q[0]);
        lemma_step(t0, q);
        assert(qb[0] == q[0]);
        assert(qb.drop_first() =~= q.drop_first().push(b));
        lemma_replaced_extend(t0.child(q[0]), q.drop_first(), b, a, a2, t1.edges@[i]);
        lemma_step(t0, qb);
        assert(t0.child(q[0]).has_node(q.drop_first().push(b)));
        assert(t0.has_node(qb));
        assert(t0.node_at(qb) == t0.child(q[0]).node_at(qb.drop_first()));
    }
}

/// A node that differs from `m` only in tag and value keeps `m`'s whole
/// descendant structure.
pub proof fn lemma_retag_keys(m: Node, s2: Node)
    requires
        s2.edges == m.edges,
    ensures
        forall|k: Seq<u8>|
            k.len() > 0 ==> (#[trigger] s2.has_key(k)) == m.has_key(k) && (#[trigger] s2.val_at(
                k,
            )) == m.val_at(k),
        forall|k: Seq<u8>| (#[trigger] s2.has_node(k)) == m.has_node(k),
        s2.wf() == m.wf(),
    {
    assert forall|k: Seq<u8>|
        k.len() > 0 implies (#[trigger] s2.has_key(k)) == m.has_key(k) && (#[trigger] s2.val_at(
        k,
    )) == m.val_at(k) by {
        lemma_step(s2, k);
        lemma_step(m, k);
    };
    assert forall|k: Seq<u8>| (#[trigger] s2.has_node(k)) == m.has_node(k) by {
        if k.len() > 0 {
            lemma_step(s2, k);
            lemma_step(m, k);
        }
    };
}

/// Removing the edge for byte `b` from a node removes exactly the
/// descendants below that edge and keeps every other child untouched.
pub proof fn lemma_drop_edge(m: Node, s2: Node, b: u8, idx: int)
    requires
        edges_unique(m.edges@),
        0 <= idx < m.edges@.len(),
        m.edges@[idx].key == b,
        s2.edges@ == m.edges@.remove(idx),
        s2.key == m.key,
        s2.value == m.value,
        s2.tag == m.tag,
    ensures
        edges_unique(s2.edges@),
        !has_edge_in(s2.edges@, b),
        forall|k: Seq<u8>|
            #![trigger s2.has_key(k)]
            #![trigger m.has_key(k)]
            s2.has_key(k) <==> (m.has_key(k) && !(k.len() > 0 && k[0] == b)),
        forall|k: Seq<u8>|
            #![trigger s2.val_at(k)]
            #![trigger m.val_at(k)]
            s2.has_key(k) ==> s2.val_at(k) == m.val_at(k),
        m.wf() ==> s2.wf(),
{
    assert(forall|j: int|
        0 <= j < s2.edges@.len() ==> #[trigger] s2.edges@[j] == (if j < idx {
            m.edges@[j]
        } else {
            m.edges@[j + 1]
        }));
    assert(edges_unique(s2.edges@)) by {
        assert forall|x: int, y: int| 0 <= x < y < s2.edges@.len() implies s2.edges@[x].key
            != s2.edges@[y].key by {
            let x0 = if x < idx { x } else { x + 1 };
            let y0 = if y < idx { y } else { y + 1 };
            assert(m.edges@[x0].key != m.edges@[y0].key);
        };
    }
    assert(!has_edge_in(s2.edges@, b)) by {
        if has_edge_in(s2.edges@, b) {
            let j = edge_idx_in(s2.edges@, b);
            let j0 = if j < idx { j } else { j + 1 };
            assert(m.edges@[j0].key == b);
            assert(m.edges@[idx].key == b);
        }
    }
    assert forall|b2: u8| b2 != b implies (#[trigger] has_edge_in(s2.edges@, b2)) == has_edge_in(
        m.edges@,
        b2,
    ) && (has_edge_in(m.edges@, b2) ==> s2.child(b2) == m.child(b2)) by {
        if has_edge_in(m.edges@, b2) {
            let j0 = edge_idx_in(m.edges@, b2);
            assert(m.edges@[j0].key == b2);
            assert(j0 != idx);
            let j = if j0 < idx { j0 } else { j0 - 1 };
            assert(s2.edges@[j] == m.edges@[j0]);
            lemma_at_edge_idx(s2.edges@, b2, j);
            lemma_at_edge_idx(m.edges@, b2, j0);
        }
        if has_edge_in(s2.edges@, b2) {
            let j = edge_idx_in(s2.edges@, b2);
            let j0 = if j < idx { j } else { j + 1 };
            assert(m.edges@[j0].key == b2);
            lemma_at_edge_idx(m.edges@, b2, j0);
        }
    };
    assert forall|k: Seq<u8>|
        #![trigger s2.has_key(k)]
        #![trigger m.has_key(k)]
        (s2.has_key(k) <==> (m.has_key(k) && !(k.len() > 0 && k[0] == b))) && (s2.has_key(k)
            ==> s2.val_at(k) == m.val_at(k)) by {
        if k.len() > 0 {
            lemma_step(s2, k);
            lemma_step(m, k);
        }
    };
    if m.wf() {
        assert(s2.wf()) by {
            assert forall|j: int| 0 <= j < s2.edges@.len() implies (#[trigger] s2.edges@[j]).wf()
                && s2.edges@[j].live() by {
                let j0 = if j < idx { j } else { j + 1 };
                assert(m.edges@[j0].wf() && m.edges@[j0].live());
            };
        }
    }
}

/// Factoring a full descent through an intermediate node on the path.
pub proof fn lemma_at_decomp(t0: Node, q: Seq<u8>, k: Seq<u8>)
    requires
        t0.has_node(q),
        q.is_prefix_of(k),
    ensures
        t0.has_node(k) <==> t0.node_at(q).has_node(k.skip(q.len() as int)),
        t0.has_node(k) ==> t0.node_at(k) == t0.node_at(q).node_at(k.skip(q.len() as int)),
        t0.has_key(k) <==> t0.node_at(q).has_key(k.skip(q.len() as int)),
        t0.has_key(k) ==> t0.val_at(k) == t0.node_at(q).val_at(k.skip(q.len() as int)),
    decreases q.len(),
{
    if q.len() == 0 {
        assert(k.skip(0) =~= k);
    } else {
        assert(k.len() > 0 && k[0] == q[0]) by {
            assert(q[0] == k.take(q.len() as int)[0]);
        }
        lemma_step(t0, q);
        lemma_step(t0, k);
        lemma_seq_head_tail(q, k);
        lemma_at_decomp(t0.child(q[0]), q.drop_first(), k.drop_first());
        assert(k.drop_first().skip(q.len() - 1) =~= k.skip(q.len() as int));
    }
}

/// The main decomposition: after the subtree at `q` is swapped for `sub`,
/// the keys under `q` are exactly `sub`'s keys shifted, and everything else
/// is exactly as before.
#[verifier::rlimit(100)]
pub proof fn lemma_replaced_decomp(t0: Node, q: Seq<u8>, sub: Node, t1: Node)
    requires
        t0.wf(),
        t0.has_node(q),
        replaced(t0, q, sub, t1),
        sub.wf(),
        q.len() > 0 ==> sub.live(),
        sub.key == t0.node_at(q).key,
    ensures
        t1.wf(),
        t1.key == t0.key,
        forall|k: Seq<u8>|
            #![trigger t1.has_key(k)]
            #![trigger t0.has_key(k)]
            t1.has_key(k) <==> (if q.is_prefix_of(k) {
                sub.has_key(k.skip(q.len() as int))
            } else {
                t0.has_key(k)
            }),
        forall|k: Seq<u8>|
            #![trigger t1.val_at(k)]
            #![trigger t0.val_at(k)]
            t1.has_key(k) ==> t1.val_at(k) == (if q.is_prefix_of(k) {
                sub.val_at(k.skip(q.len() as int))
            } else {
                t0.val_at(k)
            }),
    decreases q.len(),
{
    if q.len() == 0 {
        assert(forall|k: Seq<u8>| q.is_prefix_of(k)) by {
            assert forall|k: Seq<u8>| q.is_prefix_of(k) by {
                assert(q =~= k.take(0));
            };
        }
        assert(forall|k: Seq<u8>| #[trigger] k.skip(0) =~= k);
    } else {
        let b = q[0];
        let i = t0.edge_idx(b);
        let c0 = t0.child(b);
        let c1 = t1.edges@[i];
        let qd = q.drop_first();
        lemma_step(t0, q);
        assert(replaced(c0, qd, sub, c1));
        lemma_replaced_decomp(c0, qd, sub, c1);
        assert(c1.key == c0.key);
        assert(edges_unique(t1.edges@)) by {
            assert forall|x: int, y: int| 0 <= x < y < t1.edges@.len() implies t1.edges@[x].key
                != t1.edges@[y].key by {
                assert(t1.edges@[x].key == t0.edges@[x].key);
                assert(t1.edges@[y].key == t0.edges@[y].key);
            };
        }
        lemma_edges_resolve(t0.edges@, t1.edges@, i, b);
        assert(t1.has_edge(b) && t1.child(b) == c1);
        // c1 stays live: deeper down it still has the replaced child's edge,
        // and at the swap point liveness is a hypothesis.
        if qd.len() > 0 {
            assert(c1.edges@.len() == c0.edges@.len());
            lemma_step(c0, qd);
        }
        assert(c1.live());
        assert(t1.wf()) by {
            assert forall|j: int| 0 <= j < t1.edges@.len() implies (#[trigger] t1.edges@[j]).wf()
                && t1.edges@[j].live() by {
                if j != i {
                    assert(t1.edges@[j] == t0.edges@[j]);
                    assert(t0.edges@[j].wf() && t0.edges@[j].live());
                }
            };
        }
        assert forall|k: Seq<u8>|
            #![trigger t1.has_key(k)]
            #![trigger t0.has_key(k)]
            (t1.has_key(k) <==> (if q.is_prefix_of(k) {
                sub.has_key(k.skip(q.len() as int))
            } else {
                t0.has_key(k)
            })) && (t1.has_key(k) ==> t1.val_at(k) == (if q.is_prefix_of(k) {
                sub.val_at(k.skip(q.len() as int))
            } else {
                t0.val_at(k)
            })) by {
            if k.len() == 0 {
                assert(!q.is_prefix_of(k));
            } else {
                lemma_step(t1, k);
                lemma_step(t0, k);
                let kd = k.drop_first();
                if k[0] == b {
                    lemma_seq_head_tail(q, k);
                    assert(t1.has_key(k) == c1.has_key(kd));
                    assert(t0.has_key(k) == c0.has_key(kd));
                    if q.is_prefix_of(k) {
                        assert(qd.is_prefix_of(kd));
                        assert(kd.skip(qd.len() as int) =~= k.skip(q.len() as int));
                    }
                } else {
                    assert(!q.is_prefix_of(k)) by {
                        if q.is_prefix_of(k) {
                            assert(q[0] == k.take(q.len() as int)[0]);
                        }
                    }
                }
            }
        };
    }
}

/// Hands out the child slot at `idx` for mutation: the parent's other
/// fields and children are pinned, and its final state carries whatever the
/// caller leaves in the slot.
fn edge_mut(n: &mut Node, idx: usize) -> (r: &mut Node)
    requires
        idx < old(n).edges@.len(),
    ensures
        *r == old(n).edges@[idx as int],
        final(n).key == old(n).key,
        final(n).value == old(n).value,
        final(n).tag == old(n).tag,
        final(n).edges@ == old(n).edges@.update(idx as int, *final(r)),
{
    &mut n.edges[idx]
}

impl Node {
    /// What `remove` does: afterwards `p` is no longer stored while every
    /// other key keeps its value, no dead inner chain survives, and the
    /// returned value is the one that was stored under `p`, if any.
    pub open spec fn remove_post(t0: Node, t1: Node, p: Seq<u8>, r: Option<i32>) -> bool {
        &&& t1.wf()
        &&& t1.key == t0.key
        &&& r == (if t0.has_key(p) {
            t0.val_at(p)
        } else {
            None::<i32>
        })
        &&& (forall|k: Seq<u8>|
            #![trigger t1.has_key(k)]
            #![trigger t0.has_key(k)]
            t1.has_key(k) <==> (t0.has_key(k) && k != p))
        &&& (forall|k: Seq<u8>|
            #![trigger t1.val_at(k)]
            #![trigger t0.val_at(k)]
            t0.has_key(k) && k != p ==> t1.val_at(k) == t0.val_at(k))
    }

    /// Removes the key `prefix`: planning first records a replay plan over
    /// immutable references, then a second pass replays it through a single
    /// mutable descent, keeping, pruning or unmarking level by level. A
    /// prefix never stored as a key replays a plan of bare `Keep`
    /// instructions and leaves every key in place.
    pub fn remove(&mut self, prefix: &str) -> (r: Option<i32>)
        requires
            old(self).wf(),
            prefix.spec_bytes().len() < u32::MAX,
        ensures
            Node::remove_post(*old(self), *final(self), prefix.spec_bytes(), r),
            old(self).keys_utf8() ==> final(self).keys_utf8(),
    {
        let ghost t0 = *old(self);
        let ghost p = prefix.spec_bytes();
        let mut replay = crate::delete::capture(self, prefix);

        // Move the tree into a local so that the single mutable cursor can
        // walk it; it is swapped back once the replay is over.
        let mut root: Node = Node::new(0u8, None);
        core::mem::swap(self, &mut root);
        let mut current: &mut Node = &mut root;
        let mut counter: u32 = 0;
        let mut value: Option<i32> = None;

        proof {
            assert(p.take(0) =~= Seq::<u8>::empty());
            assert(p.skip(0) =~= p);
        }

        loop
            invariant_except_break
                t0.wf(),
                p.len() < u32::MAX,
                counter <= p.len(),
                t0.has_node(p.take(counter as int)),
                *current == t0.node_at(p.take(counter as int)),
                replay@ == crate::delete::plan_from(
                    *current,
                    p.skip(counter as int),
                    counter as nat,
                ).0,
                counter > 0 ==> !crate::delete::plan_from(
                    *current,
                    p.skip(counter as int),
                    counter as nat,
                ).1,
                value == None::<i32>,
                replaced(t0, p.take(counter as int), *final(current), after_borrow(root)),
            ensures
                Node::remove_post(t0, after_borrow(root), p, value),
            decreases replay@.len(),
        {
            let ghost q = p.skip(counter as int);
            let ghost m = *current;
            proof {
                lemma_node_at_wf(t0, p.take(counter as int));
            }
            if replay.is_empty() {
                // No unmark was planned: the prefix was never stored, and
                // nothing was touched.
                proof {
                    assert(!t0.has_key(p)) by {
                        if q.len() == 0 {
                            assert(p.take(counter as int) =~= p);
                        } else {
                            if t0.has_node(p) {
                                lemma_has_node_take(t0, p, counter as int + 1);
                                lemma_take_one_more(t0, p, counter as int);
                                assert(m.has_edge(p[counter as int]));
                            }
                        }
                    }
                    assert(has_resolved(current));
                    lemma_replaced_decomp(t0, p.take(counter as int), m, after_borrow(root));
                    assert forall|k: Seq<u8>|
                        #![trigger after_borrow(root).has_key(k)]
                        #![trigger t0.has_key(k)]
                        after_borrow(root).has_key(k) <==> (t0.has_key(k) && k != p) by {
                        if p.take(counter as int).is_prefix_of(k) {
                            lemma_at_decomp(t0, p.take(counter as int), k);
                        }
                        if k == p {
                            assert(!t0.has_key(k));
                        }
                    };
                    assert forall|k: Seq<u8>|
                        #![trigger after_borrow(root).val_at(k)]
                        #![trigger t0.val_at(k)]
                        t0.has_key(k) && k != p implies after_borrow(root).val_at(k) == t0.val_at(
                        k,
                    ) by {
                        if p.take(counter as int).is_prefix_of(k) {
                            lemma_at_decomp(t0, p.take(counter as int), k);
                        }
                    };
                }
                break;
            }
            let item = replay.pop().unwrap();
            match item {
                Playback::Keep(Cursor::Link(i, byte, next_byte)) => {
                    proof {
                        assert(q.len() > 0 && m.has_edge(q[0]));
                    }
                    if i == counter && byte == current.key {
                        let ghost a_fin = *final(current);
                        let idx = match current.find_edge(next_byte) {
                            Some(idx) => idx,
                            None => {
                                proof {
                                    assert(false);
                                }
                                break ;
                            },
                        };
                        proof {
                            lemma_child_is_at_edge_idx(m, next_byte, idx as int);
                        }
                        current = edge_mut(current, idx);
                        counter = counter + 1;
                        proof {
                            lemma_take_one_more(t0, p, counter as int - 1);
                            lemma_replaced_extend(
                                t0,
                                p.take(counter as int - 1),
                                next_byte,
                                a_fin,
                                *final(current),
                                after_borrow(root),
                            );
                            assert(p.take(counter as int - 1).push(next_byte) =~= p.take(
                                counter as int,
                            ));
                            assert(q.drop_first() =~= p.skip(counter as int));
                        }
                    } else {
                        proof {
                            assert(false);
                        }
                        break ;
                    }
                },
                Playback::Unmark(Cursor::Node(i, byte)) => {
                    proof {
                        assert(q.len() == 0 && m.tag == NodeType::Key);
                        assert(p.take(counter as int) =~= p);
                    }
                    if i == counter && byte == current.key {
                        // The actual deletion: flip the tag back to `Inner`
                        // and take the stored value out.
                        let v = current.value;
                        current.value = None;
                        current.tag = NodeType::Inner;
                        value = v;
                        proof {
                            assert(has_resolved(current));
                            let sub = *final(current);
                            assert(sub.edges == m.edges);
                            lemma_retag_keys(m, sub);
                            assert(counter > 0 ==> m.edges@.len() > 0);
                            lemma_replaced_decomp(t0, p, sub, after_borrow(root));
                            assert(t0.has_key(p) && value == t0.val_at(p));
                            assert forall|k: Seq<u8>|
                                #![trigger after_borrow(root).has_key(k)]
                                #![trigger t0.has_key(k)]
                                after_borrow(root).has_key(k) <==> (t0.has_key(k) && k != p) by {
                                if p.is_prefix_of(k) {
                                    lemma_at_decomp(t0, p, k);
                                    let k2 = k.skip(p.len() as int);
                                    if k2.len() == 0 {
                                        assert(k =~= p);
                                    }
                                    if k == p {
                                        assert(k2 =~= Seq::<u8>::empty());
                                    }
                                }
                            };
                            assert forall|k: Seq<u8>|
                                #![trigger after_borrow(root).val_at(k)]
                                #![trigger t0.val_at(k)]
                                t0.has_key(k) && k != p implies after_borrow(root).val_at(k)
                                == t0.val_at(k) by {
                                if p.is_prefix_of(k) {
                                    lemma_at_decomp(t0, p, k);
                                    let k2 = k.skip(p.len() as int);
                                    if k2.len() == 0 {
                                        assert(k =~= p);
                                    }
                                }
                            };
                        }
                        break ;
                    } else {
                        proof {
                            assert(false);
                        }
                        break ;
                    }
                },
                Playback::Prune(Cursor::Link(i, byte, next_byte)) => {
                    proof {
                        assert(q.len() > 0 && m.has_edge(q[0]));
                        assert(crate::delete::plan_from(
                            m.child(q[0]),
                            q.drop_first(),
                            (counter + 1) as nat,
                        ).1);
                    }
                    if i == counter && byte == current.key {
                        let idx = match current.find_edge(next_byte) {
                            Some(idx) => idx,
                            None => {
                                proof {
                                    assert(false);
                                }
                                break ;
                            },
                        };
                        proof {
                            lemma_child_is_at_edge_idx(m, next_byte, idx as int);
                        }
                        // Detach the whole owned subtree in one removal; the
                        // rest of the plan walks the detached chain down to
                        // the value being deleted, dropping each shell.
                        let mut owned: Node = current.edges.remove(idx);
                        counter = counter + 1;
                        let ghost s_lvl = counter as int - 1;
                        proof {
                            lemma_take_one_more(t0, p, s_lvl);
                            assert(owned == t0.node_at(p.take(counter as int)));
                            assert(q.drop_first() =~= p.skip(counter as int));
                        }
                        proof {
                            assert(crate::delete::plan_from(
                                owned,
                                p.skip(counter as int),
                                counter as nat,
                            ).0.len() > 0);
                        }
                        while !replay.is_empty()
                            invariant_except_break
                                t0.wf(),
                                p.len() < u32::MAX,
                                counter <= p.len() + 1,
                                replay@.len() > 0 ==> {
                                    &&& counter <= p.len()
                                    &&& t0.has_node(p.take(counter as int))
                                    &&& owned == t0.node_at(p.take(counter as int))
                                    &&& replay@ == crate::delete::plan_from(
                                        owned,
                                        p.skip(counter as int),
                                        counter as nat,
                                    ).0
                                    &&& crate::delete::plan_from(
                                        owned,
                                        p.skip(counter as int),
                                        counter as nat,
                                    ).1
                                    &&& value == None::<i32>
                                },
                                replay@.len() == 0 ==> {
                                    &&& t0.has_key(p)
                                    &&& value == t0.val_at(p)
                                },
                            ensures
                                t0.has_key(p),
                                value == t0.val_at(p),
                            decreases replay@.len(),
                        {
                            let ghost q2 = p.skip(counter as int);
                            let ghost m2 = owned;
                            proof {
                                lemma_node_at_wf(t0, p.take(counter as int));
                            }
                            let item2 = replay.pop().unwrap();
                            match item2 {
                                Playback::Prune(Cursor::Link(i2, byte2, nb2)) => {
                                    proof {
                                        assert(q2.len() > 0 && m2.has_edge(q2[0]));
                                    }
                                    if i2 == counter && byte2 == owned.key {
                                        let idx2 = match owned.find_edge(nb2) {
                                            Some(idx2) => idx2,
                                            None => {
                                                proof {
                                                    assert(false);
                                                }
                                                break ;
                                            },
                                        };
                                        proof {
                                            lemma_child_is_at_edge_idx(m2, nb2, idx2 as int);
                                            lemma_take_one_more(t0, p, counter as int);
                                        }
                                        owned = owned.edges.remove(idx2);
                                        counter = counter + 1;
                                        proof {
                                            assert(q2.drop_first() =~= p.skip(counter as int));
                                            assert(crate::delete::plan_from(
                                                owned,
                                                p.skip(counter as int),
                                                counter as nat,
                                            ).0.len() > 0);
                                        }
                                    } else {
                                        proof {
                                            assert(false);
                                        }
                                        break ;
                                    }
                                },
                                Playback::Unmark(Cursor::Node(i2, byte2)) => {
                                    proof {
                                        assert(q2.len() == 0 && m2.tag == NodeType::Key);
                                        assert(p.take(counter as int) =~= p);
                                    }
                                    if i2 == counter && byte2 == owned.key {
                                        let v = owned.value;
                                        owned.value = None;
                                        owned.tag = NodeType::Inner;
                                        value = v;
                                        proof {
                                            assert(t0.has_key(p));
                                            assert(value == t0.val_at(p));
                                        }
                                    } else {
                                        proof {
                                            assert(false);
                                        }
                                        break ;
                                    }
                                },
                                _ => {
                                    proof {
                                        assert(false);
                                    }
                                    break ;
                                },
                            }
                        }
                        proof {
                            assert(has_resolved(current));
                            let sub = *final(current);
                            assert(sub.key == m.key && sub.value == m.value && sub.tag == m.tag);
                            assert(sub.edges@ == m.edges@.remove(idx as int));
                            lemma_drop_edge(m, sub, next_byte, idx as int);
                            crate::delete::lemma_flag_true_keys(
                                t0.node_at(p.take(s_lvl + 1)),
                                p.skip(s_lvl + 1),
                                (s_lvl + 1) as nat,
                            );
                            lemma_remove_prune_assemble(t0, p, s_lvl, sub, after_borrow(root), value);
                        }
                        break ;
                    } else {
                        proof {
                            assert(false);
                        }
                        break ;
                    }
                },
                _ => {
                    proof {
                        let ghost last = replay@.push(item).last();
                        assert(false);
                    }
                    break ;
                },
            }
        }
        proof {
            assert(Node::remove_post(t0, root, p, value));
        }
        core::mem::swap(self, &mut root);
        proof {
            if old(self).keys_utf8() {
                assert forall|k: Seq<u8>| #[trigger]
                    final(self).has_key(k) implies vstd::utf8::valid_utf8(k) by {
                    assert(t0.has_key(k));
                };
            }
        }
        value
    }
}

/// Assembles the contract of `remove` in the pruning case: the surviving
/// ancestor keeps every other child, the detached chain held exactly the one
/// key being removed, and the value walked out of the chain's end.
#[verifier::rlimit(100)]
proof fn lemma_remove_prune_assemble(
    t0: Node,
    p: Seq<u8>,
    s_lvl: int,
    sub: Node,
    t1: Node,
    value: Option<i32>,
)
    requires
        t0.wf(),
        0 <= s_lvl < p.len(),
        t0.has_node(p.take(s_lvl + 1)),
        ({
            let m = t0.node_at(p.take(s_lvl));
            let c = t0.node_at(p.take(s_lvl + 1));
            &&& sub.key == m.key
            &&& sub.value == m.value
            &&& sub.tag == m.tag
            &&& edges_unique(sub.edges@)
            &&& !has_edge_in(sub.edges@, p[s_lvl])
            &&& sub.wf()
            &&& (s_lvl > 0 ==> sub.live())
            &&& (forall|k: Seq<u8>|
                #![trigger sub.has_key(k)]
                #![trigger m.has_key(k)]
                sub.has_key(k) <==> (m.has_key(k) && !(k.len() > 0 && k[0] == p[s_lvl])))
            &&& (forall|k: Seq<u8>|
                #![trigger sub.val_at(k)]
                #![trigger m.val_at(k)]
                sub.has_key(k) ==> sub.val_at(k) == m.val_at(k))
            &&& (forall|k: Seq<u8>| #[trigger] c.has_key(k) <==> k == p.skip(s_lvl + 1))
        }),
        replaced(t0, p.take(s_lvl), sub, t1),
        t0.has_key(p) ==> value == t0.val_at(p),
        t0.has_key(p),
    ensures
        Node::remove_post(t0, t1, p, value),
{
    let qs = p.take(s_lvl);
    let m = t0.node_at(qs);
    let c = t0.node_at(p.take(s_lvl + 1));
    let b = p[s_lvl];
    assert(t0.has_node(qs)) by {
        lemma_has_node_take(t0, p.take(s_lvl + 1), s_lvl);
        assert(p.take(s_lvl + 1).take(s_lvl) =~= qs);
    }
    lemma_node_at_wf(t0, qs);
    assert(m.has_edge(b) && m.child(b) == c) by {
        lemma_take_one_more(t0, p, s_lvl);
        assert(m.has_edge(b));
        assert(t0.node_at(p.take(s_lvl + 1)) == m.child(b));
    }
    lemma_replaced_decomp(t0, qs, sub, t1);
    assert forall|k: Seq<u8>|
        #![trigger t1.has_key(k)]
        #![trigger t0.has_key(k)]
        (t1.has_key(k) <==> (t0.has_key(k) && k != p)) && (t0.has_key(k) && k != p
            ==> t1.val_at(k) == t0.val_at(k)) by {
        if qs.is_prefix_of(k) {
            lemma_at_decomp(t0, qs, k);
            let k2 = k.skip(s_lvl);
            assert(t1.has_key(k) <==> sub.has_key(k2));
            assert(t0.has_key(k) <==> m.has_key(k2));
            if k2.len() > 0 && k2[0] == b {
                // Everything below the pruned edge was exactly the key
                // being removed.
                lemma_step(m, k2);
                assert(m.has_key(k2) <==> c.has_key(k2.drop_first()));
                assert(k2.drop_first() == p.skip(s_lvl + 1) <==> k == p) by {
                    if k2.drop_first() == p.skip(s_lvl + 1) {
                        assert(k =~= p) by {
                            assert(k.len() == p.len());
                            assert(forall|j: int|
                                0 <= j < s_lvl ==> k[j] == qs[j] && #[trigger] p[j] == qs[j]);
                            assert(k[s_lvl] == k2[0] && k2[0] == b);
                            assert(forall|j: int|
                                s_lvl < j < k.len() ==> k[j] == k2.drop_first()[j - s_lvl - 1]
                                    && #[trigger] p[j] == p.skip(s_lvl + 1)[j - s_lvl - 1]);
                        }
                    }
                    if k == p {
                        assert(k2.drop_first() =~= p.skip(s_lvl + 1));
                    }
                }
                assert(!sub.has_key(k2));
            } else {
                assert(sub.has_key(k2) <==> m.has_key(k2));
                assert(k != p) by {
                    if k == p {
                        assert(k2 =~= p.skip(s_lvl));
                        assert(k2.len() > 0 && k2[0] == b);
                    }
                }
            }
        } else {
            assert(k != p) by {
                if k == p {
                    assert(qs.is_prefix_of(p)) by {
                        assert(qs =~= p.take(qs.len() as int));
                    }
                }
            }
        }
    };
    assert(value == t0.val_at(p));
}

/// Relies on `String::from_utf8`: it returns `Ok` exactly when the bytes
/// are valid UTF-8, and the resulting string's characters decode those
/// bytes.
#[verifier::external_body]
pub(crate) fn bytes_to_string(bytes: Vec<u8>) -> (r: Option<String>)
    ensures
        r is Some <==> vstd::utf8::valid_utf8(bytes@),
        r matches Some(s) ==> s@ == vstd::utf8::decode_utf8(bytes@),
{
    String::from_utf8(bytes).ok()
}

impl Node {
    /// The longest byte-prefix of `p` that is a stored key, if any.
    pub open spec fn lp(self, p: Seq<u8>) -> Option<Seq<u8>>
        decreases p.len(),
    {
        if self.has_key(p) {
            Some(p)
        } else if p.len() == 0 {
            None
        } else {
            self.lp(p.drop_last())
        }
    }

    /// The deepest stored key along the path of `prefix`, reconstructed as a
    /// string; `None` when no node along the path is a key node, including
    /// when the path stops before consuming all of `prefix`.
    #[verifier::loop_isolation(false)]
    pub fn longest_prefix(&self, prefix: &str) -> (r: Option<String>)
        requires
            self.wf(),
            self.keys_utf8(),
            prefix.spec_bytes().len() < u32::MAX,
        ensures
            match (r, self.lp(prefix.spec_bytes())) {
                (Some(s), Some(b)) => vstd::utf8::encode_utf8(s@) == b,
                (None, None) => true,
                _ => false,
            },
    {
        let ghost p = prefix.spec_bytes();
        let stack = self.fold(prefix);

        // Scan the stack from deepest to shallowest; the deepest node tagged
        // as a key determines the answer.
        let mut j: usize = stack.len();
        proof {
            lemma_lp_cut(*self, p, stack@.len() - 1);
        }
        while j > 0
            invariant
                j <= stack@.len(),
                j >= 1 ==> self.lp(p) == self.lp(p.take(j as int - 1)),
                j == 0 ==> self.lp(p) is None,
            decreases j,
        {
            j = j - 1;
            let (node_ref, _, _, _) = stack[j];
            proof {
                assert(*(stack@[j as int]).0 == self.node_at(p.take(j as int)));
            }
            if node_ref.is_key() {
                proof {
                    assert(self.lp(p.take(j as int)) == Some(p.take(j as int)));
                }
                // Reassemble the byte path from the stack entries below the
                // synthetic root entry.
                let mut prefixes: Vec<u8> = Vec::new();
                let mut i: usize = 1;
                while i <= j
                    invariant
                        1 <= i <= j + 1,
                        j < stack@.len(),
                        prefixes@ =~= p.take(i as int - 1),
                    decreases j + 1 - i,
                {
                    proof {
                        assert(*(stack@[i as int]).0 == self.node_at(p.take(i as int)));
                        assert(*(stack@[i as int - 1]).0 == self.node_at(p.take(i as int - 1)));
                        lemma_take_one_more(*self, p, i as int - 1);
                        assert(self.node_at(p.take(i as int)).key == p[i as int - 1]) by {
                            let m = self.node_at(p.take(i as int - 1));
                            let b = p[i as int - 1];
                            assert(m.has_edge(b));
                            let idx = m.edge_idx(b);
                            assert(0 <= idx < m.edges@.len() && m.edges@[idx].key == b);
                        }
                    }
                    let (_, b, _, _) = stack[i];
                    prefixes.push(b);
                    i = i + 1;
                }
                proof {
                    assert(prefixes@ =~= p.take(j as int));
                    assert(self.has_key(p.take(j as int)));
                    assert(vstd::utf8::valid_utf8(prefixes@));
                }
                let s = bytes_to_string(prefixes);
                match s {
                    Some(s) => {
                        proof {
                            vstd::utf8::decode_utf8_encode_utf8(p.take(j as int));
                        }
                        return Some(s);
                    },
                    None => {
                        proof {
                            assert(false);
                        }
                        return None;
                    },
                }
            }
            proof {
                assert(!self.has_key(p.take(j as int)));
                if j > 0 {
                    assert(p.take(j as int).drop_last() =~= p.take(j as int - 1));
                    assert(self.lp(p.take(j as int)) == self.lp(p.take(j as int - 1)));
                } else {
                    assert(p.take(0) =~= Seq::<u8>::empty());
                    assert(self.lp(p.take(0)) is None);
                }
            }
        }
        None
    }
}

/// Beyond the point where the descent fell off the trie, no prefix is a
/// stored key, so the longest stored prefix is decided by the resolved part
/// alone.
proof fn lemma_lp_cut(n: Node, p: Seq<u8>, w: int)
    requires
        0 <= w <= p.len(),
        w < p.len() ==> !n.has_node(p.take(w + 1)),
    ensures
        n.lp(p) == n.lp(p.take(w)),
    decreases p.len() - w,
{
    if w == p.len() {
        assert(p.take(w) =~= p);
    } else {
        assert(!n.has_key(p)) by {
            if n.has_node(p) {
                lemma_has_node_take(n, p, w + 1);
            }
        }
        let p2 = p.drop_last();
        assert(p2 =~= p.take(p.len() - 1));
        if w == p.len() - 1 {
            assert(n.lp(p) == n.lp(p.take(w)));
        } else {
            assert(p2.take(w + 1) =~= p.take(w + 1));
            lemma_lp_cut(n, p2, w);
            assert(p2.take(w) =~= p.take(w));
        }
    }
}

/// The number of nodes in the subtree rooted at `n`.
pub open spec fn tree_size(n: Node) -> nat
    decreases n,
{
    1 + edges_size(n.edges@)
}

/// The total number of nodes in the subtrees of `es`.
pub open spec fn edges_size(es: Seq<Node>) -> nat
    decreases es,
{
    if es.len() == 0 {
        0
    } else {
        tree_size(es[0]) + edges_size(es.drop_first())
    }
}

/// The total number of nodes still to visit on a breadth-first frontier.
pub open spec fn frontier_size<'a>(q: Seq<(&'a Node, Vec<u8>)>) -> nat
    decreases q.len(),
{
    if q.len() == 0 {
        0
    } else {
        tree_size(*q[0].0) + frontier_size(q.drop_first())
    }
}

/// Appending one entry adds exactly its subtree to the frontier size.
proof fn lemma_frontier_size_push<'a>(q: Seq<(&'a Node, Vec<u8>)>, e: (&'a Node, Vec<u8>))
    ensures
        frontier_size(q.push(e)) == frontier_size(q) + tree_size(*e.0),
    decreases q.len(),
{
    if q.len() == 0 {
        assert(q.push(e).drop_first() =~= q);
    } else {
        assert(q.push(e).drop_first() =~= q.drop_first().push(e));
        lemma_frontier_size_push(q.drop_first(), e);
    }
}

/// Summing subtree sizes one edge at a time.
proof fn lemma_edges_size_snoc(es: Seq<Node>, i: int)
    requires
        0 <= i < es.len(),
    ensures
        edges_size(es.take(i + 1)) == edges_size(es.take(i)) + tree_size(es[i]),
    decreases i,
{
    if i == 0 {
        assert(es.take(1).drop_first() =~= es.take(0));
        assert(es.take(1)[0] == es[0]);
        assert(es.take(0) =~= Seq::<Node>::empty());
    } else {
        assert(es.take(i + 1)[0] == es[0]);
        assert(es.take(i)[0] == es[0]);
        assert(es.take(i + 1).drop_first() =~= es.drop_first().take(i));
        assert(es.take(i).drop_first() =~= es.drop_first().take(i - 1));
        lemma_edges_size_snoc(es.drop_first(), i - 1);
        assert(es.drop_first()[i - 1] == es[i]);
    }
}

/// Prefix relations compose along a chain of byte strings.
proof fn lemma_prefix_trans(a: Seq<u8>, b: Seq<u8>, c: Seq<u8>)
    requires
        a.is_prefix_of(b),
        b.is_prefix_of(c),
    ensures
        a.is_prefix_of(c),
{
    assert(a =~= c.take(a.len() as int)) by {
        assert(forall|i: int|
            0 <= i < a.len() ==> a[i] == b.take(a.len() as int)[i] && #[trigger] b[i] == c.take(
                b.len() as int,
            )[i]);
    }
}

/// A resolved path grows by one byte along an existing edge.
proof fn lemma_push_node(n: Node, q: Seq<u8>, b: u8)
    requires
        n.has_node(q),
        n.node_at(q).has_edge(b),
    ensures
        n.has_node(q.push(b)),
        n.node_at(q.push(b)) == n.node_at(q).child(b),
    decreases q.len(),
{
    let qb = q.push(b);
    if q.len() == 0 {
        assert(qb[0] == b);
        assert(qb.drop_first() =~= Seq::<u8>::empty());
        lemma_step(n, qb);
    } else {
        lemma_step(n, q);
        assert(qb[0] == q[0]);
        assert(qb.drop_first() =~= q.drop_first().push(b));
        lemma_push_node(n.child(q[0]), q.drop_first(), b);
        lemma_step(n, qb);
    }
}

/// A prefix of a string extended by one byte either stops short of the new
/// byte or is the whole extension.
proof fn lemma_prefix_of_push(q: Seq<u8>, r: Seq<u8>, b: u8)
    requires
        q.is_prefix_of(r.push(b)),
    ensures
        q.is_prefix_of(r) || q == r.push(b),
{
    if q.len() <= r.len() {
        assert(q =~= r.take(q.len() as int)) by {
            assert(forall|i: int|
                0 <= i < q.len() ==> q[i] == #[trigger] r.push(b).take(q.len() as int)[i]);
        }
    } else {
        assert(q =~= r.push(b));
    }
}

/// Whether some string in `v` spells exactly the byte key `k`.
pub open spec fn contains_key_string(v: Seq<String>, k: Seq<u8>) -> bool {
    exists|i: int| 0 <= i < v.len() && vstd::utf8::encode_utf8(#[trigger] v[i]@) == k
}

impl Node {
    /// Every key stored below the node that `prefix` resolves to, as full
    /// strings, in no guaranteed order; `None` only when `prefix` resolves
    /// to no node at all.
    #[verifier::loop_isolation(false)]
    #[verifier::rlimit(100)]
    pub fn all_keys(&self, prefix: &str) -> (r: Option<Vec<String>>)
        requires
            self.wf(),
            self.keys_utf8(),
        ensures
            r is Some <==> self.has_node(prefix.spec_bytes()),
            r matches Some(v) ==> (forall|i: int|
                0 <= i < v@.len() ==> prefix.spec_bytes().is_prefix_of(
                    vstd::utf8::encode_utf8(#[trigger] v@[i]@),
                ) && self.has_key(vstd::utf8::encode_utf8(v@[i]@))),
            r matches Some(v) ==> (forall|k: Seq<u8>|
                #[trigger] self.has_key(k) && prefix.spec_bytes().is_prefix_of(k)
                    ==> contains_key_string(v@, k)),
            r matches Some(v) ==> (forall|i: int, j: int|
                0 <= i < j < v@.len() ==> v@[i]@ != v@[j]@),
    {
        let ghost p = prefix.spec_bytes();
        // Grab the node where the prefix search ends.
        let start = match self.search(prefix) {
            Some((_, n)) => n,
            None => {
                return None;
            },
        };
        let mut result: Vec<String> = Vec::new();
        let ghost mut done: Seq<Seq<u8>> = Seq::<Seq<u8>>::empty();

        // Breadth-first frontier: each item pairs a node with the byte path
        // accumulated to reach it.
        let mut backlog: Vec<(&Node, Vec<u8>)> = Vec::new();
        let seed_bytes = vstd::slice::slice_to_vec(prefix.as_bytes());
        backlog.push((start, seed_bytes));
        proof {
            assert(p.is_prefix_of(p)) by {
                assert(p =~= p.take(p.len() as int));
            }
            assert forall|k: Seq<u8>|
                #[trigger] self.has_key(k) && p.is_prefix_of(k) implies (exists|t: int|
                0 <= t < backlog@.len() && (#[trigger] backlog@[t]).1@.is_prefix_of(k)) by {
                assert(backlog@[0].1@ == p);
            };
        }

        while !backlog.is_empty()
            invariant
                backlog@.len() >= 0,
                forall|t: int|
                    0 <= t < backlog@.len() ==> {
                        let e = #[trigger] backlog@[t];
                        &&& self.has_node(e.1@)
                        &&& *e.0 == self.node_at(e.1@)
                        &&& p.is_prefix_of(e.1@)
                    },
                done.len() == result@.len(),
                forall|i: int|
                    0 <= i < done.len() ==> {
                        &&& vstd::utf8::encode_utf8(result@[i]@) == #[trigger] done[i]
                        &&& self.has_key(done[i])
                        &&& p.is_prefix_of(done[i])
                    },
                forall|k: Seq<u8>|
                    #[trigger] self.has_key(k) && p.is_prefix_of(k) ==> (exists|i: int|
                        0 <= i < done.len() && done[i] == k) || (exists|t: int|
                        0 <= t < backlog@.len() && (#[trigger] backlog@[t]).1@.is_prefix_of(k)),
                forall|i: int, j: int| 0 <= i < j < done.len() ==> done[i] != done[j],
                forall|i: int, t: int|
                    #![trigger backlog@[t], done[i]]
                    0 <= i < done.len() && 0 <= t < backlog@.len() ==> !backlog@[t].1@.is_prefix_of(
                        done[i],
                    ),
                forall|t1: int, t2: int|
                    0 <= t1 < backlog@.len() && 0 <= t2 < backlog@.len() && t1 != t2 ==> !(
                    #[trigger] backlog@[t1]).1@.is_prefix_of((#[trigger] backlog@[t2]).1@),
            decreases frontier_size(backlog@),
        {
            let ghost fs_pre = frontier_size(backlog@);
            let ghost ql_pre = backlog@;
            let ghost done_pre = done;
            let (current, bytes) = backlog.remove(0);
            let ghost e_path = bytes@;
            let ghost m = *current;
            let ghost base = backlog@.len();
            proof {
                assert(ql_pre[0] == (current, bytes));
                lemma_node_at_wf(*self, e_path);
                assert(backlog@ =~= ql_pre.drop_first());
                assert(fs_pre == tree_size(m) + frontier_size(backlog@));
            }

            // Queue every child with its extended byte path.
            let edges = current.edges_iter();
            let mut ci: usize = 0;
            while ci < edges.len()
                invariant
                    ci <= edges@.len(),
                    edges@ == m.edges@,
                    backlog@.len() == base + ci,
                    frontier_size(backlog@) == frontier_size(ql_pre.drop_first()) + edges_size(
                        m.edges@.take(ci as int),
                    ),
                    forall|t: int| 0 <= t < base ==> #[trigger] backlog@[t] == ql_pre[t + 1],
                    forall|j: int|
                        0 <= j < ci ==> (#[trigger] backlog@[base + j]).1@ == e_path.push(
                            m.edges@[j].key,
                        ) && *backlog@[base + j].0 == m.edges@[j],
                decreases edges@.len() - ci,
            {
                let child = &edges[ci];
                let mut new_bytes = vstd::slice::slice_to_vec(bytes.as_slice());
                new_bytes.push(child.key);
                proof {
                    lemma_frontier_size_push(backlog@, (child, new_bytes));
                    lemma_edges_size_snoc(m.edges@, ci as int);
                }
                backlog.push((child, new_bytes));
                ci = ci + 1;
                proof {
                    assert(m.edges@.take(ci as int - 1) =~= m.edges@.take(ci as int).take(
                        ci as int - 1,
                    ));
                }
            }
            proof {
                assert(m.edges@.take(m.edges@.len() as int) =~= m.edges@);
                assert(frontier_size(backlog@) == frontier_size(ql_pre.drop_first()) + edges_size(
                    m.edges@,
                ));
                assert(fs_pre == frontier_size(backlog@) + 1);
            }

            // A key node contributes its accumulated byte path as one output
            // string.
            if current.is_key() {
                proof {
                    assert(self.has_key(e_path));
                    assert(vstd::utf8::valid_utf8(e_path));
                }
                match bytes_to_string(bytes) {
                    Some(s) => {
                        result.push(s);
                        proof {
                            vstd::utf8::decode_utf8_encode_utf8(e_path);
                            done = done.push(e_path);
                        }
                    },
                    None => {
                        proof {
                            assert(false);
                        }
                        return None;
                    },
                }
            }

            proof {
                lemma_all_keys_step(*self, p, e_path, m);
                // Soundness of the new frontier entries.
                assert forall|t: int| 0 <= t < backlog@.len() implies ({
                    let e = #[trigger] backlog@[t];
                    &&& self.has_node(e.1@)
                    &&& *e.0 == self.node_at(e.1@)
                    &&& p.is_prefix_of(e.1@)
                }) by {
                    if t < base {
                        assert(backlog@[t] == ql_pre[t + 1]);
                    } else {
                        let j = t - base;
                        assert(backlog@[base + j] == backlog@[t]);
                        let b = m.edges@[j].key;
                        assert(backlog@[t].1@ == e_path.push(b));
                        assert(*backlog@[t].0 == m.edges@[j]);
                        lemma_child_is_at_edge_idx(m, b, j);
                        lemma_push_node(*self, e_path, b);
                        assert(self.has_node(e_path.push(b)));
                        assert(self.node_at(e_path.push(b)) == m.edges@[j]);
                        assert(e_path.is_prefix_of(e_path.push(b))) by {
                            assert(e_path =~= e_path.push(b).take(e_path.len() as int));
                        }
                        lemma_prefix_trans(p, e_path, e_path.push(b));
                    }
                };
                // Completeness: every key below the popped entry is now
                // either output or below exactly one queued child.
                assert forall|k: Seq<u8>|
                    #[trigger] self.has_key(k) && p.is_prefix_of(k) implies (exists|i: int|
                    0 <= i < done.len() && done[i] == k) || (exists|t: int|
                    0 <= t < backlog@.len() && (#[trigger] backlog@[t]).1@.is_prefix_of(k)) by {
                    if (exists|i: int| 0 <= i < done_pre.len() && done_pre[i] == k) {
                        let i0 = choose|i: int| 0 <= i < done_pre.len() && done_pre[i] == k;
                        assert(done[i0] == k);
                    } else {
                        assert(exists|t: int|
                            0 <= t < ql_pre.len() && (#[trigger] ql_pre[t]).1@.is_prefix_of(k));
                        let t0 = choose|t: int|
                            0 <= t < ql_pre.len() && (#[trigger] ql_pre[t]).1@.is_prefix_of(k);
                        if t0 > 0 {
                            assert(backlog@[t0 - 1] == ql_pre[t0]);
                        } else {
                            if k == e_path {
                                assert(m.tag == NodeType::Key);
                                assert(done[done.len() - 1] == k);
                            } else {
                                lemma_at_decomp(*self, e_path, k);
                                let k2 = k.skip(e_path.len() as int);
                                assert(k2.len() > 0) by {
                                    if k2.len() == 0 {
                                        assert(k =~= e_path);
                                    }
                                }
                                lemma_step(m, k2);
                                let b = k2[0];
                                let j = m.edge_idx(b);
                                assert(0 <= j < m.edges@.len() && m.edges@[j].key == b);
                                assert(backlog@[base + j].1@ == e_path.push(b));
                                assert(e_path.push(b).is_prefix_of(k)) by {
                                    assert(e_path.push(b) =~= k.take(e_path.len() as int + 1)) by {
                                        assert(forall|x: int|
                                            0 <= x < e_path.len() ==> #[trigger] e_path[x] == k[x]);
                                        assert(k[e_path.len() as int] == k2[0]);
                                    }
                                }
                                assert(0 <= base + j < backlog@.len() && backlog@[base
                                    + j].1@.is_prefix_of(k));
                            }
                        }
                    }
                };
                // No queued path leads back to an already produced key.
                assert forall|i: int, t: int|
                    #![trigger backlog@[t], done[i]]
                    0 <= i < done.len() && 0 <= t < backlog@.len() implies !backlog@[t].1@.is_prefix_of(done[i]) by {
                    let qt = backlog@[t].1@;
                    if qt.is_prefix_of(done[i]) {
                        if t < base {
                            assert(backlog@[t] == ql_pre[t + 1]);
                            if i < done.len() - 1 || !(m.tag == NodeType::Key) {
                            } else {
                                assert(done[i] == e_path);
                            }
                        } else {
                            let j = t - base;
                            assert(backlog@[base + j] == backlog@[t]);
                            let b = m.edges@[j].key;
                            assert(qt == e_path.push(b));
                            assert(e_path.is_prefix_of(qt)) by {
                                assert(e_path =~= qt.take(e_path.len() as int));
                            }
                            lemma_prefix_trans(e_path, qt, done[i]);
                            if i == done.len() - 1 && m.tag == NodeType::Key {
                                assert(done[i] == e_path);
                                assert(qt.len() > e_path.len());
                            }
                        }
                    }
                };
                // Queued paths stay pairwise incomparable.
                assert forall|t1: int, t2: int|
                    0 <= t1 < backlog@.len() && 0 <= t2 < backlog@.len() && t1 != t2 implies !(
                #[trigger] backlog@[t1]).1@.is_prefix_of((#[trigger] backlog@[t2]).1@) by {
                    let q1 = backlog@[t1].1@;
                    let q2 = backlog@[t2].1@;
                    if q1.is_prefix_of(q2) {
                        if t1 < base && t2 < base {
                            assert(backlog@[t1] == ql_pre[t1 + 1] && backlog@[t2] == ql_pre[t2
                                + 1]);
                        } else if t1 < base && t2 >= base {
                            let j2 = t2 - base;
                            assert(backlog@[base + j2] == backlog@[t2]);
                            let b = m.edges@[j2].key;
                            assert(q2 == e_path.push(b));
                            lemma_prefix_of_push(q1, e_path, b);
                            if q1 == e_path.push(b) {
                                assert(e_path.is_prefix_of(q1)) by {
                                    assert(e_path =~= q1.take(e_path.len() as int));
                                }
                            }
                        } else if t1 >= base && t2 < base {
                            let j1 = t1 - base;
                            assert(backlog@[base + j1] == backlog@[t1]);
                            let b = m.edges@[j1].key;
                            assert(q1 == e_path.push(b));
                            assert(e_path.is_prefix_of(q2)) by {
                                assert(e_path =~= q1.take(e_path.len() as int));
                                lemma_prefix_trans(e_path, q1, q2);
                            }
                        } else {
                            let j1 = t1 - base;
                            let j2 = t2 - base;
                            assert(backlog@[base + j1] == backlog@[t1]);
                            assert(backlog@[base + j2] == backlog@[t2]);
                            let b1 = m.edges@[j1].key;
                            let b2 = m.edges@[j2].key;
                            assert(q1 == e_path.push(b1) && q2 == e_path.push(b2));
                            assert(b1 == b2) by {
                                assert(q1 =~= q2);
                                assert(q1[e_path.len() as int] == b1);
                            }
                        }
                    }
                };
            }
        }
        proof {
            assert(self.has_node(p));
            assert forall|i: int, j: int| 0 <= i < j < result@.len() implies result@[i]@
                != result@[j]@ by {
                if result@[i]@ == result@[j]@ {
                    assert(done[i] == done[j]);
                }
            };
            assert forall|i: int| 0 <= i < result@.len() implies p.is_prefix_of(
                vstd::utf8::encode_utf8(#[trigger] result@[i]@),
            ) && self.has_key(vstd::utf8::encode_utf8(result@[i]@)) by {
                assert(vstd::utf8::encode_utf8(result@[i]@) == done[i]);
            };
            assert forall|k: Seq<u8>|
                #[trigger] self.has_key(k) && p.is_prefix_of(k) implies contains_key_string(
                result@,
                k,
            ) by {
                assert(backlog@.len() == 0);
                assert((exists|i: int| 0 <= i < done.len() && done[i] == k) || (exists|t: int|
                    0 <= t < backlog@.len() && (#[trigger] backlog@[t]).1@.is_prefix_of(k)));
                let i = choose|i: int| 0 <= i < done.len() && done[i] == k;
                assert(vstd::utf8::encode_utf8(result@[i]@) == k);
            };
        }
        Some(result)
    }
}

/// After the frontier pops a node, the popped path's own key (if it is one)
/// has just been produced; helper facts shared by the frontier-step proof.
proof fn lemma_all_keys_step(root: Node, p: Seq<u8>, e_path: Seq<u8>, m: Node)
    requires
        root.wf(),
        root.has_node(e_path),
        m == root.node_at(e_path),
    ensures
        m.tag == NodeType::Key <==> root.has_key(e_path),
{
}

impl Node {
    /// A depth-first traversal of every node reachable from this one.
    pub(crate) fn iter(&self) -> (r: crate::iter::NodeDFSIter<'_>)
        ensures
            r.wf(),
            r.remaining() == crate::iter::dfs_bytes(*self),
    {
        crate::iter::NodeDFSIter::new(self)
    }
}

/// A subtree never outweighs the edge list holding it.
proof fn lemma_edges_size_bound(es: Seq<Node>, i: int)
    requires
        0 <= i < es.len(),
    ensures
        tree_size(es[i]) <= edges_size(es),
    decreases i,
{
    if i == 0 {
    } else {
        lemma_edges_size_bound(es.drop_first(), i - 1);
        assert(es.drop_first()[i - 1] == es[i]);
    }
}

/// Pruning completeness: in a well-formed trie every existing node below
/// the root lies on the path to some stored key, so no dead inner chain
/// survives an insert or a delete.
pub proof fn lemma_no_dead_nodes(t: Node, q: Seq<u8>)
    requires
        t.wf(),
        t.has_node(q),
        q.len() > 0,
    ensures
        exists|k: Seq<u8>| #[trigger] t.has_key(k) && q.is_prefix_of(k),
    decreases tree_size(t.node_at(q)),
{
    let m = t.node_at(q);
    lemma_node_at_wf(t, q);
    if m.tag == NodeType::Key {
        assert(t.has_key(q) && q.is_prefix_of(q)) by {
            assert(q =~= q.take(q.len() as int));
        }
    } else {
        assert(m.edges@.len() > 0);
        let b = m.edges@[0].key;
        lemma_child_is_at_edge_idx(m, b, 0);
        lemma_push_node(t, q, b);
        assert(tree_size(m.child(b)) < tree_size(m)) by {
            lemma_edges_size_bound(m.edges@, m.edge_idx(b));
        }
        lemma_no_dead_nodes(t, q.push(b));
        let k = choose|k: Seq<u8>| #[trigger] t.has_key(k) && q.push(b).is_prefix_of(k);
        assert(q.is_prefix_of(q.push(b))) by {
            assert(q =~= q.push(b).take(q.len() as int));
        }
        lemma_prefix_trans(q, q.push(b), k);
    }
}

/// Full prune: a well-formed trie that stores no keys at all has returned
/// to the bare root, with no dangling inner nodes.
pub proof fn lemma_empty_when_no_keys(t: Node)
    requires
        t.wf(),
        forall|k: Seq<u8>| !(#[trigger] t.has_key(k)),
    ensures
        t.edges@.len() == 0,
{
    if t.edges@.len() > 0 {
        let b = t.edges@[0].key;
        lemma_child_is_at_edge_idx(t, b, 0);
        let q = seq![b];
        assert(t.has_node(q)) by {
            assert(q.drop_first() =~= Seq::<u8>::empty());
            lemma_step(t, q);
        }
        lemma_no_dead_nodes(t, q);
        assert(false);
    }
}

/// Round trip: storing a nonempty key and then removing it finds a key
/// node in between, hands the stored value back, and leaves the key
/// absent afterwards.
pub proof fn lemma_round_trip(
    t0: Node,
    t1: Node,
    t2: Node,
    p: Seq<u8>,
    v: i32,
    ins: Option<i32>,
    rem: Option<i32>,
)
    requires
        t0.wf(),
        p.len() > 0,
        Node::insert_post(t0, t1, p, Some(v), ins),
        Node::remove_post(t1, t2, p, rem),
    ensures
        t1.has_key(p) && t1.node_at(p).tag == NodeType::Key,
        rem == Some(v),
        !t2.has_key(p),
{
    assert(t1.has_key(p));
    assert(t1.val_at(p) == Some(v));
}
} // verus!
