use vstd::prelude::*;

use crate::node::Node;

verus! {

/// The bytes a depth-first walk emits below `n`: the node's own key byte,
/// then every descendant's, children taken in edge order.
pub open spec fn dfs_bytes(n: Node) -> Seq<u8>
    decreases n,
{
    seq![n.key] + edges_dfs_bytes(n.edges@)
}

/// The concatenated walks of a list of subtrees.
pub open spec fn edges_dfs_bytes(es: Seq<Node>) -> Seq<u8>
    decreases es,
{
    if es.len() == 0 {
        Seq::<u8>::empty()
    } else {
        dfs_bytes(es[0]) + edges_dfs_bytes(es.drop_first())
    }
}

/// One pending stop of the traversal: a node not yet emitted, or a parent
/// whose children from a given index on are still to be visited.
#[derive(Clone, Copy)]
enum NodeTraverse<'a> {
    Item(&'a Node),
    Iter(&'a Node, usize),
}

spec fn trav_bytes(t: NodeTraverse) -> Seq<u8> {
    match t {
        NodeTraverse::Item(n) => dfs_bytes(*n),
        NodeTraverse::Iter(n, i) => edges_dfs_bytes(n.edges@.skip(i as int)),
    }
}

spec fn stack_bytes(s: Seq<NodeTraverse>) -> Seq<u8>
    decreases s.len(),
{
    if s.len() == 0 {
        Seq::<u8>::empty()
    } else {
        trav_bytes(s.last()) + stack_bytes(s.drop_last())
    }
}

/// Splitting a subtree list at an existing index splits its walk.
proof fn lemma_edges_dfs_step(es: Seq<Node>, i: int)
    requires
        0 <= i < es.len(),
    ensures
        edges_dfs_bytes(es.skip(i)) == dfs_bytes(es[i]) + edges_dfs_bytes(es.skip(i + 1)),
{
    assert(es.skip(i)[0] == es[i]);
    assert(es.skip(i).drop_first() =~= es.skip(i + 1));
}

/// A restartable-per-call, lazy producer of the key byte of every node
/// reachable from a start node, depth-first: it keeps an explicit frontier
/// of still-to-be-visited sibling positions instead of recursing, so depth
/// is bounded by the heap, not by call-stack frames.
pub struct NodeDFSIter<'a> {
    current: Option<NodeTraverse<'a>>,
    unvisited: Vec<NodeTraverse<'a>>,
}

impl<'a> NodeDFSIter<'a> {
    /// The bytes this iterator has still to produce, in order.
    pub closed spec fn remaining(self) -> Seq<u8> {
        (match self.current {
            Some(t) => trav_bytes(t),
            None => Seq::<u8>::empty(),
        }) + stack_bytes(self.unvisited@)
    }

    /// Every pending sibling position points below its node's edge count.
    pub closed spec fn wf(self) -> bool {
        &&& (match self.current {
            Some(NodeTraverse::Iter(n, i)) => i < n.edges@.len(),
            _ => true,
        })
        &&& (forall|j: int|
            0 <= j < self.unvisited@.len() ==> (match #[trigger] self.unvisited@[j] {
                NodeTraverse::Iter(n, i) => i < n.edges@.len(),
                NodeTraverse::Item(_) => true,
            }))
    }

    spec fn rank(self) -> int {
        match self.current {
            None => 2,
            Some(NodeTraverse::Iter(_, _)) => 1,
            Some(NodeTraverse::Item(_)) => 0,
        }
    }

    /// A fresh traversal that will produce the whole walk below `node`.
    pub fn new(node: &'a Node) -> (r: NodeDFSIter<'a>)
        ensures
            r.wf(),
            r.remaining() == dfs_bytes(*node),
    {
        let r = NodeDFSIter { current: Some(NodeTraverse::Item(node)), unvisited: Vec::new() };
        proof {
            assert(r.remaining() =~= dfs_bytes(*node));
        }
        r
    }

    /// Aims the cursor at child `idx` of `node`, remembering the following
    /// siblings on the frontier when there are any.
    fn add_iter(&mut self, node: &'a Node, idx: usize)
        requires
            old(self).wf(),
            old(self).current is None,
            idx <= node.edges@.len(),
        ensures
            final(self).wf(),
            final(self).remaining() == edges_dfs_bytes(node.edges@.skip(idx as int))
                + stack_bytes(old(self).unvisited@),
            idx < node.edges@.len() ==> final(self).current matches Some(NodeTraverse::Item(_)),
    {
        if idx < node.edges.len() {
            self.current = Some(NodeTraverse::Item(&node.edges[idx]));
            if idx + 1 < node.edges.len() {
                self.unvisited.push(NodeTraverse::Iter(node, idx + 1));
                proof {
                    assert(self.unvisited@.drop_last() =~= old(self).unvisited@);
                }
            }
            proof {
                lemma_edges_dfs_step(node.edges@, idx as int);
                if idx + 1 < node.edges@.len() {
                    assert(self.remaining() =~= edges_dfs_bytes(node.edges@.skip(idx as int))
                        + stack_bytes(old(self).unvisited@));
                } else {
                    assert(node.edges@.skip(idx as int + 1) =~= Seq::<Node>::empty());
                    assert(self.remaining() =~= edges_dfs_bytes(node.edges@.skip(idx as int))
                        + stack_bytes(old(self).unvisited@));
                }
            }
        } else {
            proof {
                assert(node.edges@.skip(idx as int) =~= Seq::<Node>::empty());
                assert(self.remaining() =~= edges_dfs_bytes(node.edges@.skip(idx as int))
                    + stack_bytes(old(self).unvisited@));
            }
        }
    }

    /// Produces the next key byte of the walk: the current node's own byte,
    /// descending into its first child while pushing the remaining siblings
    /// for later; `None` once no pending stop remains.
    pub fn next(&mut self) -> (r: Option<u8>)
        requires
            old(self).wf(),
        ensures
            final(self).wf(),
            match r {
                Some(b) => {
                    &&& old(self).remaining().len() > 0
                    &&& b == old(self).remaining()[0]
                    &&& final(self).remaining() == old(self).remaining().drop_first()
                },
                None => {
                    &&& old(self).remaining().len() == 0
                    &&& final(self).remaining().len() == 0
                },
            },
    {
        let ghost rem0 = old(self).remaining();
        let res: Option<u8>;
        loop
            invariant_except_break
                self.wf(),
                self.remaining() == rem0,
            ensures
                self.wf(),
                match res {
                    Some(b) => {
                        &&& rem0.len() > 0
                        &&& b == rem0[0]
                        &&& self.remaining() == rem0.drop_first()
                    },
                    None => {
                        &&& rem0.len() == 0
                        &&& self.remaining().len() == 0
                    },
                },
            decreases self.rank(),
        {
            let cur = self.current;
            self.current = None;
            match cur {
                None => {
                    match self.unvisited.pop() {
                        Some(last) => {
                            self.current = Some(last);
                            proof {
                                assert(self.remaining() =~= rem0);
                            }
                        },
                        None => {
                            res = None;
                            break ;
                        },
                    }
                },
                Some(NodeTraverse::Item(n)) => {
                    let ghost stack0 = self.unvisited@;
                    self.add_iter(n, 0);
                    res = Some(*n.key());
                    proof {
                        assert(n.edges@.skip(0) =~= n.edges@);
                        assert(rem0 == (seq![n.key] + edges_dfs_bytes(n.edges@)) + stack_bytes(
                            stack0,
                        ));
                        assert(rem0 =~= seq![n.key] + (edges_dfs_bytes(n.edges@) + stack_bytes(
                            stack0,
                        )));
                        assert(self.remaining() =~= rem0.drop_first());
                    }
                    break ;
                },
                Some(NodeTraverse::Iter(n, i)) => {
                    self.add_iter(n, i);
                },
            }
        }
        res
    }
}

} // verus!
