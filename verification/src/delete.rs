use vstd::prelude::*;
use vstd::string::StringSliceAdditionalSpecFns;

use crate::node::lemma_step;
use crate::node::lemma_take_one_more;
use crate::node::Node;
use crate::node::NodeType;
use crate::node::EdgeType;

verus! {

/// An instruction's target locator: a node (depth level, its byte) or one
/// parent-to-child edge (depth level, parent byte, child byte).
#[derive(Debug, PartialEq)]
pub enum Cursor {
    Node(u32, u8),
    Link(u32, u8, u8),
}

/// One replay instruction: unmark the target key node, prune the named edge
/// with its whole subtree, or keep the named edge untouched.
#[derive(Debug, PartialEq)]
pub enum Playback {
    Unmark(Cursor),
    Prune(Cursor),
    Keep(Cursor),
}

/// The replay plan that planning emits below node `n` for the byte suffix
/// `q` starting at depth `lvl`, paired with the prune flag handed to the
/// parent: the plan is ordered target-first (so that popping replays it
/// root-first), and the flag says that the edge leading to `n` must itself
/// be pruned.
///
/// Planning never unmarks unless the whole prefix resolves to a key node: a
/// prefix that was never stored yields a plan of bare `Keep` instructions,
/// so replaying it prunes nothing.
pub open spec fn plan_from(n: Node, q: Seq<u8>, lvl: nat) -> (Seq<Playback>, bool)
    decreases q.len(),
{
    if q.len() == 0 {
        if n.tag == NodeType::Key {
            (seq![Playback::Unmark(Cursor::Node(lvl as u32, n.key))], n.edges@.len() == 0)
        } else {
            (Seq::<Playback>::empty(), false)
        }
    } else if n.has_edge(q[0]) {
        let rec = plan_from(n.child(q[0]), q.drop_first(), (lvl + 1) as nat);
        if rec.1 {
            (
                rec.0.push(Playback::Prune(Cursor::Link(lvl as u32, n.key, q[0]))),
                !(n.tag == NodeType::Key || n.edges@.len() >= 2),
            )
        } else {
            (rec.0.push(Playback::Keep(Cursor::Link(lvl as u32, n.key, q[0]))), false)
        }
    } else {
        (Seq::<Playback>::empty(), false)
    }
}

/// The full replay plan for removing `p` below `n`.
pub open spec fn plan(n: Node, p: Seq<u8>) -> Seq<Playback> {
    plan_from(n, p, 0).0
}

/// A prune flag is only ever raised for a chain that stores exactly the one
/// key the plan is removing: a key node with no children, reached through
/// single-child inner nodes.
pub proof fn lemma_flag_true_keys(n: Node, q: Seq<u8>, lvl: nat)
    requires
        n.wf(),
        plan_from(n, q, lvl).1,
    ensures
        forall|k: Seq<u8>| #[trigger] n.has_key(k) <==> k == q,
    decreases q.len(),
{
    if q.len() == 0 {
        assert forall|k: Seq<u8>| #[trigger] n.has_key(k) <==> k == q by {
            if k.len() == 0 {
                assert(k =~= q);
            } else {
                lemma_step(n, k);
            }
        };
    } else {
        let c = n.child(q[0]);
        let qd = q.drop_first();
        lemma_flag_true_keys(c, qd, lvl + 1);
        assert(n.edges@.len() == 1);
        assert forall|k: Seq<u8>| #[trigger] n.has_key(k) <==> k == q by {
            if k.len() == 0 {
                assert(n.tag == NodeType::Inner);
            } else {
                lemma_step(n, k);
                if k[0] == q[0] {
                    crate::node::lemma_seq_head_tail(k, q);
                    assert(n.has_key(k) == c.has_key(k.drop_first()));
                } else {
                    assert(!n.has_edge(k[0])) by {
                        if n.has_edge(k[0]) {
                            let i = crate::node::edge_idx_in(n.edges@, k[0]);
                            let j = crate::node::edge_idx_in(n.edges@, q[0]);
                            assert(n.edges@[i].key == k[0]);
                            assert(n.edges@[j].key == q[0]);
                        }
                    }
                }
            }
        };
    }
}

/// Performs the single read-only descent for `prefix` and converts the
/// resulting path stack into the replay plan, deciding keep, prune or unmark
/// for every level before any mutation happens.
#[verifier::loop_isolation(false)]
pub fn capture(node: &Node, prefix: &str) -> (r: Vec<Playback>)
    requires
        node.wf(),
        prefix.spec_bytes().len() < u32::MAX,
    ensures
        r@ == plan(*node, prefix.spec_bytes()),
{
    let ghost p = prefix.spec_bytes();
    let mut prune = false;
    let mut replay: Vec<Playback> = Vec::new();

    // Reduce the stack of immutable node references into a replay stack of
    // plain copyable instructions.
    let mut stack = node.fold(prefix);
    let ghost st0 = stack@;
    let ghost full_len = st0.len();

    if let Some((node_ref, b, bn, level)) = stack.pop() {
        // Unmark only when the whole prefix resolved to a node that is a
        // stored key; a shorter stack means the prefix fell off the trie.
        if bn.is_none() && node_ref.is_key() {
            replay.push(Playback::Unmark(Cursor::Node(level, b)));
            // With no child edges the node itself is dead and its edge must
            // be pruned by its parent.
            if node_ref.edge_type().is_none() {
                prune = true;
            }
        }
    }
    proof {
        let j = full_len - 1;
        assert(stack@ =~= st0.take(j));
        if j == p.len() {
            assert(p.skip(j) =~= Seq::<u8>::empty());
            assert((replay@, prune) == plan_from(node.node_at(p.take(j)), p.skip(j), j as nat));
        } else {
            assert(st0[j].2 == Some(p[j]));
            assert(!node.has_node(p.take(j + 1)));
            lemma_take_one_more(*node, p, j);
            assert(!node.node_at(p.take(j)).has_edge(p[j]));
            assert(p.skip(j)[0] == p[j]);
            assert((replay@, prune) == plan_from(node.node_at(p.take(j)), p.skip(j), j as nat));
        }
    }

    while !stack.is_empty()
        invariant
            stack@ =~= st0.take(stack@.len() as int),
            stack@.len() < full_len,
            (replay@, prune) == plan_from(
                node.node_at(p.take(stack@.len() as int)),
                p.skip(stack@.len() as int),
                stack@.len() as nat,
            ),
        decreases stack@.len(),
    {
        let ghost j = stack@.len() - 1;
        let (node_ref, byte, bn, level) = stack.pop().unwrap();
        let byte_next = match bn {
            Some(nb) => nb,
            None => {
                proof {
                    assert(*(st0[j]).0 == node.node_at(p.take(j)));
                    assert(st0[j].2 == Some(p[j]));
                    assert(false);
                }
                return replay;
            },
        };
        proof {
            assert(stack@ =~= st0.take(j));
            assert(*(st0[j]).0 == node.node_at(p.take(j)));
            assert(*(st0[j + 1]).0 == node.node_at(p.take(j + 1)));
            assert(node.has_node(p.take(j + 1)));
            assert(st0[j].2 == Some(p[j]) && byte_next == p[j]);
            assert(st0[j].1 == node.node_at(p.take(j)).key && byte == st0[j].1);
            assert(st0[j].3 == j as u32 && level == st0[j].3);
            lemma_take_one_more(*node, p, j);
            assert(node.node_at(p.take(j)).has_edge(p[j]));
            assert(node.node_at(p.take(j)).child(p[j]) == node.node_at(p.take(j + 1)));
            assert(p.skip(j)[0] == p[j]);
            assert(p.skip(j).drop_first() =~= p.skip(j + 1));
        }

        if prune {
            // Pruning may only continue one level above the node under
            // deletion; a key node or a branching node must survive with the
            // edge to its removed child gone.
            replay.push(Playback::Prune(Cursor::Link(level, byte, byte_next)));
            if node_ref.is_key() || matches!(node_ref.edge_type(), Some(EdgeType::Many)) {
                prune = false;
            }
        } else {
            replay.push(Playback::Keep(Cursor::Link(level, byte, byte_next)));
        }
    }
    proof {
        assert(p.take(0) =~= Seq::<u8>::empty());
        assert(p.skip(0) =~= p);
    }
    replay
}

} // verus!
