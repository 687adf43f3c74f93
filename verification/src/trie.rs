use vstd::prelude::*;
use vstd::string::StringSliceAdditionalSpecFns;

use crate::node::contains_key_string;
use crate::node::Node;
use crate::node::NodeType;

verus! {

/// The top-level container: one root node plus a counter of the insertions
/// that created a brand-new key; every operation delegates to the root.
#[derive(Debug)]
pub struct Trie {
    pub size: u32,
    pub root: Node,
}

impl Trie {
    /// A usable trie: the root is well-formed and every stored key decodes
    /// as UTF-8. The root's own byte is a sentinel placeholder that is never
    /// matched against.
    pub open spec fn wf(self) -> bool {
        &&& self.root.wf()
        &&& self.root.keys_utf8()
    }

    /// An empty trie around a sentinel root node.
    pub fn new() -> (r: Self)
        ensures
            r.wf(),
            r.size == 0,
            forall|k: Seq<u8>| !(#[trigger] r.root.has_key(k)),
            r.root.edges@.len() == 0,
    {
        let r = Trie { size: 0, root: Node::new(0u8, None) };
        proof {
            crate::node::lemma_fresh_no_keys(r.root);
        }
        r
    }

    /// Exact lookup; the tag tells a stored key apart from a string that
    /// exists only as a prefix of other keys.
    pub fn search(&self, token: &str) -> (r: Option<(NodeType, &Node)>)
        requires
            self.wf(),
        ensures
            match r {
                Some((t, n)) => self.root.has_node(token.spec_bytes()) && *n == self.root.node_at(
                    token.spec_bytes(),
                ) && t == n.tag,
                None => !self.root.has_node(token.spec_bytes()),
            },
    {
        self.root.search(token)
    }

    /// Stores `token` with `value` and hands back the previously stored
    /// value, if any. An empty token is rejected: nothing is created and no
    /// stored count moves. The counter grows exactly once per insertion that
    /// creates a brand-new key, never on a value overwrite.
    pub fn insert(&mut self, token: &str, value: Option<i32>) -> (r: Option<i32>)
        requires
            old(self).wf(),
        ensures
            final(self).wf(),
            token.spec_bytes().len() == 0 ==> *final(self) == *old(self) && r is None,
            token.spec_bytes().len() > 0 ==> Node::insert_post(
                old(self).root,
                final(self).root,
                token.spec_bytes(),
                value,
                r,
            ),
            final(self).size == (if token.spec_bytes().len() > 0 && !old(self).root.has_key(
                token.spec_bytes(),
            ) && old(self).size < u32::MAX {
                (old(self).size + 1) as u32
            } else {
                old(self).size
            }),
    {
        proof {
            crate::node::lemma_encode_len_zero(token@);
        }
        if token.is_empty() {
            return None;
        }
        let existed = match self.root.search(token) {
            Some((NodeType::Key, _)) => true,
            _ => false,
        };
        let result = self.root.insert(token, value);
        if !existed && self.size < u32::MAX {
            self.size = self.size + 1;
        }
        result
    }

    /// The deepest stored key that is a byte-prefix of `token`.
    pub fn longest_prefix(&self, token: &str) -> (r: Option<String>)
        requires
            self.wf(),
            token.spec_bytes().len() < u32::MAX,
        ensures
            match (r, self.root.lp(token.spec_bytes())) {
                (Some(s), Some(b)) => vstd::utf8::encode_utf8(s@) == b,
                (None, None) => true,
                _ => false,
            },
    {
        self.root.longest_prefix(token)
    }

    /// Every stored key that extends `token`, in no guaranteed order.
    pub fn all_keys(&self, token: &str) -> (r: Option<Vec<String>>)
        requires
            self.wf(),
        ensures
            r is Some <==> self.root.has_node(token.spec_bytes()),
            r matches Some(v) ==> (forall|i: int|
                0 <= i < v@.len() ==> token.spec_bytes().is_prefix_of(
                    vstd::utf8::encode_utf8(#[trigger] v@[i]@),
                ) && self.root.has_key(vstd::utf8::encode_utf8(v@[i]@))),
            r matches Some(v) ==> (forall|k: Seq<u8>|
                #[trigger] self.root.has_key(k) && token.spec_bytes().is_prefix_of(k)
                    ==> contains_key_string(v@, k)),
            r matches Some(v) ==> (forall|i: int, j: int|
                0 <= i < j < v@.len() ==> v@[i]@ != v@[j]@),
    {
        self.root.all_keys(token)
    }

    /// Deletes `token` and hands back the value it stored, pruning any
    /// ancestor chain left dead; the counter is a count of creations and
    /// does not move.
    pub fn remove(&mut self, token: &str) -> (r: Option<i32>)
        requires
            old(self).wf(),
            token.spec_bytes().len() < u32::MAX,
        ensures
            final(self).wf(),
            final(self).size == old(self).size,
            Node::remove_post(old(self).root, final(self).root, token.spec_bytes(), r),
    {
        self.root.remove(token)
    }

    /// Diagnostic dump: the key byte of every node, in depth-first order,
    /// starting with the sentinel root byte, as one string.
    pub fn keys(&self) -> (r: String)
        requires
            self.wf(),
            vstd::utf8::valid_utf8(crate::iter::dfs_bytes(self.root)),
        ensures
            vstd::utf8::encode_utf8(r@) == crate::iter::dfs_bytes(self.root),
    {
        let mut it = self.root.iter();
        let mut bytes: Vec<u8> = Vec::new();
        proof {
            assert(bytes@ + it.remaining() =~= crate::iter::dfs_bytes(self.root));
        }
        loop
            invariant_except_break
                it.wf(),
                bytes@ + it.remaining() == crate::iter::dfs_bytes(self.root),
            ensures
                bytes@ == crate::iter::dfs_bytes(self.root),
            decreases it.remaining().len(),
        {
            match it.next() {
                Some(b) => {
                    bytes.push(b);
                    proof {
                        assert(bytes@ + it.remaining() =~= crate::iter::dfs_bytes(self.root));
                    }
                },
                None => {
                    proof {
                        assert(bytes@ =~= crate::iter::dfs_bytes(self.root));
                    }
                    break ;
                },
            }
        }
        match crate::node::bytes_to_string(bytes) {
            Some(s) => {
                proof {
                    vstd::utf8::decode_utf8_encode_utf8(crate::iter::dfs_bytes(self.root));
                }
                s
            },
            None => {
                proof {
                    assert(false);
                }
                String::new()
            },
        }
    }
}

impl Default for Trie {
    /// The same empty trie that `new` builds.
    fn default() -> (r: Self)
        ensures
            r.wf(),
            r.size == 0,
            forall|k: Seq<u8>| !(#[trigger] r.root.has_key(k)),
            r.root.edges@.len() == 0,
    {
        Self::new()
    }
}

} // verus!
