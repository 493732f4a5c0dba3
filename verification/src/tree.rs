use vstd::prelude::*;
use crate::decimal::{parse_usize, spec_parse_usize};
use crate::enums::NodeType;
use crate::error::FormatError;

verus! {

/// A node of the archive tree shown to the user: a folder, or a file with its
/// place in its archive.  Text fields hold UTF-8 bytes.
#[derive(Debug, PartialEq, Eq)]
pub struct TreeNode {
    pub key: Vec<u8>,
    pub label: Vec<u8>,
    pub node_type: NodeType,
    pub children: Vec<TreeNode>,
    pub path: Vec<u8>,
    pub contained_type: Vec<u8>,
}

pub struct TreeNodeView {
    pub key: Seq<u8>,
    pub label: Seq<u8>,
    pub node_type: NodeType,
    pub children: Seq<TreeNodeView>,
    pub path: Seq<u8>,
    pub contained_type: Seq<u8>,
}

/// The mathematical value of a node.
pub open spec fn node_view(n: TreeNode) -> TreeNodeView
    decreases n,
{
    TreeNodeView {
        key: n.key@,
        label: n.label@,
        node_type: n.node_type,
        children: nodes_view(n.children@),
        path: n.path@,
        contained_type: n.contained_type@,
    }
}

/// The mathematical value of a list of nodes.
pub open spec fn nodes_view(s: Seq<TreeNode>) -> Seq<TreeNodeView>
    decreases s,
{
    if s.len() == 0 {
        Seq::empty()
    } else {
        nodes_view(s.drop_last()).push(node_view(s.last()))
    }
}

/// The view of a list holds the view of each node at its index.
pub proof fn lemma_nodes_view_index(s: Seq<TreeNode>, i: int)
    requires
        0 <= i < s.len(),
    ensures
        nodes_view(s).len() == s.len(),
        nodes_view(s)[i] == node_view(s[i]),
    decreases s.len(),
{
    lemma_nodes_view_len(s);
    if i < s.len() - 1 {
        lemma_nodes_view_index(s.drop_last(), i);
    }
}

/// The view of a list is as long as the list.
pub proof fn lemma_nodes_view_len(s: Seq<TreeNode>)
    ensures
        nodes_view(s).len() == s.len(),
    decreases s.len(),
{
    if s.len() > 0 {
        lemma_nodes_view_len(s.drop_last());
    }
}

/// The view of a list is the list of the views of its nodes.
pub proof fn lemma_nodes_view_map(s: Seq<TreeNode>)
    ensures
        nodes_view(s) =~= Seq::new(s.len(), |i: int| node_view(s[i])),
{
    lemma_nodes_view_len(s);
    assert forall|i: int| 0 <= i < s.len() implies nodes_view(s)[i] == node_view(s[i]) by {
        lemma_nodes_view_index(s, i);
    }
}

/// The number of file nodes in a forest (folders are counted through their children).
pub open spec fn spec_count_files(nodes: Seq<TreeNodeView>) -> nat
    decreases nodes,
{
    if nodes.len() == 0 {
        0
    } else {
        spec_count_files(nodes.drop_last()) + match nodes.last().node_type {
            NodeType::File { .. } => 1,
            NodeType::Folder => spec_count_files(nodes.last().children),
        }
    }
}

/// The key scan over a forest, from `max` on: each node whose key reads as a
/// number `k` with `k >= max` raises `max` to `k + 1`, and its subtree's scan
/// raises it further when larger.  Fails when a key is not a number or `k + 1`
/// does not fit in a `usize`.
pub open spec fn spec_next_key(nodes: Seq<TreeNodeView>, max: nat) -> Result<nat, FormatError>
    decreases nodes, 1nat,
{
    if nodes.len() == 0 {
        Ok(max)
    } else {
        match spec_next_key(nodes.drop_last(), max) {
            Err(e) => Err(e),
            Ok(m) => spec_next_key_node(nodes.last(), m),
        }
    }
}

/// One node of the key scan (see `spec_next_key`).
pub open spec fn spec_next_key_node(n: TreeNodeView, max: nat) -> Result<nat, FormatError>
    decreases n, 0nat,
{
    match spec_parse_usize(n.key) {
        None => Err(FormatError::InvalidKey),
        Some(k) => if k >= max && k + 1 > usize::MAX {
            Err(FormatError::Overflow)
        } else {
            let m = if k >= max {
                k + 1
            } else {
                max
            };
            match spec_next_key(n.children, 0) {
                Err(e) => Err(e),
                Ok(c) => Ok(
                    if c > m {
                        c
                    } else {
                        m
                    },
                ),
            }
        },
    }
}

/// Counts the file nodes of a forest.
pub fn count_files(nodes: &Vec<TreeNode>) -> (r: usize)
    requires
        spec_count_files(nodes_view(nodes@)) <= usize::MAX,
    ensures
        r == spec_count_files(nodes_view(nodes@)),
    decreases nodes@,
{
    let ghost v = nodes_view(nodes@);
    proof {
        lemma_nodes_view_len(nodes@);
    }
    let mut count: usize = 0;
    let mut i: usize = 0;
    while i < nodes.len()
        invariant
            0 <= i <= nodes@.len(),
            v == nodes_view(nodes@),
            v.len() == nodes@.len(),
            spec_count_files(v) <= usize::MAX,
            count == spec_count_files(v.take(i as int)),
        decreases nodes@.len() - i,
    {
        let node = &nodes[i];
        proof {
            lemma_nodes_view_index(nodes@, i as int);
            assert(v.take(i + 1).drop_last() =~= v.take(i as int));
            lemma_count_prefix(v, i + 1);
        }
        match node.node_type {
            NodeType::File { .. } => {
                count = count + 1;
            },
            NodeType::Folder => {
                assert(decreases_to!(nodes@ => nodes@[i as int].children@));
                let c = count_files(&node.children);
                count = count + c;
            },
        }
        i = i + 1;
    }
    assert(v.take(i as int) =~= v);
    count
}

proof fn lemma_count_prefix(v: Seq<TreeNodeView>, k: int)
    requires
        0 <= k <= v.len(),
    ensures
        spec_count_files(v.take(k)) <= spec_count_files(v),
    decreases v.len() - k,
{
    if k < v.len() {
        lemma_count_prefix(v, k + 1);
        assert(v.take(k + 1).drop_last() =~= v.take(k));
    } else {
        assert(v.take(k) =~= v);
    }
}

/// The smallest key that is larger than every key of the tree (0 for an empty
/// tree); fails when a key is not a decimal number.
pub fn get_next_key_cpk(tree_nodes: &Vec<TreeNode>) -> (r: Result<usize, FormatError>)
    ensures
        match r {
            Ok(k) => spec_next_key(nodes_view(tree_nodes@), 0) == Ok::<nat, FormatError>(k as nat),
            Err(e) => spec_next_key(nodes_view(tree_nodes@), 0) == Err::<nat, FormatError>(e),
        },
    decreases tree_nodes@,
{
    let ghost v = nodes_view(tree_nodes@);
    proof {
        lemma_nodes_view_len(tree_nodes@);
    }
    let mut max_key: usize = 0;
    let mut i: usize = 0;
    while i < tree_nodes.len()
        invariant
            0 <= i <= tree_nodes@.len(),
            v == nodes_view(tree_nodes@),
            v.len() == tree_nodes@.len(),
            spec_next_key(v.take(i as int), 0) == Ok::<nat, FormatError>(max_key as nat),
        decreases tree_nodes@.len() - i,
    {
        let node = &tree_nodes[i];
        proof {
            lemma_nodes_view_index(tree_nodes@, i as int);
            assert(v.take(i + 1).drop_last() =~= v.take(i as int));
        }
        assert(spec_next_key(v.take(i + 1), 0) == spec_next_key_node(v[i as int], max_key as nat));
        let key = match parse_usize(&node.key) {
            Some(k) => k,
            None => {
                proof {
                    assert(v.take(i as int) + v.subrange(i as int, v.len() as int) =~= v);
                    lemma_next_key_error_extends(v, i + 1);
                }
                return Err(FormatError::InvalidKey);
            },
        };
        if key >= max_key {
            if key == usize::MAX {
                proof {
                    lemma_next_key_error_extends(v, i + 1);
                }
                return Err(FormatError::Overflow);
            }
            max_key = key + 1;
        }
        assert(decreases_to!(tree_nodes@ => tree_nodes@[i as int].children@));
        let child_key = match get_next_key_cpk(&node.children) {
            Ok(c) => c,
            Err(e) => {
                proof {
                    lemma_next_key_error_extends(v, i + 1);
                }
                return Err(e);
            },
        };
        if child_key > max_key {
            max_key = child_key;
        }
        i = i + 1;
    }
    assert(v.take(i as int) =~= v);
    Ok(max_key)
}

/// A failure of the key scan over a prefix is the failure of the whole scan.
proof fn lemma_next_key_error_extends(v: Seq<TreeNodeView>, k: int)
    requires
        0 <= k <= v.len(),
        spec_next_key(v.take(k), 0) is Err,
    ensures
        spec_next_key(v, 0) == spec_next_key(v.take(k), 0),
    decreases v.len() - k,
{
    if k < v.len() {
        assert(v.take(k + 1).drop_last() =~= v.take(k));
        lemma_next_key_error_extends(v, k + 1);
    } else {
        assert(v.take(k) =~= v);
    }
}

impl TreeNode {
    /// The file's offset, 0 for a folder.
    pub fn get_file_offset(&self) -> (r: u64)
        ensures
            r == match self.node_type {
                NodeType::File { file_offset, .. } => file_offset,
                NodeType::Folder => 0,
            },
    {
        match self.node_type {
            NodeType::File { file_offset, .. } => file_offset,
            NodeType::Folder => 0,
        }
    }

    /// The file's stored size, 0 for a folder.
    pub fn get_file_size(&self) -> (r: u32)
        ensures
            r == match self.node_type {
                NodeType::File { file_size, .. } => file_size,
                NodeType::Folder => 0,
            },
    {
        match self.node_type {
            NodeType::File { file_size, .. } => file_size,
            NodeType::Folder => 0,
        }
    }

    /// The file's size once extracted, 0 for a folder.
    pub fn get_extract_size(&self) -> (r: u32)
        ensures
            r == match self.node_type {
                NodeType::File { extract_size, .. } => extract_size,
                NodeType::Folder => 0,
            },
    {
        match self.node_type {
            NodeType::File { extract_size, .. } => extract_size,
            NodeType::Folder => 0,
        }
    }
}

} // verus!
