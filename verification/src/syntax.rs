//! The red layer: position-aware, parent-navigable handles over a green
//! tree.
//!
//! A red position is identified by the green tree it belongs to, the root
//! it hangs under, and the path of child indices from that root.  Handles
//! cache the arena index and the absolute byte offset of their position;
//! both are functions of (tree, root, path), which is what makes handle
//! equality an occurrence identity: two handles are equal exactly when
//! they denote the same position in the same tree, never merely because
//! their kind and text agree.

use vstd::prelude::*;

use std::sync::Arc;

use crate::SyntaxKind;
use crate::TextRange;
use crate::green::GreenElement;
use crate::green::GreenNode;
use crate::green::GreenToken;
use crate::green::GreenTree;
use crate::green::GreenId;
use crate::green::arena_wf;
use crate::green::node_wf;
use crate::green::elem_valid;
use crate::green::elem_len;
use crate::green::prefix_len;
use crate::green::node_text;
use crate::green::lemma_prefix_len_mono;
use crate::green::children_at;
use crate::green::elem_text;
use crate::green::tree_eq;
use crate::green::tree_eq_spec;
use crate::green::arena_eq;
use crate::green::node_data_eq;
use crate::green::token_data_eq;
use crate::green::lemma_cong_elem_text;
use crate::green::lemma_cong_wf;

verus! {

// ---------------------------------------------------------------------
// Paths: a position in a tree is the list of child indices from a root.
// ---------------------------------------------------------------------

/// Is `p` a valid path from node `i` to some element (node or token)?
/// Every intermediate step must land on a node.
pub open(crate) spec fn elem_path_valid(nodes: Seq<GreenNode>, i: int, p: Seq<usize>) -> bool
    decreases p.len(),
{
    if p.len() == 0 {
        false
    } else {
        &&& (p[0] as int) < nodes[i].children@.len()
        &&& (p.len() > 1 ==> match nodes[i].children@[p[0] as int] {
            GreenElement::Node(j) => elem_path_valid(nodes, j as int, p.drop_first()),
            GreenElement::Token(_) => false,
        })
    }
}

/// The green element a non-empty path leads to.
pub open(crate) spec fn elem_at(nodes: Seq<GreenNode>, i: int, p: Seq<usize>) -> GreenElement
    decreases p.len(),
{
    if p.len() <= 1 {
        nodes[i].children@[p[0] as int]
    } else {
        match nodes[i].children@[p[0] as int] {
            GreenElement::Node(j) => elem_at(nodes, j as int, p.drop_first()),
            GreenElement::Token(_) => nodes[i].children@[p[0] as int],
        }
    }
}

/// Is `p` a valid path from node `i` to a node (the empty path denotes
/// `i` itself)?
pub open(crate) spec fn node_path_valid(nodes: Seq<GreenNode>, i: int, p: Seq<usize>) -> bool {
    p.len() == 0 || (elem_path_valid(nodes, i, p) && elem_at(nodes, i, p) is Node)
}

/// Is `p` a valid path from node `i` to a token?
pub open(crate) spec fn token_path_valid(nodes: Seq<GreenNode>, i: int, p: Seq<usize>) -> bool {
    elem_path_valid(nodes, i, p) && elem_at(nodes, i, p) is Token
}

/// The arena index of the node a node-path leads to.
pub open(crate) spec fn node_at(nodes: Seq<GreenNode>, i: int, p: Seq<usize>) -> int
    decreases p.len(),
{
    if p.len() == 0 {
        i
    } else {
        match nodes[i].children@[p[0] as int] {
            GreenElement::Node(j) => node_at(nodes, j as int, p.drop_first()),
            GreenElement::Token(_) => i,
        }
    }
}

/// The arena index of the token a token-path leads to.
pub open(crate) spec fn token_idx_at(nodes: Seq<GreenNode>, i: int, p: Seq<usize>) -> int {
    match elem_at(nodes, i, p) {
        GreenElement::Node(j) => j as int,
        GreenElement::Token(k) => k as int,
    }
}

/// Absolute byte offset of the position `p` under node `i`: at each step,
/// the lengths of the earlier siblings are added.
pub open(crate) spec fn offset_at(nodes: Seq<GreenNode>, tokens: Seq<GreenToken>, i: int, p: Seq<usize>) -> nat
    decreases p.len(),
{
    if p.len() == 0 {
        0
    } else {
        prefix_len(nodes, tokens, nodes[i].children@, p[0] as int) + (match nodes[i].children@[p[0] as int] {
            GreenElement::Node(j) => offset_at(nodes, tokens, j as int, p.drop_first()),
            GreenElement::Token(_) => 0,
        })
    }
}

// ---------------------------------------------------------------------
// Path lemmas.
// ---------------------------------------------------------------------

/// The empty path denotes node `i` itself, at relative offset zero.
pub(crate) proof fn lemma_empty_path(nodes: Seq<GreenNode>, tokens: Seq<GreenToken>, i: int, p: Seq<usize>)
    requires
        p.len() == 0,
    ensures
        node_at(nodes, i, p) == i,
        offset_at(nodes, tokens, i, p) == 0,
        node_path_valid(nodes, i, p),
{
}

/// A valid path leads to a valid element, the element at a node-path is
/// the node `node_at` names, and the position's span lies inside node
/// `i`'s span.
pub(crate) proof fn lemma_span_in_bounds(nodes: Seq<GreenNode>, tokens: Seq<GreenToken>, i: int, p: Seq<usize>)
    requires
        arena_wf(nodes, tokens),
        0 <= i < nodes.len(),
        elem_path_valid(nodes, i, p),
    ensures
        elem_valid(elem_at(nodes, i, p), nodes.len() as int, tokens.len() as int),
        offset_at(nodes, tokens, i, p) + elem_len(nodes, tokens, elem_at(nodes, i, p))
            <= nodes[i].text_len,
        elem_at(nodes, i, p) matches GreenElement::Node(j) ==> node_at(nodes, i, p) == j as int,
    decreases p.len(),
{
    assert(node_wf(nodes, tokens, i));
    let c = p[0] as int;
    let e = nodes[i].children@[c];
    assert(elem_valid(e, i, tokens.len() as int));
    assert(prefix_len(nodes, tokens, nodes[i].children@, c + 1)
        == prefix_len(nodes, tokens, nodes[i].children@, c) + elem_len(nodes, tokens, e));
    lemma_prefix_len_mono(nodes, tokens, nodes[i].children@, c + 1, nodes[i].children@.len() as int);
    if p.len() == 1 {
        match e {
            GreenElement::Node(j) => {
                lemma_empty_path(nodes, tokens, j as int, p.drop_first());
            },
            GreenElement::Token(_) => {},
        }
    } else {
        match e {
            GreenElement::Node(j) => {
                lemma_span_in_bounds(nodes, tokens, j as int, p.drop_first());
            },
            GreenElement::Token(_) => {},
        }
    }
}

/// Extending a node-path by one child index: validity, the element
/// reached, and the offset of the longer path.
pub(crate) proof fn lemma_path_push(nodes: Seq<GreenNode>, tokens: Seq<GreenToken>, i: int, p: Seq<usize>, c: usize)
    requires
        arena_wf(nodes, tokens),
        0 <= i < nodes.len(),
        node_path_valid(nodes, i, p),
        0 <= node_at(nodes, i, p) < nodes.len(),
        (c as int) < nodes[node_at(nodes, i, p)].children@.len(),
    ensures
        elem_path_valid(nodes, i, p.push(c)),
        elem_at(nodes, i, p.push(c)) == nodes[node_at(nodes, i, p)].children@[c as int],
        offset_at(nodes, tokens, i, p.push(c)) == offset_at(nodes, tokens, i, p) + prefix_len(
            nodes,
            tokens,
            nodes[node_at(nodes, i, p)].children@,
            c as int,
        ),
        elem_at(nodes, i, p.push(c)) matches GreenElement::Node(j) ==> node_at(
            nodes,
            i,
            p.push(c),
        ) == j as int,
    decreases p.len(),
{
    if p.len() == 0 {
        let q = p.push(c);
        assert(q =~= seq![c]);
        assert(q[0] == c);
        lemma_empty_path(nodes, tokens, i, p);
        assert(q.drop_first() =~= Seq::<usize>::empty());
        match nodes[i].children@[c as int] {
            GreenElement::Node(j) => {
                lemma_empty_path(nodes, tokens, j as int, q.drop_first());
            },
            GreenElement::Token(_) => {},
        }
    } else {
        let q = p.push(c);
        assert(q[0] == p[0]);
        assert(q.drop_first() =~= p.drop_first().push(c));
        match nodes[i].children@[p[0] as int] {
            GreenElement::Node(j) => {
                assert(node_wf(nodes, tokens, i));
                assert(elem_valid(nodes[i].children@[p[0] as int], i, tokens.len() as int));
                if p.len() == 1 {
                    lemma_empty_path(nodes, tokens, j as int, p.drop_first());
                    assert(node_at(nodes, i, p) == j as int);
                    assert(node_path_valid(nodes, j as int, p.drop_first()));
                } else {
                    assert(elem_at(nodes, i, p) == elem_at(nodes, j as int, p.drop_first()));
                }
                lemma_path_push(nodes, tokens, j as int, p.drop_first(), c);
            },
            GreenElement::Token(_) => {
                assert(p.len() == 1 ==> !(elem_at(nodes, i, p) is Node));
                assert(false);
            },
        }
    }
}

/// A prefix of a valid node-path is itself a valid node-path.
pub(crate) proof fn lemma_path_prefix_valid(nodes: Seq<GreenNode>, i: int, p: Seq<usize>, m: int)
    requires
        node_path_valid(nodes, i, p),
        0 <= m <= p.len(),
    ensures
        node_path_valid(nodes, i, p.take(m)),
    decreases p.len(),
{
    if m > 0 && p.len() > 0 {
        let q = p.take(m);
        assert(q[0] == p[0]);
        if p.len() == 1 {
        } else {
            match nodes[i].children@[p[0] as int] {
                GreenElement::Node(j) => {
                    if m == 1 {
                        assert(elem_at(nodes, i, q) == nodes[i].children@[p[0] as int]);
                    } else {
                        assert(q.drop_first() =~= p.drop_first().take(m - 1));
                        assert(node_path_valid(nodes, j as int, p.drop_first()));
                        lemma_path_prefix_valid(nodes, j as int, p.drop_first(), m - 1);
                        assert(elem_path_valid(nodes, i, q));
                        assert(elem_at(nodes, i, q) == elem_at(nodes, j as int, q.drop_first()));
                    }
                },
                GreenElement::Token(_) => {
                    assert(false);
                },
            }
        }
    }
}

// ---------------------------------------------------------------------
// Law: the offset invariant.
// ---------------------------------------------------------------------

/// Law: for every non-root position, the absolute offset equals the
/// absolute offset of its parent plus the summed lengths of the earlier
/// siblings.
pub proof fn lemma_offset_invariant(nodes: Seq<GreenNode>, tokens: Seq<GreenToken>, i: int, p: Seq<usize>)
    requires
        arena_wf(nodes, tokens),
        0 <= i < nodes.len(),
        elem_path_valid(nodes, i, p),
    ensures
        offset_at(nodes, tokens, i, p) == offset_at(nodes, tokens, i, p.drop_last()) + prefix_len(
            nodes,
            tokens,
            children_at(nodes, node_at(nodes, i, p.drop_last())),
            p.last() as int,
        ),
    decreases p.len(),
{
    lemma_path_prefix_valid_of_elem(nodes, i, p);
    let q = p.drop_last();
    assert(q =~= p.take(p.len() - 1));
    if p.len() == 1 {
        assert(q.len() == 0);
        lemma_empty_path(nodes, tokens, i, q);
        match nodes[i].children@[p[0] as int] {
            GreenElement::Node(j) => {
                lemma_empty_path(nodes, tokens, j as int, p.drop_first());
            },
            GreenElement::Token(_) => {},
        }
        assert(children_at(nodes, node_at(nodes, i, q)) == nodes[i].children@);
    } else {
        match nodes[i].children@[p[0] as int] {
            GreenElement::Node(j) => {
                assert(node_wf(nodes, tokens, i));
                lemma_offset_invariant(nodes, tokens, j as int, p.drop_first());
                assert(q[0] == p[0]);
                assert(q.drop_first() =~= p.drop_first().drop_last());
                assert(p.drop_first().last() == p.last());
                assert(node_at(nodes, i, q) == node_at(nodes, j as int, q.drop_first()));
            },
            GreenElement::Token(_) => {
                assert(false);
            },
        }
    }
}

/// The last step of a valid path indexes into its parent's child list.
pub(crate) proof fn lemma_last_step_in_range(nodes: Seq<GreenNode>, i: int, p: Seq<usize>)
    requires
        elem_path_valid(nodes, i, p),
    ensures
        (p.last() as int) < nodes[node_at(nodes, i, p.drop_last())].children@.len(),
    decreases p.len(),
{
    if p.len() == 1 {
        assert(p.drop_last().len() == 0);
        assert(node_at(nodes, i, p.drop_last()) == i);
        assert(p.last() == p[0]);
    } else {
        match nodes[i].children@[p[0] as int] {
            GreenElement::Node(j) => {
                lemma_last_step_in_range(nodes, j as int, p.drop_first());
                assert(p.drop_first().last() == p.last());
                assert(p.drop_last()[0] == p[0]);
                assert(p.drop_last().drop_first() =~= p.drop_first().drop_last());
                assert(node_at(nodes, i, p.drop_last()) == node_at(nodes, j as int, p.drop_last().drop_first()));
            },
            GreenElement::Token(_) => {
                assert(false);
            },
        }
    }
}

/// All proper prefixes of a valid element path are node-paths.
pub(crate) proof fn lemma_path_prefix_valid_of_elem(nodes: Seq<GreenNode>, i: int, p: Seq<usize>)
    requires
        elem_path_valid(nodes, i, p),
    ensures
        node_path_valid(nodes, i, p.drop_last()),
    decreases p.len(),
{
    let q = p.drop_last();
    if p.len() == 1 {
        assert(q.len() == 0);
    } else {
        match nodes[i].children@[p[0] as int] {
            GreenElement::Node(j) => {
                lemma_path_prefix_valid_of_elem(nodes, j as int, p.drop_first());
                assert(q[0] == p[0]);
                assert(q.drop_first() =~= p.drop_first().drop_last());
                if q.len() > 1 {
                    assert(elem_at(nodes, i, q) == elem_at(nodes, j as int, q.drop_first()));
                } else {
                    assert(elem_at(nodes, i, q) == nodes[i].children@[p[0] as int]);
                }
            },
            GreenElement::Token(_) => {
                assert(false);
            },
        }
    }
}

// ---------------------------------------------------------------------
// Trusted wrapper for sharing the green tree.
// ---------------------------------------------------------------------

/// Relies on std's `Arc::clone`: the clone is a second handle to the same
/// allocation, so it carries the same green tree value.
#[verifier::external_body]
pub(crate) fn share_tree(tree: &Arc<GreenTree>) -> (r: Arc<GreenTree>)
    ensures
        *r == **tree,
{
    Arc::clone(tree)
}

/// Copies a path vector (element for element, so nothing is assumed of
/// `Clone` on the element type).
pub(crate) fn copy_path(v: &Vec<usize>) -> (r: Vec<usize>)
    ensures
        r@ == v@,
{
    let mut r: Vec<usize> = Vec::new();
    let mut k: usize = 0;
    while k < v.len()
        invariant
            k <= v.len(),
            r@ == v@.take(k as int),
        decreases v.len() - k,
    {
        r.push(v[k]);
        assert(r@ =~= v@.take(k + 1 as int));
        k = k + 1;
    }
    assert(r@ =~= v@);
    r
}

/// Copies the first `upto` entries of a path vector.
fn copy_path_prefix(v: &Vec<usize>, upto: usize) -> (r: Vec<usize>)
    requires
        upto <= v@.len(),
    ensures
        r@ == v@.take(upto as int),
    decreases upto,
{
    let mut r: Vec<usize> = Vec::new();
    let mut k: usize = 0;
    while k < upto
        invariant
            k <= upto,
            upto <= v@.len(),
            r@ == v@.take(k as int),
        decreases upto - k,
    {
        r.push(v[k]);
        assert(r@ =~= v@.take(k + 1 as int));
        k = k + 1;
    }
    r
}

// ---------------------------------------------------------------------
// The handles.
// ---------------------------------------------------------------------

/// An owning, position-aware handle on a node occurrence.
///
/// The handle co-owns the green tree (by reference count); releasing the
/// last handle releases the tree.  Equality and hashing are by occurrence
/// identity: same tree, same root, same path.
#[derive(Debug, Eq, Hash)]
pub struct SyntaxNode {
    pub(crate) tree: Arc<GreenTree>,
    pub(crate) root: usize,
    pub(crate) path: Vec<usize>,
    pub(crate) node: usize,
    pub(crate) offset: usize,
}

/// An owning, position-aware handle on a token occurrence.
#[derive(Debug, Eq, Hash)]
pub struct SyntaxToken {
    pub(crate) tree: Arc<GreenTree>,
    pub(crate) root: usize,
    pub(crate) path: Vec<usize>,
    pub(crate) token: usize,
    pub(crate) offset: usize,
}

/// A red view of either a node or a token, used by generic traversal.
#[derive(Debug, Eq, Hash)]
pub enum SyntaxElement {
    /// A node occurrence.
    Node(SyntaxNode),
    /// A token occurrence.
    Token(SyntaxToken),
}

impl SyntaxNode {
    /// A handle is valid when its path is a node-path of its tree and the
    /// cached arena index and absolute offset agree with the path.
    #[verifier::type_invariant]
    pub(crate) open(crate) spec fn wf(self) -> bool {
        &&& (*self.tree).wf()
        &&& (self.root as int) < (*self.tree).nodes_spec().len()
        &&& node_path_valid((*self.tree).nodes_spec(), self.root as int, self.path@)
        &&& self.node as int == node_at((*self.tree).nodes_spec(), self.root as int, self.path@)
        &&& (self.node as int) < (*self.tree).nodes_spec().len()
        &&& self.offset as nat == offset_at(
            (*self.tree).nodes_spec(),
            (*self.tree).tokens_spec(),
            self.root as int,
            self.path@,
        )
    }

    /// Handle validity, as a named predicate (every handle the library
    /// hands out satisfies it; it is the handle's type invariant).
    pub open(crate) spec fn valid(self) -> bool {
        self.wf()
    }

    /// The green tree this handle belongs to.
    pub open(crate) spec fn tree_spec(self) -> GreenTree {
        *self.tree
    }

    /// The root (arena index) this handle hangs under.
    pub open(crate) spec fn root_spec(self) -> int {
        self.root as int
    }

    /// The path of child indices from the root to this occurrence.
    pub open(crate) spec fn path_spec(self) -> Seq<usize> {
        self.path@
    }

    /// The arena index of this node.
    pub open(crate) spec fn node_spec(self) -> int {
        self.node as int
    }

    /// The absolute byte offset of this occurrence.
    pub open(crate) spec fn offset_spec(self) -> int {
        self.offset as int
    }

    /// The kind of this node.
    pub open(crate) spec fn kind_spec(self) -> SyntaxKind {
        (*self.tree).node_kind_at(self.node as int)
    }

    /// The byte length of this node's text.
    pub open(crate) spec fn len_spec(self) -> nat {
        (*self.tree).node_len_at(self.node as int)
    }

    /// The text of this node: its leaf tokens concatenated.
    pub open(crate) spec fn text_of(self) -> Seq<u8> {
        node_text((*self.tree).nodes_spec(), (*self.tree).tokens_spec(), self.node as int)
    }

    /// Number of immediate children (nodes and tokens).
    pub open(crate) spec fn child_count_spec(self) -> int {
        (*self.tree).node_children_at(self.node as int).len() as int
    }

    /// Entry point: the root handle of a green tree, at offset zero.
    pub fn new_root(tree: Arc<GreenTree>) -> (r: SyntaxNode)
        ensures
            r.tree_spec() == *tree,
            r.root_spec() == (*tree).root_spec(),
            r.node_spec() == (*tree).root_spec(),
            r.path_spec() == Seq::<usize>::empty(),
            r.offset_spec() == 0,
    {
        proof {
            use_type_invariant(&*tree);
        }
        let root = tree.root_index();
        let r = SyntaxNode { tree, root, path: Vec::new(), node: root, offset: 0 };
        proof {
            assert(r.path@ =~= Seq::<usize>::empty());
        }
        r
    }

    /// A root handle at an arbitrary node of the arena — the entry point
    /// for further roots sharing one arena.  Returns `None` exactly when
    /// the identifier does not denote a node of this arena.
    pub fn new_root_at(tree: Arc<GreenTree>, id: GreenId) -> (r: Option<SyntaxNode>)
        ensures
            match r {
                Option::Some(n) => {
                    &&& 0 <= id.idx() < (*tree).nodes_spec().len()
                    &&& n.tree_spec() == *tree
                    &&& n.root_spec() == id.idx()
                    &&& n.node_spec() == id.idx()
                    &&& n.path_spec() == Seq::<usize>::empty()
                    &&& n.offset_spec() == 0
                },
                Option::None => id.idx() >= (*tree).nodes_spec().len(),
            },
    {
        proof {
            use_type_invariant(&*tree);
        }
        let raw = id.index();
        if raw < tree.node_count() {
            let r = SyntaxNode { tree, root: raw, path: Vec::new(), node: raw, offset: 0 };
            proof {
                assert(r.path@ =~= Seq::<usize>::empty());
            }
            Some(r)
        } else {
            None
        }
    }

    /// The kind of this node.
    pub fn kind(&self) -> (r: SyntaxKind)
        ensures
            r == self.kind_spec(),
    {
        proof {
            use_type_invariant(self);
        }
        (*self.tree).node_kind(self.node)
    }

    /// The byte length of this node's text.
    pub fn text_len(&self) -> (r: usize)
        ensures
            r == self.len_spec(),
    {
        proof {
            use_type_invariant(self);
        }
        (*self.tree).node_len(self.node)
    }

    /// The absolute range `[offset, offset + length)` of this node.
    pub fn text_range(&self) -> (r: TextRange)
        ensures
            r.start == self.offset_spec(),
            r.end == self.offset_spec() + self.len_spec(),
    {
        proof {
            use_type_invariant(self);
            let nodes = (*self.tree).nodes_spec();
            let tokens = (*self.tree).tokens_spec();
            if self.path@.len() > 0 {
                lemma_span_in_bounds(nodes, tokens, self.root as int, self.path@);
            }
        }
        let len = (*self.tree).node_len(self.node);
        TextRange { start: self.offset, end: self.offset + len }
    }

    /// Number of immediate children (nodes and tokens).
    pub fn child_count(&self) -> (r: usize)
        ensures
            r == self.child_count_spec(),
    {
        proof {
            use_type_invariant(self);
        }
        (*self.tree).node_child_count(self.node)
    }

    /// The `c`-th immediate child, as a red element at its absolute
    /// offset: present exactly when `c` is in range.
    pub fn child(&self, c: usize) -> (r: Option<SyntaxElement>)
        ensures
            match r {
                Option::Some(el) => {
                    &&& (c as int) < self.child_count_spec()
                    &&& el.tree_spec() == self.tree_spec()
                    &&& el.root_spec() == self.root_spec()
                    &&& el.path_spec() == self.path_spec().push(c)
                    &&& el.offset_spec() == self.offset_spec() + prefix_len(
                        self.tree_spec().nodes_spec(),
                        self.tree_spec().tokens_spec(),
                        self.tree_spec().node_children_at(self.node_spec()),
                        c as int,
                    )
                    &&& (el is Node <==> self.tree_spec().node_children_at(self.node_spec())[c as int] is Node)
                },
                Option::None => (c as int) >= self.child_count_spec(),
            },
    {
        proof {
            use_type_invariant(self);
        }
        let cnt = (*self.tree).node_child_count(self.node);
        if c >= cnt {
            return None;
        }
        let ghost nodes = (*self.tree).nodes_spec();
        let ghost tokens = (*self.tree).tokens_spec();
        proof {
            if self.path@.len() > 0 {
                lemma_span_in_bounds(nodes, tokens, self.root as int, self.path@);
            }
            lemma_path_push(nodes, tokens, self.root as int, self.path@, c);
            lemma_prefix_len_mono(nodes, tokens, nodes[self.node as int].children@, c as int, cnt as int);
            assert(node_wf(nodes, tokens, self.node as int));
        }
        // Sum the earlier siblings' lengths.
        let mut acc: usize = self.offset;
        let mut k: usize = 0;
        while k < c
            invariant
                k <= c,
                (c as int) < nodes[self.node as int].children@.len(),
                self.wf(),
                nodes == (*self.tree).nodes_spec(),
                tokens == (*self.tree).tokens_spec(),
                acc as nat == self.offset as nat + prefix_len(nodes, tokens, nodes[self.node as int].children@, k as int),
                self.offset as nat + prefix_len(nodes, tokens, nodes[self.node as int].children@, c as int)
                    <= nodes[self.root as int].text_len,
                node_wf(nodes, tokens, self.node as int),
            decreases c - k,
        {
            proof {
                lemma_prefix_len_mono(nodes, tokens, nodes[self.node as int].children@, k + 1, c as int);
                assert(elem_valid(nodes[self.node as int].children@[k as int], self.node as int, tokens.len() as int));
            }
            let el: usize = match (*self.tree).node_child(self.node, k) {
                GreenElement::Node(j) => (*self.tree).node_len(j),
                GreenElement::Token(t) => (*self.tree).token_text(t).len(),
            };
            acc = acc + el;
            k = k + 1;
        }
        let mut p = copy_path(&self.path);
        p.push(c);
        let e = (*self.tree).node_child(self.node, c);
        proof {
            assert(elem_valid(e, self.node as int, tokens.len() as int));
        }
        match e {
            GreenElement::Node(j) => Some(
                SyntaxElement::Node(SyntaxNode { tree: share_tree(&self.tree), root: self.root, path: p, node: j, offset: acc }),
            ),
            GreenElement::Token(t) => Some(
                SyntaxElement::Token(SyntaxToken { tree: share_tree(&self.tree), root: self.root, path: p, token: t, offset: acc }),
            ),
        }
    }

    /// The parent occurrence; `None` exactly for the root of this handle
    /// set.  The parent's path is this path without its last step, and
    /// this offset equals the parent's offset plus the earlier siblings'
    /// lengths (the offset invariant).
    pub fn parent(&self) -> (r: Option<SyntaxNode>)
        ensures
            match r {
                Option::Some(par) => {
                    &&& self.path_spec().len() > 0
                    &&& par.tree_spec() == self.tree_spec()
                    &&& par.root_spec() == self.root_spec()
                    &&& par.path_spec() == self.path_spec().drop_last()
                },
                Option::None => self.path_spec().len() == 0,
            },
    {
        proof {
            use_type_invariant(self);
        }
        if self.path.len() == 0 {
            return None;
        }
        let upto = self.path.len() - 1;
        proof {
            lemma_path_prefix_valid((*self.tree).nodes_spec(), self.root as int, self.path@, upto as int);
        }
        let (pid, poff) = descend(&self.tree, self.root, &self.path, upto);
        let p = copy_path_prefix(&self.path, upto);
        let r = SyntaxNode { tree: share_tree(&self.tree), root: self.root, path: p, node: pid, offset: poff };
        proof {
            assert(r.path@ =~= self.path@.drop_last());
        }
        Some(r)
    }
}

impl SyntaxToken {
    /// A token handle is valid when its path leads to a token and the
    /// cached arena index and absolute offset agree with the path.
    #[verifier::type_invariant]
    pub(crate) open(crate) spec fn wf(self) -> bool {
        &&& (*self.tree).wf()
        &&& (self.root as int) < (*self.tree).nodes_spec().len()
        &&& token_path_valid((*self.tree).nodes_spec(), self.root as int, self.path@)
        &&& self.token as int == token_idx_at((*self.tree).nodes_spec(), self.root as int, self.path@)
        &&& (self.token as int) < (*self.tree).tokens_spec().len()
        &&& self.offset as nat == offset_at(
            (*self.tree).nodes_spec(),
            (*self.tree).tokens_spec(),
            self.root as int,
            self.path@,
        )
    }

    /// The green tree this handle belongs to.
    pub open(crate) spec fn tree_spec(self) -> GreenTree {
        *self.tree
    }

    /// The root (arena index) this handle hangs under.
    pub open(crate) spec fn root_spec(self) -> int {
        self.root as int
    }

    /// The path of child indices from the root to this occurrence.
    pub open(crate) spec fn path_spec(self) -> Seq<usize> {
        self.path@
    }

    /// The arena index of this token.
    pub open(crate) spec fn token_spec(self) -> int {
        self.token as int
    }

    /// The absolute byte offset of this occurrence.
    pub open(crate) spec fn offset_spec(self) -> int {
        self.offset as int
    }

    /// The kind of this token.
    pub open(crate) spec fn kind_spec(self) -> SyntaxKind {
        (*self.tree).token_kind_at(self.token as int)
    }

    /// The byte length of this token's text.
    pub open(crate) spec fn len_spec(self) -> nat {
        (*self.tree).token_len_at(self.token as int)
    }

    /// The text of this token.
    pub open(crate) spec fn text_of(self) -> Seq<u8> {
        (*self.tree).token_text_at(self.token as int)
    }

    /// The kind of this token.
    pub fn kind(&self) -> (r: SyntaxKind)
        ensures
            r == self.kind_spec(),
    {
        proof {
            use_type_invariant(self);
        }
        (*self.tree).token_kind(self.token)
    }

    /// The token's text, as bytes.
    pub fn text(&self) -> (r: &Vec<u8>)
        ensures
            r@ == self.text_of(),
    {
        proof {
            use_type_invariant(self);
        }
        (*self.tree).token_text(self.token)
    }

    /// The byte length of this token's text.
    pub fn text_len(&self) -> (r: usize)
        ensures
            r == self.len_spec(),
    {
        proof {
            use_type_invariant(self);
        }
        (*self.tree).token_text(self.token).len()
    }

    /// The absolute range `[offset, offset + length)` of this token.
    pub fn text_range(&self) -> (r: TextRange)
        ensures
            r.start == self.offset_spec(),
            r.end == self.offset_spec() + self.len_spec(),
    {
        proof {
            use_type_invariant(self);
            let nodes = (*self.tree).nodes_spec();
            let tokens = (*self.tree).tokens_spec();
            lemma_span_in_bounds(nodes, tokens, self.root as int, self.path@);
        }
        let len = (*self.tree).token_text(self.token).len();
        TextRange { start: self.offset, end: self.offset + len }
    }

    /// The parent node occurrence (a token always has one: at worst the
    /// root this handle hangs under).
    pub fn parent(&self) -> (r: SyntaxNode)
        ensures
            r.tree_spec() == self.tree_spec(),
            r.root_spec() == self.root_spec(),
            r.path_spec() == self.path_spec().drop_last(),
    {
        proof {
            use_type_invariant(self);
            lemma_path_prefix_valid_of_elem((*self.tree).nodes_spec(), self.root as int, self.path@);
            assert(self.path@.take(self.path@.len() - 1) =~= self.path@.drop_last());
        }
        let upto = self.path.len() - 1;
        let (pid, poff) = descend(&self.tree, self.root, &self.path, upto);
        let p = copy_path_prefix(&self.path, upto);
        let r = SyntaxNode { tree: share_tree(&self.tree), root: self.root, path: p, node: pid, offset: poff };
        proof {
            assert(r.path@ =~= self.path@.drop_last());
        }
        r
    }
}

impl SyntaxElement {
    /// The green tree this element belongs to.
    pub open(crate) spec fn tree_spec(self) -> GreenTree {
        match self {
            SyntaxElement::Node(n) => n.tree_spec(),
            SyntaxElement::Token(t) => t.tree_spec(),
        }
    }

    /// The root this element hangs under.
    pub open(crate) spec fn root_spec(self) -> int {
        match self {
            SyntaxElement::Node(n) => n.root_spec(),
            SyntaxElement::Token(t) => t.root_spec(),
        }
    }

    /// The path of this element's occurrence.
    pub open(crate) spec fn path_spec(self) -> Seq<usize> {
        match self {
            SyntaxElement::Node(n) => n.path_spec(),
            SyntaxElement::Token(t) => t.path_spec(),
        }
    }

    /// The absolute byte offset of this element.
    pub open(crate) spec fn offset_spec(self) -> int {
        match self {
            SyntaxElement::Node(n) => n.offset_spec(),
            SyntaxElement::Token(t) => t.offset_spec(),
        }
    }

    /// The byte length of this element's text.
    pub open(crate) spec fn len_spec(self) -> nat {
        match self {
            SyntaxElement::Node(n) => n.len_spec(),
            SyntaxElement::Token(t) => t.len_spec(),
        }
    }

    /// The kind of the node or token.
    pub fn kind(&self) -> (r: SyntaxKind)
        ensures
            (self is Node ==> r == self.tree_spec().node_kind_at(
                match self { SyntaxElement::Node(n) => n.node_spec(), SyntaxElement::Token(t) => 0 },
            )),
            (self is Token ==> r == self.tree_spec().token_kind_at(
                match self { SyntaxElement::Node(n) => 0, SyntaxElement::Token(t) => t.token_spec() },
            )),
    {
        match self {
            SyntaxElement::Node(n) => n.kind(),
            SyntaxElement::Token(t) => t.kind(),
        }
    }

    /// The absolute range of this element.
    pub fn text_range(&self) -> (r: TextRange)
        ensures
            r.start == self.offset_spec(),
            r.end == self.offset_spec() + self.len_spec(),
    {
        match self {
            SyntaxElement::Node(n) => n.text_range(),
            SyntaxElement::Token(t) => t.text_range(),
        }
    }
}

// ---------------------------------------------------------------------
// Occurrence identity.
// ---------------------------------------------------------------------

/// Occurrence identity of two node handles: same green tree (deeply),
/// same root, same path.  Content plays no role: two positions with
/// identical kind and text but different paths are distinct.
///
/// A deliberate deviation from pointer identity: this library's values
/// have no addresses at the specification level, so "the same tree" is
/// rendered as deep green equality.  Within the handle set of one root —
/// the only handles a single tree ever produces — this coincides exactly
/// with occurrence identity, and equal handles are proved interchangeable
/// ([`lemma_identity_equality`]).  Handles of two separately built,
/// byte-for-byte identical trees also compare equal, which pointer
/// identity would not grant.
pub open(crate) spec fn same_node_occurrence(a: SyntaxNode, b: SyntaxNode) -> bool {
    &&& tree_eq_spec(*a.tree, *b.tree)
    &&& a.root == b.root
    &&& a.path@ =~= b.path@
}

/// Occurrence identity of two token handles.
pub open(crate) spec fn same_token_occurrence(a: SyntaxToken, b: SyntaxToken) -> bool {
    &&& tree_eq_spec(*a.tree, *b.tree)
    &&& a.root == b.root
    &&& a.path@ =~= b.path@
}

/// Deeply equal arenas resolve a path to the same element, node index
/// and offset.
pub(crate) proof fn lemma_cong_path(na: Seq<GreenNode>, ka: Seq<GreenToken>, nb: Seq<GreenNode>, kb: Seq<GreenToken>, i: int, p: Seq<usize>)
    requires
        arena_eq(na, ka, nb, kb),
        arena_wf(na, ka),
        0 <= i < na.len(),
    ensures
        elem_path_valid(na, i, p) == elem_path_valid(nb, i, p),
        node_path_valid(na, i, p) ==> node_at(na, i, p) == node_at(nb, i, p),
        elem_path_valid(na, i, p) ==> elem_at(na, i, p) == elem_at(nb, i, p),
        elem_path_valid(na, i, p) ==> offset_at(na, ka, i, p) == offset_at(nb, kb, i, p),
    decreases p.len(),
{
    if p.len() > 0 {
        assert(node_data_eq(na[i], nb[i]));
        assert(nb[i].children@ =~= na[i].children@);
        assert(node_wf(na, ka, i));
        if (p[0] as int) < na[i].children@.len() {
            assert(elem_valid(na[i].children@[p[0] as int], i, ka.len() as int));
            match na[i].children@[p[0] as int] {
                GreenElement::Node(j) => {
                    lemma_cong_path(na, ka, nb, kb, j as int, p.drop_first());
                    if !elem_path_valid(na, i, p) {
                        assert(!elem_path_valid(nb, i, p));
                    }
                    lemma_cong_prefix_len_to(na, ka, nb, kb, i, p[0] as int);
                    if p.len() == 1 {
                        assert(p.drop_first().len() == 0);
                        assert(node_at(na, j as int, p.drop_first()) == j as int);
                        assert(node_at(nb, j as int, p.drop_first()) == j as int);
                        assert(offset_at(na, ka, j as int, p.drop_first()) == 0);
                        assert(offset_at(nb, kb, j as int, p.drop_first()) == 0);
                    } else {
                        assert(node_path_valid(na, i, p) ==> node_path_valid(na, j as int, p.drop_first()));
                    }
                },
                GreenElement::Token(_) => {
                    lemma_cong_prefix_len_to(na, ka, nb, kb, i, p[0] as int);
                },
            }
        }
    }
}

/// Prefix sums at one node agree across deeply equal arenas, as far as
/// the node's recorded lengths go.
pub(crate) proof fn lemma_cong_prefix_len_to(na: Seq<GreenNode>, ka: Seq<GreenToken>, nb: Seq<GreenNode>, kb: Seq<GreenToken>, i: int, n: int)
    requires
        arena_eq(na, ka, nb, kb),
        arena_wf(na, ka),
        0 <= i < na.len(),
        n <= na[i].children@.len(),
    ensures
        prefix_len(na, ka, na[i].children@, n) == prefix_len(nb, kb, nb[i].children@, n),
    decreases n,
{
    assert(node_data_eq(na[i], nb[i]));
    assert(nb[i].children@ =~= na[i].children@);
    if n > 0 {
        lemma_cong_prefix_len_to(na, ka, nb, kb, i, n - 1);
        assert(node_wf(na, ka, i));
        let e = na[i].children@[n - 1];
        assert(elem_valid(e, i, ka.len() as int));
        match e {
            GreenElement::Node(j) => {
                assert(node_data_eq(na[j as int], nb[j as int]));
            },
            GreenElement::Token(k) => {
                assert(token_data_eq(ka[k as int], kb[k as int]));
            },
        }
    }
}

impl PartialEq for SyntaxNode {
    /// Occurrence identity: true exactly when both handles denote the
    /// same position in the same (deeply equal) tree.
    fn eq(&self, other: &SyntaxNode) -> (r: bool) {
        tree_eq(&self.tree, &other.tree) && self.root == other.root && paths_eq(
            &self.path,
            &other.path,
        )
    }
}

impl vstd::std_specs::cmp::PartialEqSpecImpl for SyntaxNode {
    open spec fn obeys_eq_spec() -> bool {
        true
    }

    open spec fn eq_spec(&self, other: &SyntaxNode) -> bool {
        same_node_occurrence(*self, *other)
    }
}

impl PartialEq for SyntaxToken {
    /// Occurrence identity, as for nodes.
    fn eq(&self, other: &SyntaxToken) -> (r: bool) {
        tree_eq(&self.tree, &other.tree) && self.root == other.root && paths_eq(
            &self.path,
            &other.path,
        )
    }
}

impl vstd::std_specs::cmp::PartialEqSpecImpl for SyntaxToken {
    open spec fn obeys_eq_spec() -> bool {
        true
    }

    open spec fn eq_spec(&self, other: &SyntaxToken) -> bool {
        same_token_occurrence(*self, *other)
    }
}

impl PartialEq for SyntaxElement {
    /// Occurrence identity; a node never equals a token.
    fn eq(&self, other: &SyntaxElement) -> (r: bool) {
        match (self, other) {
            (SyntaxElement::Node(a), SyntaxElement::Node(b)) => a == b,
            (SyntaxElement::Token(a), SyntaxElement::Token(b)) => a == b,
            _ => false,
        }
    }
}

impl vstd::std_specs::cmp::PartialEqSpecImpl for SyntaxElement {
    open spec fn obeys_eq_spec() -> bool {
        true
    }

    open spec fn eq_spec(&self, other: &SyntaxElement) -> bool {
        match (self, other) {
            (SyntaxElement::Node(a), SyntaxElement::Node(b)) => same_node_occurrence(*a, *b),
            (SyntaxElement::Token(a), SyntaxElement::Token(b)) => same_token_occurrence(*a, *b),
            _ => false,
        }
    }
}

/// Compares two paths entry for entry.
pub(crate) fn paths_eq(x: &Vec<usize>, y: &Vec<usize>) -> (r: bool)
    ensures
        r == (x@ =~= y@),
{
    if x.len() != y.len() {
        return false;
    }
    let mut k: usize = 0;
    while k < x.len()
        invariant
            k <= x.len(),
            x@.len() == y@.len(),
            forall|i: int| 0 <= i < k ==> x@[i] == y@[i],
        decreases x.len() - k,
    {
        if x[k] != y[k] {
            return false;
        }
        k = k + 1;
    }
    true
}

/// Law: identity equality.  Two node handles that denote the same
/// occurrence — however they were navigated to — are interchangeable:
/// they agree on the green node, the kind, the offset, the length and
/// the text.  (Handles at different paths are unequal by definition of
/// occurrence identity, whatever their content.)
pub proof fn lemma_identity_equality(a: SyntaxNode, b: SyntaxNode)
    requires
        a.valid(),
        b.valid(),
        same_node_occurrence(a, b),
    ensures
        a.node_spec() == b.node_spec(),
        a.offset_spec() == b.offset_spec(),
        a.kind_spec() == b.kind_spec(),
        a.len_spec() == b.len_spec(),
        a.text_of() =~= b.text_of(),
{
    let na = (*a.tree).nodes_spec();
    let ka = (*a.tree).tokens_spec();
    let nb = (*b.tree).nodes_spec();
    let kb = (*b.tree).tokens_spec();
    lemma_cong_path(na, ka, nb, kb, a.root as int, a.path@);
    assert(b.path@ == a.path@);
    assert(node_data_eq(na[a.node as int], nb[b.node as int]));
    lemma_cong_elem_text(na, ka, nb, kb, GreenElement::Node(a.node));
    assert(elem_text(na, ka, GreenElement::Node(a.node)) == node_text(na, ka, a.node as int));
    lemma_cong_wf(na, ka, nb, kb);
    assert(elem_text(nb, kb, GreenElement::Node(a.node)) == node_text(nb, kb, a.node as int));
}

/// Walks `upto` steps of `path` down from node `start`, computing the
/// node reached and its absolute offset — iteratively, so the call stack
/// stays bounded whatever the tree depth.
fn descend(tree: &Arc<GreenTree>, start: usize, path: &Vec<usize>, upto: usize) -> (r: (usize, usize))
    requires
        (**tree).wf(),
        (start as int) < (**tree).nodes_spec().len(),
        upto <= path@.len(),
        node_path_valid((**tree).nodes_spec(), start as int, path@.take(upto as int)),
    ensures
        r.0 as int == node_at((**tree).nodes_spec(), start as int, path@.take(upto as int)),
        (r.0 as int) < (**tree).nodes_spec().len(),
        r.1 as nat == offset_at(
            (**tree).nodes_spec(),
            (**tree).tokens_spec(),
            start as int,
            path@.take(upto as int),
        ),
{
    let ghost nodes = (**tree).nodes_spec();
    let ghost tokens = (**tree).tokens_spec();
    let ghost target = path@.take(upto as int);
    let mut cur: usize = start;
    let mut off: usize = 0;
    let mut k: usize = 0;
    proof {
        assert(path@.take(upto as int).subrange(0, upto as int) =~= path@.take(upto as int));
    }
    while k < upto
        invariant
            k <= upto,
            upto <= path@.len(),
            (**tree).wf(),
            nodes == (**tree).nodes_spec(),
            tokens == (**tree).tokens_spec(),
            target == path@.take(upto as int),
            (cur as int) < nodes.len(),
            node_path_valid(nodes, cur as int, target.subrange(k as int, upto as int)),
            node_at(nodes, cur as int, target.subrange(k as int, upto as int)) == node_at(nodes, start as int, target),
            off as nat + offset_at(nodes, tokens, cur as int, target.subrange(k as int, upto as int))
                == offset_at(nodes, tokens, start as int, target),
            off as nat + nodes[cur as int].text_len as nat <= nodes[start as int].text_len as nat,
        decreases upto - k,
    {
        let ghost rest = target.subrange(k as int, upto as int);
        let c = path[k];
        proof {
            assert(rest[0] == target[k as int]);
            assert(target[k as int] == path@[k as int]);
            assert(node_wf(nodes, tokens, cur as int));
            assert(rest.len() > 0);
            assert(elem_path_valid(nodes, cur as int, rest));
            assert((rest[0] as int) < nodes[cur as int].children@.len());
        }
        let cc = (*(*tree)).node_child_count(cur);
        // Sum the earlier siblings' lengths at this level.
        let ghost cs = nodes[cur as int].children@;
        let base = off;
        let mut t: usize = 0;
        proof {
            lemma_prefix_len_mono(nodes, tokens, cs, c as int, cs.len() as int);
            assert(prefix_len(nodes, tokens, cs, cs.len() as int) == nodes[cur as int].text_len as nat);
        }
        while t < c
            invariant
                t <= c,
                (c as int) < cs.len(),
                (**tree).wf(),
                nodes == (**tree).nodes_spec(),
                tokens == (**tree).tokens_spec(),
                cs == nodes[cur as int].children@,
                (cur as int) < nodes.len(),
                node_wf(nodes, tokens, cur as int),
                off as nat == base as nat + prefix_len(nodes, tokens, cs, t as int),
                base as nat + nodes[cur as int].text_len as nat <= nodes[start as int].text_len as nat,
            decreases c - t,
        {
            proof {
                lemma_prefix_len_mono(nodes, tokens, cs, t + 1, cs.len() as int);
                assert(prefix_len(nodes, tokens, cs, cs.len() as int) == nodes[cur as int].text_len as nat);
                assert(elem_valid(cs[t as int], cur as int, tokens.len() as int));
            }
            let el: usize = match (*(*tree)).node_child(cur, t) {
                GreenElement::Node(j) => (*(*tree)).node_len(j),
                GreenElement::Token(tk) => (*(*tree)).token_text(tk).len(),
            };
            off = off + el;
            t = t + 1;
        }
        proof {
            assert(elem_valid(cs[c as int], cur as int, tokens.len() as int));
        }
        let next = match (*(*tree)).node_child(cur, c) {
            GreenElement::Node(j) => j,
            GreenElement::Token(_) => {
                proof {
                    if rest.len() == 1 {
                        assert(elem_at(nodes, cur as int, rest) == cs[c as int]);
                        assert(!(elem_at(nodes, cur as int, rest) is Node));
                        assert(false);
                    } else {
                        assert(false);
                    }
                }
                cur
            },
        };
        proof {
            let ghost j = next as int;
            assert(cs[c as int] == GreenElement::Node(next));
            assert(rest.drop_first() =~= target.subrange(k + 1, upto as int));
            if rest.len() == 1 {
                lemma_empty_path(nodes, tokens, j, rest.drop_first());
                assert(elem_at(nodes, cur as int, rest) == cs[c as int]);
                assert(node_at(nodes, cur as int, rest) == j);
                assert(node_path_valid(nodes, j, rest.drop_first()));
            } else {
                assert(elem_at(nodes, cur as int, rest) == elem_at(nodes, j, rest.drop_first()));
                assert(node_at(nodes, cur as int, rest) == node_at(nodes, j, rest.drop_first()));
            }
            assert(offset_at(nodes, tokens, cur as int, rest)
                == prefix_len(nodes, tokens, cs, c as int) + offset_at(nodes, tokens, j, rest.drop_first()));
            // The child's span lies within the current node's span.
            assert(prefix_len(nodes, tokens, cs, c + 1)
                == prefix_len(nodes, tokens, cs, c as int) + elem_len(nodes, tokens, cs[c as int]));
            lemma_prefix_len_mono(nodes, tokens, cs, c + 1, cs.len() as int);
        }
        cur = next;
        k = k + 1;
    }
    proof {
        assert(target.subrange(upto as int, upto as int) =~= Seq::<usize>::empty());
    }
    (cur, off)
}

} // verus!
