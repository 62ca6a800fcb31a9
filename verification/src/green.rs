//! The green layer: immutable structural syntax data.
//!
//! Green data lives in an append-only arena ([`GreenTree`]): a list of
//! tokens and a list of nodes, where a node's children refer to earlier
//! arena entries by index.  Children are built before their parents, so
//! every node reference points strictly below the referring node; the
//! arena is therefore acyclic and supports structural sharing — the same
//! subtree entry may appear as a child of any number of parents, and
//! several roots may live side by side in one arena.

use vstd::prelude::*;

use crate::SyntaxKind;

verus! {

/// Immutable leaf: a kind plus the token's text, kept as raw bytes.
/// Its length is the byte length of its text.
#[derive(Debug, Clone, PartialEq, Eq, Hash)]
pub struct GreenToken {
    pub(crate) kind: SyntaxKind,
    pub(crate) text: Vec<u8>,
}

/// The unit of storage inside a green node's child list: an arena
/// reference to either an interior node or a leaf token.
#[derive(Debug, Clone, Copy, PartialEq, Eq, Hash, Structural)]
pub enum GreenElement {
    /// Reference to `nodes[index]` of the owning [`GreenTree`].
    Node(usize),
    /// Reference to `tokens[index]` of the owning [`GreenTree`].
    Token(usize),
}

/// Immutable interior node: a kind, the cached byte length of its text,
/// and the ordered child list (document order, never reordered).
#[derive(Debug, Clone, PartialEq, Eq, Hash)]
pub struct GreenNode {
    pub(crate) kind: SyntaxKind,
    pub(crate) text_len: usize,
    pub(crate) children: Vec<GreenElement>,
}

/// Identifier of a green node inside its arena, handed out by
/// [`GreenNodeBuilder::finish_node`] and accepted back by
/// [`GreenNodeBuilder::reuse_node`] and [`crate::syntax::SyntaxNode::new_root_at`].
#[derive(Debug, Clone, Copy, PartialEq, Eq, Hash, Structural)]
pub struct GreenId {
    pub(crate) raw: usize,
}

impl GreenId {
    /// The arena index this identifier denotes.
    pub open(crate) spec fn idx(self) -> int {
        self.raw as int
    }

    /// Reads the arena index this identifier denotes.
    pub fn index(self) -> (r: usize)
        ensures
            r as int == self.idx(),
    {
        self.raw
    }
}

/// One fully built green arena together with a distinguished root node.
///
/// A `GreenTree` is born complete from a [`GreenNodeBuilder`] and is
/// thereafter read-only; "editing" means building new nodes that reuse
/// unmodified subtrees by index.
#[derive(Debug, PartialEq, Eq, Hash)]
pub struct GreenTree {
    pub(crate) tokens: Vec<GreenToken>,
    pub(crate) nodes: Vec<GreenNode>,
    pub(crate) root: usize,
}

/// The child list of node `i` in an arena's node list.
pub open(crate) spec fn children_at(nodes: Seq<GreenNode>, i: int) -> Seq<GreenElement> {
    nodes[i].children@
}

/// Does element `e` point at a node below `node_bound` or at a valid token?
pub open(crate) spec fn elem_valid(e: GreenElement, node_bound: int, tokens_len: int) -> bool {
    match e {
        GreenElement::Node(j) => 0 <= j < node_bound,
        GreenElement::Token(k) => 0 <= k < tokens_len,
    }
}

/// Byte length of an element, read from the arena (the cached length for
/// nodes, the text length for tokens).
pub open(crate) spec fn elem_len(nodes: Seq<GreenNode>, tokens: Seq<GreenToken>, e: GreenElement) -> nat {
    match e {
        GreenElement::Node(j) => nodes[j as int].text_len as nat,
        GreenElement::Token(k) => tokens[k as int].text@.len(),
    }
}

/// Sum of the byte lengths of the first `n` elements of `s`.
pub open(crate) spec fn prefix_len(nodes: Seq<GreenNode>, tokens: Seq<GreenToken>, s: Seq<GreenElement>, n: int) -> nat
    decreases n,
{
    if n <= 0 {
        0
    } else {
        prefix_len(nodes, tokens, s, n - 1) + elem_len(nodes, tokens, s[n - 1])
    }
}

/// Well-formedness of one node: every child points strictly below the
/// node (or at a valid token), and the cached length is the sum of the
/// children's lengths.
pub open(crate) spec fn node_wf(nodes: Seq<GreenNode>, tokens: Seq<GreenToken>, i: int) -> bool {
    &&& forall|c: int|
        0 <= c < nodes[i].children@.len() ==> elem_valid(#[trigger] nodes[i].children@[c], i, tokens.len() as int)
    &&& nodes[i].text_len as nat == prefix_len(nodes, tokens, nodes[i].children@, nodes[i].children@.len() as int)
}

/// Well-formedness of a whole arena.
pub open(crate) spec fn arena_wf(nodes: Seq<GreenNode>, tokens: Seq<GreenToken>) -> bool {
    forall|i: int| 0 <= i < nodes.len() ==> node_wf(nodes, tokens, i)
}

/// Termination rank of an element: node references descend strictly.
pub open(crate) spec fn elem_rank(e: GreenElement) -> int {
    match e {
        GreenElement::Node(j) => j + 1,
        GreenElement::Token(_) => 0,
    }
}

/// The text of an element: a token's bytes, or the concatenation of a
/// node's children's texts.
pub open(crate) spec fn elem_text(nodes: Seq<GreenNode>, tokens: Seq<GreenToken>, e: GreenElement) -> Seq<u8>
    decreases elem_rank(e), 0int, 0int,
        when arena_wf(nodes, tokens) && elem_valid(e, nodes.len() as int, tokens.len() as int)
{
    match e {
        GreenElement::Node(j) => node_text(nodes, tokens, j as int),
        GreenElement::Token(k) => tokens[k as int].text@,
    }
}

/// The text of node `j`: its children's texts concatenated in order.
pub open(crate) spec fn node_text(nodes: Seq<GreenNode>, tokens: Seq<GreenToken>, j: int) -> Seq<u8>
    decreases j, 2int, 0int,
        when arena_wf(nodes, tokens) && 0 <= j < nodes.len()
{
    children_text(nodes, tokens, j, nodes[j].children@.len() as int)
}

/// Domain condition of [`children_text`]: a well-formed arena, a valid
/// node index and a child count within range.
pub open(crate) spec fn children_text_dom(nodes: Seq<GreenNode>, tokens: Seq<GreenToken>, j: int, n: int) -> bool {
    &&& arena_wf(nodes, tokens)
    &&& 0 <= j < nodes.len()
    &&& n <= nodes[j].children@.len()
}

/// Concatenated text of the first `n` children of node `j`.
pub open(crate) spec fn children_text(nodes: Seq<GreenNode>, tokens: Seq<GreenToken>, j: int, n: int) -> Seq<u8>
    decreases j, 1int, n,
        when children_text_dom(nodes, tokens, j, n)
        via children_text_decreases
{
    if n <= 0 {
        Seq::empty()
    } else {
        children_text(nodes, tokens, j, n - 1) + elem_text(nodes, tokens, nodes[j].children@[n - 1])
    }
}

#[via_fn]
proof fn children_text_decreases(nodes: Seq<GreenNode>, tokens: Seq<GreenToken>, j: int, n: int) {
    if 0 < n <= nodes[j].children@.len() {
        assert(node_wf(nodes, tokens, j));
        assert(elem_valid(nodes[j].children@[n - 1], j, tokens.len() as int));
    }
}

/// Concatenated text of the first `n` elements of a free-standing element
/// list (one not yet wrapped into a node, such as an open builder frame).
pub open(crate) spec fn elems_text(nodes: Seq<GreenNode>, tokens: Seq<GreenToken>, s: Seq<GreenElement>, n: int) -> Seq<u8>
    decreases nodes.len() as int, 3int, n,
        when arena_wf(nodes, tokens) && (forall|c: int|
            0 <= c < n ==> elem_valid(#[trigger] s[c], nodes.len() as int, tokens.len() as int))
{
    if n <= 0 {
        Seq::empty()
    } else {
        elems_text(nodes, tokens, s, n - 1) + elem_text(nodes, tokens, s[n - 1])
    }
}

// ---------------------------------------------------------------------
// Lemmas about lengths.
// ---------------------------------------------------------------------

/// The byte length of an element's text equals its recorded length.
pub(crate) proof fn lemma_elem_text_len(nodes: Seq<GreenNode>, tokens: Seq<GreenToken>, e: GreenElement)
    requires
        arena_wf(nodes, tokens),
        elem_valid(e, nodes.len() as int, tokens.len() as int),
    ensures
        elem_text(nodes, tokens, e).len() == elem_len(nodes, tokens, e),
    decreases elem_rank(e), 0int, 0int,
{
    match e {
        GreenElement::Node(j) => {
            assert(node_wf(nodes, tokens, j as int));
            lemma_children_text_len(nodes, tokens, j as int, nodes[j as int].children@.len() as int);
        },
        GreenElement::Token(_) => {},
    }
}

/// The concatenation of the first `n` children's texts has length
/// `prefix_len(.., n)`.
pub(crate) proof fn lemma_children_text_len(nodes: Seq<GreenNode>, tokens: Seq<GreenToken>, j: int, n: int)
    requires
        children_text_dom(nodes, tokens, j, n),
    ensures
        children_text(nodes, tokens, j, n).len() == prefix_len(nodes, tokens, nodes[j].children@, n),
    decreases j, 1int, n,
{
    if n > 0 {
        lemma_children_text_len(nodes, tokens, j, n - 1);
        assert(node_wf(nodes, tokens, j));
        let e = nodes[j].children@[n - 1];
        assert(elem_valid(e, j, tokens.len() as int));
        lemma_elem_text_len(nodes, tokens, e);
    }
}

/// Free-standing variant of [`lemma_children_text_len`].
pub(crate) proof fn lemma_elems_text_len(nodes: Seq<GreenNode>, tokens: Seq<GreenToken>, s: Seq<GreenElement>, n: int)
    requires
        arena_wf(nodes, tokens),
        forall|c: int| 0 <= c < n ==> elem_valid(#[trigger] s[c], nodes.len() as int, tokens.len() as int),
    ensures
        elems_text(nodes, tokens, s, n).len() == prefix_len(nodes, tokens, s, n),
    decreases n,
{
    if n > 0 {
        lemma_elems_text_len(nodes, tokens, s, n - 1);
        lemma_elem_text_len(nodes, tokens, s[n - 1]);
    }
}

/// Prefix sums of child lengths never shrink as more children are taken.
pub(crate) proof fn lemma_prefix_len_mono(nodes: Seq<GreenNode>, tokens: Seq<GreenToken>, s: Seq<GreenElement>, n1: int, n2: int)
    requires
        n1 <= n2,
    ensures
        prefix_len(nodes, tokens, s, n1) <= prefix_len(nodes, tokens, s, n2),
    decreases n2,
{
    if n1 < n2 && n2 > 0 {
        lemma_prefix_len_mono(nodes, tokens, s, n1, n2 - 1);
    }
}

// ---------------------------------------------------------------------
// Lemmas: texts depend only on the entries they reference, so they are
// stable when the arena is extended and when a list agrees elementwise.
// ---------------------------------------------------------------------

/// Arena extension: `(nodes2, tokens2)` extends `(nodes1, tokens1)`
/// elementwise.
pub open(crate) spec fn arena_le(nodes1: Seq<GreenNode>, tokens1: Seq<GreenToken>, nodes2: Seq<GreenNode>, tokens2: Seq<GreenToken>) -> bool {
    &&& nodes1.len() <= nodes2.len()
    &&& tokens1.len() <= tokens2.len()
    &&& forall|i: int| 0 <= i < nodes1.len() ==> nodes2[i] == nodes1[i]
    &&& forall|k: int| 0 <= k < tokens1.len() ==> tokens2[k] == tokens1[k]
}

/// Element lengths and prefix sums are stable under arena extension.
pub(crate) proof fn lemma_prefix_len_ext(nodes1: Seq<GreenNode>, tokens1: Seq<GreenToken>, nodes2: Seq<GreenNode>, tokens2: Seq<GreenToken>, s: Seq<GreenElement>, n: int)
    requires
        arena_le(nodes1, tokens1, nodes2, tokens2),
        forall|c: int| 0 <= c < n ==> elem_valid(#[trigger] s[c], nodes1.len() as int, tokens1.len() as int),
    ensures
        prefix_len(nodes2, tokens2, s, n) == prefix_len(nodes1, tokens1, s, n),
    decreases n,
{
    if n > 0 {
        lemma_prefix_len_ext(nodes1, tokens1, nodes2, tokens2, s, n - 1);
    }
}

/// An element's text is stable under arena extension.
pub(crate) proof fn lemma_elem_text_ext(nodes1: Seq<GreenNode>, tokens1: Seq<GreenToken>, nodes2: Seq<GreenNode>, tokens2: Seq<GreenToken>, e: GreenElement)
    requires
        arena_wf(nodes1, tokens1),
        arena_wf(nodes2, tokens2),
        arena_le(nodes1, tokens1, nodes2, tokens2),
        elem_valid(e, nodes1.len() as int, tokens1.len() as int),
    ensures
        elem_text(nodes2, tokens2, e) == elem_text(nodes1, tokens1, e),
    decreases elem_rank(e), 0int, 0int,
{
    match e {
        GreenElement::Node(j) => {
            assert(node_wf(nodes1, tokens1, j as int));
            lemma_children_text_ext(nodes1, tokens1, nodes2, tokens2, j as int, nodes1[j as int].children@.len() as int);
        },
        GreenElement::Token(_) => {},
    }
}

/// A node's child-prefix text is stable under arena extension.
pub(crate) proof fn lemma_children_text_ext(nodes1: Seq<GreenNode>, tokens1: Seq<GreenToken>, nodes2: Seq<GreenNode>, tokens2: Seq<GreenToken>, j: int, n: int)
    requires
        children_text_dom(nodes1, tokens1, j, n),
        arena_wf(nodes2, tokens2),
        arena_le(nodes1, tokens1, nodes2, tokens2),
    ensures
        children_text(nodes2, tokens2, j, n) == children_text(nodes1, tokens1, j, n),
    decreases j, 1int, n,
{
    if n > 0 {
        lemma_children_text_ext(nodes1, tokens1, nodes2, tokens2, j, n - 1);
        assert(node_wf(nodes1, tokens1, j));
        let e = nodes1[j].children@[n - 1];
        assert(elem_valid(e, j, tokens1.len() as int));
        lemma_elem_text_ext(nodes1, tokens1, nodes2, tokens2, e);
    }
}

/// A free-standing element list's text is stable under arena extension.
pub(crate) proof fn lemma_elems_text_ext(nodes1: Seq<GreenNode>, tokens1: Seq<GreenToken>, nodes2: Seq<GreenNode>, tokens2: Seq<GreenToken>, s: Seq<GreenElement>, n: int)
    requires
        arena_wf(nodes1, tokens1),
        arena_wf(nodes2, tokens2),
        arena_le(nodes1, tokens1, nodes2, tokens2),
        forall|c: int| 0 <= c < n ==> elem_valid(#[trigger] s[c], nodes1.len() as int, tokens1.len() as int),
    ensures
        elems_text(nodes2, tokens2, s, n) == elems_text(nodes1, tokens1, s, n),
    decreases n,
{
    if n > 0 {
        lemma_elems_text_ext(nodes1, tokens1, nodes2, tokens2, s, n - 1);
        lemma_elem_text_ext(nodes1, tokens1, nodes2, tokens2, s[n - 1]);
    }
}

/// The text of a list prefix depends only on the elements of that prefix.
pub(crate) proof fn lemma_elems_text_agree(nodes: Seq<GreenNode>, tokens: Seq<GreenToken>, s1: Seq<GreenElement>, s2: Seq<GreenElement>, n: int)
    requires
        arena_wf(nodes, tokens),
        forall|c: int| 0 <= c < n ==> s2[c] == s1[c],
        forall|c: int| 0 <= c < n ==> elem_valid(#[trigger] s1[c], nodes.len() as int, tokens.len() as int),
    ensures
        elems_text(nodes, tokens, s2, n) == elems_text(nodes, tokens, s1, n),
        prefix_len(nodes, tokens, s2, n) == prefix_len(nodes, tokens, s1, n),
    decreases n,
{
    if n > 0 {
        lemma_elems_text_agree(nodes, tokens, s1, s2, n - 1);
        assert(s2[n - 1] == s1[n - 1]);
    }
}

/// A node's child-prefix text is the free-standing text of its child list.
pub(crate) proof fn lemma_children_text_is_elems_text(nodes: Seq<GreenNode>, tokens: Seq<GreenToken>, j: int, n: int)
    requires
        children_text_dom(nodes, tokens, j, n),
    ensures
        children_text(nodes, tokens, j, n) == elems_text(nodes, tokens, nodes[j].children@, n),
    decreases n,
{
    if n > 0 {
        lemma_children_text_is_elems_text(nodes, tokens, j, n - 1);
        assert(node_wf(nodes, tokens, j));
    }
}

// ---------------------------------------------------------------------
// Structural (deep) equality of green data, and its congruences.
// ---------------------------------------------------------------------

/// Deep equality of two green nodes: same kind, same recorded length,
/// same child references.
pub open(crate) spec fn node_data_eq(a: GreenNode, b: GreenNode) -> bool {
    &&& a.kind == b.kind
    &&& a.text_len == b.text_len
    &&& a.children@ =~= b.children@
}

/// Deep equality of two green tokens: same kind, same text.
pub open(crate) spec fn token_data_eq(a: GreenToken, b: GreenToken) -> bool {
    &&& a.kind == b.kind
    &&& a.text@ =~= b.text@
}

/// Deep equality of two arenas, entry for entry.
pub open(crate) spec fn arena_eq(na: Seq<GreenNode>, ka: Seq<GreenToken>, nb: Seq<GreenNode>, kb: Seq<GreenToken>) -> bool {
    &&& na.len() == nb.len()
    &&& ka.len() == kb.len()
    &&& forall|i: int| 0 <= i < na.len() ==> node_data_eq(#[trigger] na[i], #[trigger] nb[i])
    &&& forall|k: int| 0 <= k < ka.len() ==> token_data_eq(#[trigger] ka[k], #[trigger] kb[k])
}

/// Deep equality of two green trees (used for testing and for the red
/// layer's occurrence identity), distinct from red-handle equality.
pub open(crate) spec fn tree_eq_spec(a: GreenTree, b: GreenTree) -> bool {
    &&& arena_eq(a.nodes@, a.tokens@, b.nodes@, b.tokens@)
    &&& a.root == b.root
}

/// Deeply equal arenas assign every element the same length.
pub(crate) proof fn lemma_cong_prefix_len(na: Seq<GreenNode>, ka: Seq<GreenToken>, nb: Seq<GreenNode>, kb: Seq<GreenToken>, s: Seq<GreenElement>, n: int)
    requires
        arena_eq(na, ka, nb, kb),
        forall|c: int| 0 <= c < n ==> elem_valid(#[trigger] s[c], na.len() as int, ka.len() as int),
    ensures
        prefix_len(na, ka, s, n) == prefix_len(nb, kb, s, n),
    decreases n,
{
    if n > 0 {
        lemma_cong_prefix_len(na, ka, nb, kb, s, n - 1);
    }
}

/// Well-formedness carries across deeply equal arenas.
pub(crate) proof fn lemma_cong_wf(na: Seq<GreenNode>, ka: Seq<GreenToken>, nb: Seq<GreenNode>, kb: Seq<GreenToken>)
    requires
        arena_eq(na, ka, nb, kb),
        arena_wf(na, ka),
    ensures
        arena_wf(nb, kb),
{
    assert forall|i: int| 0 <= i < nb.len() implies node_wf(nb, kb, i) by {
        assert(node_wf(na, ka, i));
        assert(nb[i].children@ =~= na[i].children@);
        lemma_cong_prefix_len(na, ka, nb, kb, na[i].children@, na[i].children@.len() as int);
    }
}

/// Deeply equal arenas assign every element the same text.
pub(crate) proof fn lemma_cong_elem_text(na: Seq<GreenNode>, ka: Seq<GreenToken>, nb: Seq<GreenNode>, kb: Seq<GreenToken>, e: GreenElement)
    requires
        arena_eq(na, ka, nb, kb),
        arena_wf(na, ka),
        elem_valid(e, na.len() as int, ka.len() as int),
    ensures
        elem_text(na, ka, e) =~= elem_text(nb, kb, e),
    decreases elem_rank(e), 0int, 0int,
{
    lemma_cong_wf(na, ka, nb, kb);
    match e {
        GreenElement::Node(j) => {
            assert(node_wf(na, ka, j as int));
            lemma_cong_children_text(na, ka, nb, kb, j as int, na[j as int].children@.len() as int);
            assert(nb[j as int].children@ =~= na[j as int].children@);
        },
        GreenElement::Token(k) => {
            assert(token_data_eq(ka[k as int], kb[k as int]));
        },
    }
}

/// Deeply equal arenas assign every child prefix the same text.
pub(crate) proof fn lemma_cong_children_text(na: Seq<GreenNode>, ka: Seq<GreenToken>, nb: Seq<GreenNode>, kb: Seq<GreenToken>, j: int, n: int)
    requires
        arena_eq(na, ka, nb, kb),
        children_text_dom(na, ka, j, n),
    ensures
        children_text(na, ka, j, n) =~= children_text(nb, kb, j, n),
    decreases j, 1int, n,
{
    lemma_cong_wf(na, ka, nb, kb);
    assert(nb[j].children@ =~= na[j].children@);
    if n > 0 {
        lemma_cong_children_text(na, ka, nb, kb, j, n - 1);
        assert(node_wf(na, ka, j));
        let e = na[j].children@[n - 1];
        assert(elem_valid(e, j, ka.len() as int));
        lemma_cong_elem_text(na, ka, nb, kb, e);
    }
}

/// Compares two element lists for equality.
fn elems_eq(x: &Vec<GreenElement>, y: &Vec<GreenElement>) -> (r: bool)
    ensures
        r == (x@ =~= y@),
{
    if x.len() != y.len() {
        return false;
    }
    let mut k: usize = 0;
    while k < x.len()
        invariant
            k <= x.len(),
            x@.len() == y@.len(),
            forall|i: int| 0 <= i < k ==> x@[i] == y@[i],
        decreases x.len() - k,
    {
        if x[k] != y[k] {
            return false;
        }
        k = k + 1;
    }
    true
}

/// Compares two byte strings for equality.
fn bytes_eq(x: &Vec<u8>, y: &Vec<u8>) -> (r: bool)
    ensures
        r == (x@ =~= y@),
{
    if x.len() != y.len() {
        return false;
    }
    let mut k: usize = 0;
    while k < x.len()
        invariant
            k <= x.len(),
            x@.len() == y@.len(),
            forall|i: int| 0 <= i < k ==> x@[i] == y@[i],
        decreases x.len() - k,
    {
        if x[k] != y[k] {
            return false;
        }
        k = k + 1;
    }
    true
}

/// Compares two green trees deeply: same entries, same root.
pub(crate) fn tree_eq(a: &GreenTree, b: &GreenTree) -> (r: bool)
    ensures
        r == tree_eq_spec(*a, *b),
{
    if a.root != b.root || a.nodes.len() != b.nodes.len() || a.tokens.len() != b.tokens.len() {
        return false;
    }
    let mut i: usize = 0;
    while i < a.nodes.len()
        invariant
            i <= a.nodes@.len(),
            a.nodes@.len() == b.nodes@.len(),
            forall|j: int| 0 <= j < i ==> node_data_eq(#[trigger] a.nodes@[j], #[trigger] b.nodes@[j]),
        decreases a.nodes@.len() - i,
    {
        if a.nodes[i].kind != b.nodes[i].kind {
            return false;
        }
        if a.nodes[i].text_len != b.nodes[i].text_len {
            return false;
        }
        if !elems_eq(&a.nodes[i].children, &b.nodes[i].children) {
            return false;
        }
        i = i + 1;
    }
    let mut k: usize = 0;
    while k < a.tokens.len()
        invariant
            k <= a.tokens@.len(),
            a.tokens@.len() == b.tokens@.len(),
            forall|j: int| 0 <= j < a.nodes@.len() ==> node_data_eq(#[trigger] a.nodes@[j], #[trigger] b.nodes@[j]),
            forall|j: int| 0 <= j < k ==> token_data_eq(#[trigger] a.tokens@[j], #[trigger] b.tokens@[j]),
        decreases a.tokens@.len() - k,
    {
        if a.tokens[k].kind != b.tokens[k].kind {
            return false;
        }
        if !bytes_eq(&a.tokens[k].text, &b.tokens[k].text) {
            return false;
        }
        k = k + 1;
    }
    true
}

// ---------------------------------------------------------------------
// The length invariant as a public law.
// ---------------------------------------------------------------------

/// Law: for every node of a green tree, the recorded length equals the
/// sum of its children's lengths, and both equal the byte length of the
/// node's text (recursively down to token byte lengths).
pub proof fn lemma_length_invariant(tree: GreenTree, i: int)
    requires
        arena_wf(tree.nodes_spec(), tree.tokens_spec()),
        0 <= i < tree.nodes_spec().len(),
    ensures
        tree.node_len_at(i) == tree.children_len_sum(i),
        node_text(tree.nodes_spec(), tree.tokens_spec(), i).len() == tree.node_len_at(i),
{
    assert(node_wf(tree.nodes_spec(), tree.tokens_spec(), i));
    lemma_children_text_len(
        tree.nodes_spec(),
        tree.tokens_spec(),
        i,
        tree.nodes_spec()[i].children@.len() as int,
    );
}

impl GreenTree {
    /// Every node of the arena is well formed and the root index is in range.
    #[verifier::type_invariant]
    pub(crate) open(crate) spec fn wf(self) -> bool {
        &&& arena_wf(self.nodes@, self.tokens@)
        &&& self.root < self.nodes@.len()
    }

    /// Spec view of the node list.
    pub open(crate) spec fn nodes_spec(&self) -> Seq<GreenNode> {
        self.nodes@
    }

    /// Spec view of the token list.
    pub open(crate) spec fn tokens_spec(&self) -> Seq<GreenToken> {
        self.tokens@
    }

    /// Spec view of the root index.
    pub open(crate) spec fn root_spec(&self) -> int {
        self.root as int
    }

    /// The full text of the tree: the root's leaf tokens concatenated in
    /// document order.
    pub open(crate) spec fn text_spec(&self) -> Seq<u8> {
        node_text(self.nodes@, self.tokens@, self.root as int)
    }

    /// The recorded byte length of node `i`.
    pub open(crate) spec fn node_len_at(&self, i: int) -> nat {
        self.nodes@[i].text_len as nat
    }

    /// The sum of the byte lengths of node `i`'s children.
    pub open(crate) spec fn children_len_sum(&self, i: int) -> nat {
        prefix_len(self.nodes@, self.tokens@, self.nodes@[i].children@, self.nodes@[i].children@.len() as int)
    }

    /// The kind of node `i`.
    pub open(crate) spec fn node_kind_at(&self, i: int) -> SyntaxKind {
        self.nodes@[i].kind
    }

    /// The child list of node `i`.
    pub open(crate) spec fn node_children_at(&self, i: int) -> Seq<GreenElement> {
        self.nodes@[i].children@
    }

    /// The kind of token `k`.
    pub open(crate) spec fn token_kind_at(&self, k: int) -> SyntaxKind {
        self.tokens@[k].kind
    }

    /// The text of token `k`.
    pub open(crate) spec fn token_text_at(&self, k: int) -> Seq<u8> {
        self.tokens@[k].text@
    }

    /// The recorded byte length of token `k`.
    pub open(crate) spec fn token_len_at(&self, k: int) -> nat {
        self.tokens@[k].text@.len()
    }

    /// Reads the kind of node `i`.
    pub(crate) fn node_kind(&self, i: usize) -> (r: SyntaxKind)
        requires
            i < self.nodes_spec().len(),
        ensures
            r == self.node_kind_at(i as int),
    {
        self.nodes[i].kind
    }

    /// Reads the recorded byte length of node `i`.
    pub(crate) fn node_len(&self, i: usize) -> (r: usize)
        requires
            i < self.nodes_spec().len(),
        ensures
            r == self.node_len_at(i as int),
    {
        self.nodes[i].text_len
    }

    /// Reads the number of children of node `i`.
    pub(crate) fn node_child_count(&self, i: usize) -> (r: usize)
        requires
            i < self.nodes_spec().len(),
        ensures
            r == self.node_children_at(i as int).len(),
    {
        self.nodes[i].children.len()
    }

    /// Reads child `c` of node `i`.
    pub(crate) fn node_child(&self, i: usize, c: usize) -> (r: GreenElement)
        requires
            i < self.nodes_spec().len(),
            c < self.node_children_at(i as int).len(),
        ensures
            r == self.node_children_at(i as int)[c as int],
    {
        self.nodes[i].children[c]
    }

    /// Reads the kind of token `k`.
    pub(crate) fn token_kind(&self, k: usize) -> (r: SyntaxKind)
        requires
            k < self.tokens_spec().len(),
        ensures
            r == self.token_kind_at(k as int),
    {
        self.tokens[k].kind
    }

    /// Borrows the text of token `k`.
    pub(crate) fn token_text(&self, k: usize) -> (r: &Vec<u8>)
        requires
            k < self.tokens_spec().len(),
        ensures
            r@ == self.token_text_at(k as int),
    {
        &self.tokens[k].text
    }

    /// The arena index of the distinguished root node.
    pub(crate) fn root_index(&self) -> (r: usize)
        ensures
            r == self.root_spec(),
            r < self.nodes_spec().len(),
    {
        proof {
            use_type_invariant(&*self);
        }
        self.root
    }

    /// Number of node entries the arena stores (shared subtrees count once).
    pub fn node_count(&self) -> (r: usize)
        ensures
            r == self.nodes_spec().len(),
    {
        self.nodes.len()
    }

    /// Number of token entries the arena stores.
    pub fn token_count(&self) -> (r: usize)
        ensures
            r == self.tokens_spec().len(),
    {
        self.tokens.len()
    }
}

// ---------------------------------------------------------------------
// The builder.
// ---------------------------------------------------------------------

/// An open frame of the builder: a started node whose children are still
/// being collected.
#[derive(Debug)]
pub(crate) struct GreenFrame {
    pub(crate) kind: SyntaxKind,
    pub(crate) children: Vec<GreenElement>,
}

/// Stack-based, bottom-up constructor of green trees.
///
/// The caller feeds an ordered event stream — `start_node`, `token`,
/// `finish_node` — and ends with `finish`.  Unbalanced use (finishing with
/// open frames, emitting a token outside any node) is a caller defect and
/// is excluded by preconditions rather than detected at run time.
#[derive(Debug)]
pub struct GreenNodeBuilder {
    pub(crate) nodes: Vec<GreenNode>,
    pub(crate) tokens: Vec<GreenToken>,
    pub(crate) stack: Vec<GreenFrame>,
    pub(crate) roots: Vec<usize>,
    pub(crate) total_len: usize,
}

/// Concatenated text of the first `n` finished roots.
pub open(crate) spec fn roots_text(nodes: Seq<GreenNode>, tokens: Seq<GreenToken>, roots: Seq<usize>, n: int) -> Seq<u8>
    decreases n,
{
    if n <= 0 {
        Seq::empty()
    } else {
        roots_text(nodes, tokens, roots, n - 1) + node_text(nodes, tokens, roots[n - 1] as int)
    }
}

/// Concatenated text of the first `n` open frames (outermost first).
pub open(crate) spec fn frames_text(nodes: Seq<GreenNode>, tokens: Seq<GreenToken>, stack: Seq<GreenFrame>, n: int) -> Seq<u8>
    decreases n,
{
    if n <= 0 {
        Seq::empty()
    } else {
        frames_text(nodes, tokens, stack, n - 1) + elems_text(
            nodes,
            tokens,
            stack[n - 1].children@,
            stack[n - 1].children@.len() as int,
        )
    }
}

/// Roots' texts are stable under arena extension.
proof fn lemma_roots_text_ext(nodes1: Seq<GreenNode>, tokens1: Seq<GreenToken>, nodes2: Seq<GreenNode>, tokens2: Seq<GreenToken>, roots: Seq<usize>, n: int)
    requires
        arena_wf(nodes1, tokens1),
        arena_wf(nodes2, tokens2),
        arena_le(nodes1, tokens1, nodes2, tokens2),
        forall|r: int| 0 <= r < n ==> (#[trigger] roots[r]) < nodes1.len(),
    ensures
        roots_text(nodes2, tokens2, roots, n) == roots_text(nodes1, tokens1, roots, n),
    decreases n,
{
    if n > 0 {
        lemma_roots_text_ext(nodes1, tokens1, nodes2, tokens2, roots, n - 1);
        lemma_elem_text_ext(nodes1, tokens1, nodes2, tokens2, GreenElement::Node(roots[n - 1]));
    }
}

/// Frames' texts are stable under arena extension.
proof fn lemma_frames_text_ext(nodes1: Seq<GreenNode>, tokens1: Seq<GreenToken>, nodes2: Seq<GreenNode>, tokens2: Seq<GreenToken>, stack: Seq<GreenFrame>, n: int)
    requires
        arena_wf(nodes1, tokens1),
        arena_wf(nodes2, tokens2),
        arena_le(nodes1, tokens1, nodes2, tokens2),
        forall|f: int, c: int|
            0 <= f < n && 0 <= c < stack[f].children@.len() ==> elem_valid(
                #[trigger] stack[f].children@[c],
                nodes1.len() as int,
                tokens1.len() as int,
            ),
    ensures
        frames_text(nodes2, tokens2, stack, n) == frames_text(nodes1, tokens1, stack, n),
    decreases n,
{
    if n > 0 {
        lemma_frames_text_ext(nodes1, tokens1, nodes2, tokens2, stack, n - 1);
        lemma_elems_text_ext(
            nodes1,
            tokens1,
            nodes2,
            tokens2,
            stack[n - 1].children@,
            stack[n - 1].children@.len() as int,
        );
    }
}

/// Roots' texts depend only on the roots of the prefix.
proof fn lemma_roots_text_agree(nodes: Seq<GreenNode>, tokens: Seq<GreenToken>, s1: Seq<usize>, s2: Seq<usize>, n: int)
    requires
        forall|r: int| 0 <= r < n ==> s2[r] == s1[r],
    ensures
        roots_text(nodes, tokens, s2, n) == roots_text(nodes, tokens, s1, n),
    decreases n,
{
    if n > 0 {
        lemma_roots_text_agree(nodes, tokens, s1, s2, n - 1);
        assert(s2[n - 1] == s1[n - 1]);
    }
}

/// Frames' texts depend only on the frames of the prefix.
proof fn lemma_frames_text_agree(nodes: Seq<GreenNode>, tokens: Seq<GreenToken>, s1: Seq<GreenFrame>, s2: Seq<GreenFrame>, n: int)
    requires
        forall|f: int| 0 <= f < n ==> s2[f] == s1[f],
    ensures
        frames_text(nodes, tokens, s2, n) == frames_text(nodes, tokens, s1, n),
    decreases n,
{
    if n > 0 {
        lemma_frames_text_agree(nodes, tokens, s1, s2, n - 1);
        assert(s2[n - 1] == s1[n - 1]);
    }
}

impl GreenNodeBuilder {
    /// Builder validity: the partial arena is well formed, every open
    /// frame and finished root references valid entries, and `total_len`
    /// is the byte length of the text emitted so far.
    pub open(crate) spec fn wf(self) -> bool {
        &&& arena_wf(self.nodes@, self.tokens@)
        &&& forall|f: int, c: int|
            0 <= f < self.stack@.len() && 0 <= c < self.stack@[f].children@.len() ==> elem_valid(
                #[trigger] self.stack@[f].children@[c],
                self.nodes@.len() as int,
                self.tokens@.len() as int,
            )
        &&& forall|r: int| 0 <= r < self.roots@.len() ==> (#[trigger] self.roots@[r]) < self.nodes@.len()
        &&& self.total_len as nat == self.text_spec().len()
    }

    /// Spec view of the node arena built so far.
    pub open(crate) spec fn nodes_spec(&self) -> Seq<GreenNode> {
        self.nodes@
    }

    /// Spec view of the token arena built so far.
    pub open(crate) spec fn tokens_spec(&self) -> Seq<GreenToken> {
        self.tokens@
    }

    /// Spec view of the finished roots.
    pub open(crate) spec fn roots_spec(self) -> Seq<usize> {
        self.roots@
    }

    /// Spec view of the open frames, outermost first: each frame's kind
    /// and the children collected in it so far.
    pub open(crate) spec fn frames_spec(self) -> Seq<(SyntaxKind, Seq<GreenElement>)> {
        self.stack@.map_values(|fr: GreenFrame| (fr.kind, fr.children@))
    }

    /// The kind of built node `i`.
    pub open(crate) spec fn node_kind_spec(self, i: int) -> SyntaxKind {
        self.nodes@[i].kind
    }

    /// The child list of built node `i`.
    pub open(crate) spec fn node_children_spec(self, i: int) -> Seq<GreenElement> {
        self.nodes@[i].children@
    }

    /// The kind of built token `k`.
    pub open(crate) spec fn token_kind_spec(self, k: int) -> SyntaxKind {
        self.tokens@[k].kind
    }

    /// The text of built token `k`.
    pub open(crate) spec fn token_text_spec(self, k: int) -> Seq<u8> {
        self.tokens@[k].text@
    }

    /// Number of open frames.
    pub open(crate) spec fn depth_spec(self) -> int {
        self.stack@.len() as int
    }

    /// Number of finished roots.
    pub open(crate) spec fn root_count_spec(self) -> int {
        self.roots@.len() as int
    }

    /// Number of nodes built so far.
    pub open(crate) spec fn node_count_spec(self) -> int {
        self.nodes@.len() as int
    }

    /// Number of tokens built so far.
    pub open(crate) spec fn token_count_spec(self) -> int {
        self.tokens@.len() as int
    }

    /// The text of a built node, by identifier.
    pub open(crate) spec fn node_text_spec(self, id: GreenId) -> Seq<u8> {
        node_text(self.nodes@, self.tokens@, id.idx())
    }

    /// The recorded byte length of a built node, by identifier.
    pub open(crate) spec fn node_len_spec(self, id: GreenId) -> nat {
        self.nodes@[id.idx()].text_len as nat
    }

    /// All token text emitted so far, in document order: the texts of the
    /// finished roots followed by the texts collected in the open frames,
    /// outermost first.
    pub open(crate) spec fn text_spec(&self) -> Seq<u8> {
        roots_text(self.nodes@, self.tokens@, self.roots@, self.roots@.len() as int)
            + frames_text(self.nodes@, self.tokens@, self.stack@, self.stack@.len() as int)
    }

    /// A fresh builder: no frames, no roots, no text.
    pub fn new() -> (b: GreenNodeBuilder)
        ensures
            b.wf(),
            b.depth_spec() == 0,
            b.root_count_spec() == 0,
            b.node_count_spec() == 0,
            b.token_count_spec() == 0,
            b.text_spec() == Seq::<u8>::empty(),
            b.frames_spec() == Seq::<(SyntaxKind, Seq<GreenElement>)>::empty(),
    {
        let b = GreenNodeBuilder {
            nodes: Vec::new(),
            tokens: Vec::new(),
            stack: Vec::new(),
            roots: Vec::new(),
            total_len: 0,
        };
        proof {
            assert(b.frames_spec() =~~= Seq::<(SyntaxKind, Seq<GreenElement>)>::empty());
        }
        b
    }

    /// Number of open frames (started nodes not yet finished).
    pub fn depth(&self) -> (r: usize)
        ensures
            r == self.depth_spec(),
    {
        self.stack.len()
    }

    /// Number of finished roots.
    pub fn root_count(&self) -> (r: usize)
        ensures
            r == self.root_count_spec(),
    {
        self.roots.len()
    }

    /// Total byte length of the token text emitted so far.
    pub fn text_len(&self) -> (r: usize)
        requires
            self.wf(),
        ensures
            r == self.text_spec().len(),
    {
        self.total_len
    }

    /// The recorded byte length of an already built node.
    pub fn node_len(&self, id: GreenId) -> (r: usize)
        requires
            self.wf(),
            0 <= id.idx() < self.node_count_spec(),
        ensures
            r == self.node_len_spec(id),
    {
        self.nodes[id.raw].text_len
    }

    /// Opens a new node with the given kind: pushes an empty frame of
    /// exactly that kind.  The text emitted so far is unchanged.
    pub fn start_node(&mut self, kind: SyntaxKind)
        requires
            old(self).wf(),
        ensures
            final(self).wf(),
            final(self).depth_spec() == old(self).depth_spec() + 1,
            final(self).text_spec() == old(self).text_spec(),
            final(self).nodes_spec() == old(self).nodes_spec(),
            final(self).tokens_spec() == old(self).tokens_spec(),
            final(self).roots_spec() == old(self).roots_spec(),
            final(self).frames_spec() == old(self).frames_spec().push(
                (kind, Seq::<GreenElement>::empty()),
            ),
    {
        let ghost old_stack = self.stack@;
        self.stack.push(GreenFrame { kind, children: Vec::new() });
        proof {
            lemma_frames_text_agree(self.nodes@, self.tokens@, old_stack, self.stack@, old_stack.len() as int);
            assert(self.stack@[old_stack.len() as int].children@.len() == 0);
            assert(self.frames_spec() =~~= old(self).frames_spec().push(
                (kind, Seq::<GreenElement>::empty()),
            ));
        }
    }

    /// Appends a token of exactly the given kind and text to the current
    /// (innermost) open frame.  This is the only operation that adds text:
    /// afterwards the text emitted so far is the old text followed by
    /// exactly the token's bytes.
    pub fn token(&mut self, kind: SyntaxKind, text: Vec<u8>)
        requires
            old(self).wf(),
            old(self).depth_spec() >= 1,
            old(self).text_spec().len() + text@.len() <= usize::MAX,
        ensures
            final(self).wf(),
            final(self).depth_spec() == old(self).depth_spec(),
            final(self).text_spec() == old(self).text_spec() + text@,
            final(self).nodes_spec() == old(self).nodes_spec(),
            final(self).token_count_spec() == old(self).token_count_spec() + 1,
            final(self).roots_spec() == old(self).roots_spec(),
            old(self).tokens_spec().is_prefix_of(final(self).tokens_spec()),
            final(self).token_kind_spec(old(self).token_count_spec()) == kind,
            final(self).token_text_spec(old(self).token_count_spec()) == text@,
            final(self).frames_spec() == old(self).frames_spec().drop_last().push(
                (
                    old(self).frames_spec().last().0,
                    old(self).frames_spec().last().1.push(
                        GreenElement::Token(old(self).token_count_spec() as usize),
                    ),
                ),
            ),
    {
        let ghost old_nodes = self.nodes@;
        let ghost old_tokens = self.tokens@;
        let ghost old_stack = self.stack@;
        let ghost old_roots = self.roots@;
        let text_len = text.len();
        let k = self.tokens.len();
        self.tokens.push(GreenToken { kind, text });
        let mut frame = self.stack.pop().unwrap();
        let ghost old_children = frame.children@;
        frame.children.push(GreenElement::Token(k));
        self.stack.push(frame);
        self.total_len = self.total_len + text_len;
        proof {
            let nodes = self.nodes@;
            let tokens = self.tokens@;
            let d = old_stack.len() as int;
            assert(arena_wf(nodes, tokens)) by {
                assert forall|i: int| 0 <= i < nodes.len() implies node_wf(nodes, tokens, i) by {
                    assert(node_wf(old_nodes, old_tokens, i));
                    lemma_prefix_len_ext(old_nodes, old_tokens, nodes, tokens, nodes[i].children@, nodes[i].children@.len() as int);
                }
            }
            // Old roots and outer frames keep their text.
            lemma_roots_text_ext(old_nodes, old_tokens, nodes, tokens, old_roots, old_roots.len() as int);
            lemma_frames_text_agree(nodes, tokens, old_stack, self.stack@, d - 1);
            lemma_frames_text_ext(old_nodes, old_tokens, nodes, tokens, old_stack, d - 1);
            // The top frame gains exactly the token's bytes.
            let new_children = self.stack@[d - 1].children@;
            assert(new_children == old_children.push(GreenElement::Token(k)));
            lemma_elems_text_agree(nodes, tokens, old_children, new_children, old_children.len() as int);
            lemma_elems_text_ext(old_nodes, old_tokens, nodes, tokens, old_children, old_children.len() as int);
            assert(elems_text(nodes, tokens, new_children, new_children.len() as int)
                == elems_text(old_nodes, old_tokens, old_children, old_children.len() as int) + tokens[k as int].text@);
            assert(frames_text(nodes, tokens, self.stack@, d)
                == frames_text(old_nodes, old_tokens, old_stack, d - 1)
                    + elems_text(old_nodes, old_tokens, old_children, old_children.len() as int) + tokens[k as int].text@);
            assert(frames_text(old_nodes, old_tokens, old_stack, d)
                == frames_text(old_nodes, old_tokens, old_stack, d - 1)
                    + elems_text(old_nodes, old_tokens, old_children, old_children.len() as int));
            assert(final(self).text_spec() == old(self).text_spec() + tokens[k as int].text@);
            assert(old_tokens.is_prefix_of(tokens)) by {
                assert(old_tokens =~= tokens.subrange(0, old_tokens.len() as int));
            }
            assert(final(self).frames_spec() =~~= old(self).frames_spec().drop_last().push(
                (
                    old(self).frames_spec().last().0,
                    old(self).frames_spec().last().1.push(GreenElement::Token(k)),
                ),
            ));
        }
    }

    /// Closes the innermost open frame: wraps exactly its accumulated
    /// children into a new green node of the frame's kind and appends
    /// that node as a child of the enclosing frame — or records it as a
    /// finished root when no frame remains open.  Returns the new node's
    /// identifier.  The text emitted so far is unchanged.
    pub fn finish_node(&mut self) -> (r: GreenId)
        requires
            old(self).wf(),
            old(self).depth_spec() >= 1,
        ensures
            final(self).wf(),
            final(self).depth_spec() == old(self).depth_spec() - 1,
            final(self).text_spec() == old(self).text_spec(),
            final(self).node_count_spec() == old(self).node_count_spec() + 1,
            final(self).tokens_spec() == old(self).tokens_spec(),
            r.idx() == old(self).node_count_spec(),
            final(self).node_len_spec(r) <= final(self).text_spec().len(),
            old(self).nodes_spec().is_prefix_of(final(self).nodes_spec()),
            final(self).node_kind_spec(r.idx()) == old(self).frames_spec().last().0,
            final(self).node_children_spec(r.idx()) == old(self).frames_spec().last().1,
            old(self).depth_spec() == 1 ==> final(self).roots_spec() == old(self).roots_spec().push(
                r.idx() as usize,
            ),
            old(self).depth_spec() == 1 ==> final(self).frames_spec() == old(self).frames_spec().drop_last(),
            old(self).depth_spec() > 1 ==> final(self).roots_spec() == old(self).roots_spec(),
            old(self).depth_spec() > 1 ==> final(self).frames_spec() == old(self).frames_spec().drop_last().drop_last().push(
                (
                    old(self).frames_spec()[old(self).depth_spec() - 2].0,
                    old(self).frames_spec()[old(self).depth_spec() - 2].1.push(
                        GreenElement::Node(r.idx() as usize),
                    ),
                ),
            ),
    {
        let ghost old_nodes = self.nodes@;
        let ghost old_tokens = self.tokens@;
        let ghost old_stack = self.stack@;
        let ghost old_roots = self.roots@;
        let ghost d = old_stack.len() as int;
        let frame = self.stack.pop().unwrap();
        let ghost fc = frame.children@;
        let m = frame.children.len();

        proof {
            // The top frame's text is a suffix of the total, so its length
            // is bounded by total_len.
            lemma_elems_text_len(old_nodes, old_tokens, fc, fc.len() as int);
        }

        // Sum the children's lengths.
        let mut total: usize = 0;
        let mut c: usize = 0;
        while c < m
            invariant
                0 <= c <= m,
                m == fc.len(),
                frame.children@ == fc,
                self.nodes@ == old_nodes,
                self.tokens@ == old_tokens,
                arena_wf(old_nodes, old_tokens),
                forall|i: int| 0 <= i < fc.len() ==> elem_valid(#[trigger] fc[i], old_nodes.len() as int, old_tokens.len() as int),
                total as nat == prefix_len(old_nodes, old_tokens, fc, c as int),
                prefix_len(old_nodes, old_tokens, fc, fc.len() as int) <= old(self).total_len,
            decreases m - c,
        {
            proof {
                lemma_prefix_len_mono(old_nodes, old_tokens, fc, c + 1, fc.len() as int);
            }
            let e = frame.children[c];
            let el: usize = match e {
                GreenElement::Node(j) => self.nodes[j].text_len,
                GreenElement::Token(k) => self.tokens[k].text.len(),
            };
            total = total + el;
            c = c + 1;
        }

        let id = self.nodes.len();
        self.nodes.push(GreenNode { kind: frame.kind, text_len: total, children: frame.children });

        proof {
            let nodes = self.nodes@;
            let tokens = self.tokens@;
            assert(arena_wf(nodes, tokens)) by {
                assert forall|i: int| 0 <= i < nodes.len() implies node_wf(nodes, tokens, i) by {
                    if i < old_nodes.len() {
                        assert(node_wf(old_nodes, old_tokens, i));
                        lemma_prefix_len_ext(old_nodes, old_tokens, nodes, tokens, nodes[i].children@, nodes[i].children@.len() as int);
                    } else {
                        lemma_prefix_len_ext(old_nodes, old_tokens, nodes, tokens, fc, fc.len() as int);
                    }
                }
            }
            // The new node's text is exactly the closed frame's text.
            lemma_children_text_is_elems_text(nodes, tokens, id as int, fc.len() as int);
            lemma_elems_text_ext(old_nodes, old_tokens, nodes, tokens, fc, fc.len() as int);
            assert(node_text(nodes, tokens, id as int) == elems_text(old_nodes, old_tokens, fc, fc.len() as int));
        }

        if self.stack.is_empty() {
            self.roots.push(id);
            proof {
                let nodes = self.nodes@;
                let tokens = self.tokens@;
                assert(old_nodes.is_prefix_of(nodes)) by {
                    assert(old_nodes =~= nodes.subrange(0, old_nodes.len() as int));
                }
                assert(final(self).node_kind_spec(id as int) == old(self).frames_spec().last().0);
                assert(final(self).node_children_spec(id as int) == old(self).frames_spec().last().1);
                assert(final(self).frames_spec() =~~= old(self).frames_spec().drop_last());
                lemma_roots_text_ext(old_nodes, old_tokens, nodes, tokens, old_roots, old_roots.len() as int);
                lemma_roots_text_agree(nodes, tokens, old_roots, self.roots@, old_roots.len() as int);
                assert(roots_text(nodes, tokens, self.roots@, self.roots@.len() as int)
                    == roots_text(nodes, tokens, self.roots@, old_roots.len() as int)
                        + node_text(nodes, tokens, id as int));
                assert(frames_text(old_nodes, old_tokens, old_stack, d)
                    == frames_text(old_nodes, old_tokens, old_stack, 0)
                        + elems_text(old_nodes, old_tokens, fc, fc.len() as int));
                lemma_elem_text_len(self.nodes@, self.tokens@, GreenElement::Node(id));
            }
        } else {
            let mut parent = self.stack.pop().unwrap();
            let ghost pc = parent.children@;
            parent.children.push(GreenElement::Node(id));
            self.stack.push(parent);
            proof {
                let nodes = self.nodes@;
                let tokens = self.tokens@;
                assert(old_nodes.is_prefix_of(nodes)) by {
                    assert(old_nodes =~= nodes.subrange(0, old_nodes.len() as int));
                }
                assert(final(self).node_kind_spec(id as int) == old(self).frames_spec().last().0);
                assert(final(self).node_children_spec(id as int) == old(self).frames_spec().last().1);
                assert(final(self).frames_spec() =~~= old(self).frames_spec().drop_last().drop_last().push(
                    (
                        old(self).frames_spec()[d - 2].0,
                        old(self).frames_spec()[d - 2].1.push(GreenElement::Node(id)),
                    ),
                ));
                lemma_roots_text_ext(old_nodes, old_tokens, nodes, tokens, old_roots, old_roots.len() as int);
                lemma_frames_text_agree(nodes, tokens, old_stack, self.stack@, d - 2);
                lemma_frames_text_ext(old_nodes, old_tokens, nodes, tokens, old_stack, d - 2);
                let new_children = self.stack@[d - 2].children@;
                assert(new_children == pc.push(GreenElement::Node(id)));
                lemma_elems_text_agree(nodes, tokens, pc, new_children, pc.len() as int);
                lemma_elems_text_ext(old_nodes, old_tokens, nodes, tokens, pc, pc.len() as int);
                assert(elems_text(nodes, tokens, new_children, new_children.len() as int)
                    == elems_text(old_nodes, old_tokens, pc, pc.len() as int)
                        + elems_text(old_nodes, old_tokens, fc, fc.len() as int));
                assert(frames_text(old_nodes, old_tokens, old_stack, d - 1)
                    == frames_text(old_nodes, old_tokens, old_stack, d - 2)
                        + elems_text(old_nodes, old_tokens, pc, pc.len() as int));
                assert(frames_text(old_nodes, old_tokens, old_stack, d)
                    == frames_text(old_nodes, old_tokens, old_stack, d - 1)
                        + elems_text(old_nodes, old_tokens, fc, fc.len() as int));
                assert(frames_text(nodes, tokens, self.stack@, d - 1)
                    == frames_text(old_nodes, old_tokens, old_stack, d - 2)
                        + elems_text(old_nodes, old_tokens, pc, pc.len() as int)
                        + elems_text(old_nodes, old_tokens, fc, fc.len() as int));
                lemma_elem_text_len(self.nodes@, self.tokens@, GreenElement::Node(id));
            }
        }
        GreenId { raw: id }
    }

    /// Appends an already built node as a child of the current frame,
    /// without copying any green storage: the arena is unchanged, the
    /// reused subtree is shared.  The text emitted so far grows by the
    /// reused node's text.
    pub fn reuse_node(&mut self, id: GreenId)
        requires
            old(self).wf(),
            old(self).depth_spec() >= 1,
            0 <= id.idx() < old(self).node_count_spec(),
            old(self).text_spec().len() + old(self).node_len_spec(id) <= usize::MAX,
        ensures
            final(self).wf(),
            final(self).depth_spec() == old(self).depth_spec(),
            final(self).text_spec() == old(self).text_spec() + old(self).node_text_spec(id),
            final(self).nodes_spec() == old(self).nodes_spec(),
            final(self).tokens_spec() == old(self).tokens_spec(),
            final(self).node_count_spec() == old(self).node_count_spec(),
            final(self).token_count_spec() == old(self).token_count_spec(),
            final(self).roots_spec() == old(self).roots_spec(),
            final(self).frames_spec() == old(self).frames_spec().drop_last().push(
                (
                    old(self).frames_spec().last().0,
                    old(self).frames_spec().last().1.push(GreenElement::Node(id.idx() as usize)),
                ),
            ),
    {
        let ghost old_stack = self.stack@;
        let ghost d = old_stack.len() as int;
        let len = self.nodes[id.raw].text_len;
        let mut frame = self.stack.pop().unwrap();
        let ghost old_children = frame.children@;
        frame.children.push(GreenElement::Node(id.raw));
        self.stack.push(frame);
        self.total_len = self.total_len + len;
        proof {
            let nodes = self.nodes@;
            let tokens = self.tokens@;
            lemma_frames_text_agree(nodes, tokens, old_stack, self.stack@, d - 1);
            let new_children = self.stack@[d - 1].children@;
            assert(new_children == old_children.push(GreenElement::Node(id.raw)));
            lemma_elems_text_agree(nodes, tokens, old_children, new_children, old_children.len() as int);
            assert(elems_text(nodes, tokens, new_children, new_children.len() as int)
                == elems_text(nodes, tokens, old_children, old_children.len() as int)
                    + node_text(nodes, tokens, id.idx()));
            lemma_elem_text_len(nodes, tokens, GreenElement::Node(id.raw));
            assert(final(self).frames_spec() =~~= old(self).frames_spec().drop_last().push(
                (
                    old(self).frames_spec().last().0,
                    old(self).frames_spec().last().1.push(GreenElement::Node(id.raw)),
                ),
            ));
        }
    }

    /// Finishes building: hands out the arena with the last finished root
    /// as the tree's distinguished root.  Requires balanced events (no
    /// open frame) and at least one finished root; with exactly one root,
    /// the tree's text is exactly the token text emitted, in order — the
    /// lossless round trip.
    pub fn finish(self) -> (r: GreenTree)
        requires
            self.wf(),
            self.depth_spec() == 0,
            self.root_count_spec() >= 1,
        ensures
            r.nodes_spec() == self.nodes_spec(),
            r.tokens_spec() == self.tokens_spec(),
            r.root_spec() == self.roots_spec().last() as int,
            self.root_count_spec() == 1 ==> r.text_spec() == self.text_spec(),
    {
        let root = self.roots[self.roots.len() - 1];
        let tree = GreenTree { tokens: self.tokens, nodes: self.nodes, root };
        proof {
            if self.roots@.len() == 1 {
                assert(roots_text(tree.nodes@, tree.tokens@, self.roots@, 0) == Seq::<u8>::empty());
                assert(roots_text(tree.nodes@, tree.tokens@, self.roots@, 1)
                    == roots_text(tree.nodes@, tree.tokens@, self.roots@, 0)
                        + node_text(tree.nodes@, tree.tokens@, self.roots@[0] as int));
                assert(Seq::<u8>::empty() + node_text(tree.nodes@, tree.tokens@, root as int)
                    =~= node_text(tree.nodes@, tree.tokens@, root as int));
            }
        }
        tree
    }
}

} // verus!
