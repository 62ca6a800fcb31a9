//! Traversal and offset-lookup algorithms over the red layer.
//!
//! Everything here walks the tree iteratively — never by recursion — so
//! stack use stays bounded however deep the tree is.

use vstd::prelude::*;

use crate::green::GreenElement;
use crate::green::GreenNode;
use crate::green::GreenToken;
use crate::green::arena_wf;
use crate::green::node_wf;
use crate::green::elem_valid;
use crate::green::elem_len;
use crate::green::elem_rank;
use crate::green::children_at;
use crate::green::elem_text;
use crate::green::elems_text;
use crate::green::node_text;
use crate::green::prefix_len;
use crate::green::lemma_prefix_len_mono;
use crate::syntax::SyntaxNode;
use crate::syntax::SyntaxToken;
use crate::syntax::SyntaxElement;
use crate::syntax::elem_path_valid;
use crate::syntax::elem_at;
use crate::syntax::token_path_valid;
use crate::syntax::node_path_valid;
use crate::syntax::node_at;
use crate::syntax::offset_at;
use crate::syntax::lemma_span_in_bounds;
use crate::syntax::lemma_path_push;
use crate::syntax::lemma_empty_path;
use crate::syntax::lemma_last_step_in_range;
use crate::syntax::share_tree;
use crate::syntax::copy_path;

verus! {

/// Outcome of [`SyntaxNode::token_at_offset`].
#[derive(Debug)]
pub enum TokenAtOffset {
    /// The offset lies outside the node's range, or no token of positive
    /// length touches it (possible only in a zero-length region).
    Missing,
    /// Exactly one token touches the offset: the offset is strictly
    /// inside the token, or at the very start or end of the node's range.
    Single(SyntaxToken),
    /// The offset falls exactly on the boundary between two tokens; both
    /// are returned, left first.
    Between(SyntaxToken, SyntaxToken),
}

/// Does the token occurrence at relative path `q` under node `n` cover
/// relative offset `v`, in the half-open sense `start <= v < end`?
/// (A zero-length token covers nothing.)
pub open(crate) spec fn token_covers(nodes: Seq<GreenNode>, tokens: Seq<GreenToken>, n: int, q: Seq<usize>, v: int) -> bool {
    &&& token_path_valid(nodes, n, q)
    &&& offset_at(nodes, tokens, n, q) <= v
    &&& v < offset_at(nodes, tokens, n, q) + elem_len(nodes, tokens, elem_at(nodes, n, q))
}

/// Does the token occurrence at path `q` below handle `h`'s node cover
/// the absolute offset `off` in the half-open sense?
pub open(crate) spec fn touches_right(h: SyntaxNode, q: Seq<usize>, off: int) -> bool {
    token_covers(
        h.tree_spec().nodes_spec(),
        h.tree_spec().tokens_spec(),
        h.node_spec(),
        q,
        off - h.offset_spec(),
    )
}

/// Does the token occurrence at path `q` below handle `h`'s node end at
/// or strictly after the absolute offset `off`, starting before it —
/// that is, cover `off` in the left-closed sense `start < off <= end`?
pub open(crate) spec fn touches_left(h: SyntaxNode, q: Seq<usize>, off: int) -> bool {
    touches_right(h, q, off - 1)
}

/// A covering token occurrence lies inside the child window that
/// contains `v`: its first step is the unique child whose half-open span
/// holds `v`.
proof fn lemma_cover_child(nodes: Seq<GreenNode>, tokens: Seq<GreenToken>, n: int, q: Seq<usize>, v: int)
    requires
        arena_wf(nodes, tokens),
        0 <= n < nodes.len(),
        token_covers(nodes, tokens, n, q, v),
    ensures
        prefix_len(nodes, tokens, nodes[n].children@, q[0] as int) <= v,
        v < prefix_len(nodes, tokens, nodes[n].children@, q[0] as int + 1),
{
    assert(node_wf(nodes, tokens, n));
    let c = q[0] as int;
    let e = nodes[n].children@[c];
    assert(elem_valid(e, n, tokens.len() as int));
    assert(prefix_len(nodes, tokens, nodes[n].children@, c + 1)
        == prefix_len(nodes, tokens, nodes[n].children@, c) + elem_len(nodes, tokens, e));
    if q.len() == 1 {
        assert(elem_at(nodes, n, q) == e);
    } else {
        match e {
            GreenElement::Node(j) => {
                lemma_span_in_bounds(nodes, tokens, j as int, q.drop_first());
                assert(elem_at(nodes, n, q) == elem_at(nodes, j as int, q.drop_first()));
                assert(offset_at(nodes, tokens, n, q)
                    == prefix_len(nodes, tokens, nodes[n].children@, c) + offset_at(nodes, tokens, j as int, q.drop_first()));
            },
            GreenElement::Token(_) => {
                assert(false);
            },
        }
    }
}

/// Splitting a covering path at the first step: the tail covers the
/// shifted offset under the child, and conversely.
proof fn lemma_cover_decompose(nodes: Seq<GreenNode>, tokens: Seq<GreenToken>, n: int, c: usize, j: usize, q2: Seq<usize>, v: int)
    requires
        arena_wf(nodes, tokens),
        0 <= n < nodes.len(),
        (c as int) < nodes[n].children@.len(),
        nodes[n].children@[c as int] == GreenElement::Node(j),
    ensures
        token_covers(nodes, tokens, n, seq![c] + q2, v) <==> token_covers(
            nodes,
            tokens,
            j as int,
            q2,
            v - prefix_len(nodes, tokens, nodes[n].children@, c as int),
        ),
{
    let q = seq![c] + q2;
    assert(q[0] == c);
    assert(q.drop_first() =~= q2);
    assert(q.len() == q2.len() + 1);
    if q2.len() == 0 {
        assert(elem_at(nodes, n, q) == nodes[n].children@[c as int]);
        assert(!(elem_at(nodes, n, q) is Token));
        assert(!elem_path_valid(nodes, j as int, q2));
    } else {
        assert(elem_at(nodes, n, q) == elem_at(nodes, j as int, q2));
        assert(elem_path_valid(nodes, n, q) <==> elem_path_valid(nodes, j as int, q2));
        assert(offset_at(nodes, tokens, n, q)
            == prefix_len(nodes, tokens, nodes[n].children@, c as int) + offset_at(nodes, tokens, j as int, q2));
    }
}

/// A token child covers exactly the offsets of its own span, and is the
/// only covering occurrence through itself.
proof fn lemma_cover_token_child(nodes: Seq<GreenNode>, tokens: Seq<GreenToken>, n: int, c: usize, q: Seq<usize>, v: int)
    requires
        arena_wf(nodes, tokens),
        0 <= n < nodes.len(),
        (c as int) < nodes[n].children@.len(),
        nodes[n].children@[c as int] is Token,
        token_covers(nodes, tokens, n, q, v),
        q[0] == c,
    ensures
        q =~= seq![c],
{
    if q.len() > 1 {
        assert(!elem_path_valid(nodes, n, q));
        assert(false);
    }
}

impl SyntaxNode {
    /// The unique token occurrence under this node whose half-open span
    /// contains the absolute offset `off`, if one exists.  The search
    /// descends level by level, scanning only each level's children, so
    /// its cost is proportional to depth times fan-out — and it recurses
    /// on no call stack.
    fn cover(&self, off: usize) -> (r: Option<SyntaxToken>)
        ensures
            match r {
                Option::Some(t) => {
                    &&& t.tree_spec() == self.tree_spec()
                    &&& t.root_spec() == self.root_spec()
                    &&& self.path_spec().is_prefix_of(t.path_spec())
                    &&& t.path_spec().len() > self.path_spec().len()
                    &&& touches_right(*self, t.path_spec().skip(self.path_spec().len() as int), off as int)
                    &&& t.offset_spec() <= off < t.offset_spec() + t.len_spec()
                    &&& t.offset_spec() == self.offset_spec() + offset_at(
                        self.tree_spec().nodes_spec(),
                        self.tree_spec().tokens_spec(),
                        self.node_spec(),
                        t.path_spec().skip(self.path_spec().len() as int),
                    )
                    &&& elem_len(
                        self.tree_spec().nodes_spec(),
                        self.tree_spec().tokens_spec(),
                        elem_at(
                            self.tree_spec().nodes_spec(),
                            self.node_spec(),
                            t.path_spec().skip(self.path_spec().len() as int),
                        ),
                    ) == t.len_spec()
                    &&& forall|q: Seq<usize>| #![all_triggers]
                        touches_right(*self, q, off as int) ==> q =~= t.path_spec().skip(
                            self.path_spec().len() as int,
                        )
                },
                Option::None => forall|q: Seq<usize>| #![all_triggers] !touches_right(*self, q, off as int),
            },
    {
        proof {
            use_type_invariant(self);
        }
        let ghost nodes = self.tree_spec().nodes_spec();
        let ghost tokens = self.tree_spec().tokens_spec();
        let ghost v0 = off - self.offset_spec();

        if off < self.offset {
            proof {
                assert forall|q: Seq<usize>| #![all_triggers] !token_covers(nodes, tokens, self.node_spec(), q, v0) by {
                    assert(v0 < 0);
                }
            }
            return None;
        }

        proof {
            if self.path@.len() > 0 {
                lemma_span_in_bounds(nodes, tokens, self.root as int, self.path@);
            }
        }
        let node_len = (*self.tree).node_len(self.node);
        if off >= self.offset + node_len {
            proof {
                assert forall|q: Seq<usize>| #![all_triggers] !token_covers(nodes, tokens, self.node_spec(), q, v0) by {
                    if token_covers(nodes, tokens, self.node_spec(), q, v0) {
                        lemma_span_in_bounds(nodes, tokens, self.node_spec(), q);
                        assert(v0 < nodes[self.node_spec()].text_len);
                    }
                }
            }
            return None;
        }

        let mut cur: usize = self.node;
        let mut base: usize = self.offset;
        let mut path = copy_path(&self.path);

        proof {
            assert(path@.skip(self.path@.len() as int) =~= Seq::<usize>::empty());
            lemma_empty_path(nodes, tokens, self.node_spec(), path@.skip(self.path@.len() as int));
        }

        loop
            invariant
                self.wf(),
                nodes == self.tree_spec().nodes_spec(),
                tokens == self.tree_spec().tokens_spec(),
                v0 == off - self.offset_spec(),
                (cur as int) < nodes.len(),
                (self.root as int) < nodes.len(),
                node_path_valid(nodes, self.root as int, path@),
                cur as int == node_at(nodes, self.root as int, path@),
                base as nat == offset_at(nodes, tokens, self.root as int, path@),
                self.path@.is_prefix_of(path@),
                node_path_valid(nodes, self.node_spec(), path@.skip(self.path@.len() as int)),
                cur as int == node_at(nodes, self.node_spec(), path@.skip(self.path@.len() as int)),
                base as int == self.offset_spec() + offset_at(
                    nodes,
                    tokens,
                    self.node_spec(),
                    path@.skip(self.path@.len() as int),
                ),
                base <= off,
                off - base < nodes[cur as int].text_len,
                base as nat + nodes[cur as int].text_len as nat <= nodes[self.root as int].text_len as nat,
                // Covering occurrences under the starting node correspond
                // one-for-one to covering occurrences under `cur`.
                forall|q2: Seq<usize>| #![all_triggers] token_covers(nodes, tokens, cur as int, q2, off - base) <==> token_covers(
                    nodes,
                    tokens,
                    self.node_spec(),
                    path@.skip(self.path@.len() as int) + q2,
                    v0,
                ),
                forall|q: Seq<usize>| #![all_triggers] token_covers(nodes, tokens, self.node_spec(), q, v0) ==> (path@.skip(
                    self.path@.len() as int,
                )).is_prefix_of(q),
            decreases cur,
        {
            let ghost rel = path@.skip(self.path@.len() as int);
            proof {
                assert(node_wf(nodes, tokens, cur as int));
                assert(prefix_len(nodes, tokens, nodes[cur as int].children@, nodes[cur as int].children@.len() as int)
                    == nodes[cur as int].text_len as nat);
            }
            let cc = (*self.tree).node_child_count(cur);
            // Scan this level's children for the window holding `off`.
            let mut c: usize = 0;
            let mut acc: usize = base;
            let mut hit: bool = false;
            while c < cc && !hit
                invariant
                    c <= cc,
                    cc == nodes[cur as int].children@.len(),
                    self.wf(),
                    nodes == self.tree_spec().nodes_spec(),
                    tokens == self.tree_spec().tokens_spec(),
                    (cur as int) < nodes.len(),
                    node_wf(nodes, tokens, cur as int),
                    base <= off,
                    off - base < nodes[cur as int].text_len,
                    hit ==> (acc as nat == base as nat + prefix_len(nodes, tokens, nodes[cur as int].children@, c as int)
                        && acc <= off
                        && off - acc < elem_len(nodes, tokens, nodes[cur as int].children@[c as int])
                        && (c as int) < cc),
                    !hit ==> acc as nat == base as nat + prefix_len(nodes, tokens, nodes[cur as int].children@, c as int),
                    !hit ==> off - base >= prefix_len(nodes, tokens, nodes[cur as int].children@, c as int),
                    base as nat + nodes[cur as int].text_len as nat <= nodes[self.root as int].text_len as nat,
                decreases cc - c + (if hit { 0int } else { 1int }),
            {
                proof {
                    lemma_prefix_len_mono(nodes, tokens, nodes[cur as int].children@, c + 1, cc as int);
                    assert(elem_valid(nodes[cur as int].children@[c as int], cur as int, tokens.len() as int));
                }
                let el: usize = match (*self.tree).node_child(cur, c) {
                    GreenElement::Node(j) => (*self.tree).node_len(j),
                    GreenElement::Token(t) => (*self.tree).token_text(t).len(),
                };
                if off < acc + el {
                    hit = true;
                } else {
                    acc = acc + el;
                    c = c + 1;
                }
            }
            if !hit {
                // No child window holds `off`: nothing under `cur` covers it.
                proof {
                    assert(off - base >= prefix_len(nodes, tokens, nodes[cur as int].children@, cc as int));
                    assert forall|q: Seq<usize>| #![all_triggers] !token_covers(nodes, tokens, self.node_spec(), q, v0) by {
                        if token_covers(nodes, tokens, self.node_spec(), q, v0) {
                            assert(rel.is_prefix_of(q));
                            let q2 = q.skip(rel.len() as int);
                            assert(rel + q2 =~= q);
                            assert(token_covers(nodes, tokens, cur as int, q2, off - base));
                            lemma_cover_child(nodes, tokens, cur as int, q2, off - base);
                            lemma_prefix_len_mono(nodes, tokens, nodes[cur as int].children@, q2[0] as int + 1, cc as int);
                        }
                    }
                }
                return None;
            }
            proof {
                lemma_path_push(nodes, tokens, self.root as int, path@, c);
                // The chosen window is the only one a covering path can use.
                assert forall|q2: Seq<usize>| #![all_triggers]
                    token_covers(nodes, tokens, cur as int, q2, off - base) implies q2[0] == c by {
                    lemma_cover_child(nodes, tokens, cur as int, q2, off - base);
                    let d = q2[0] as int;
                    if d < c as int {
                        lemma_prefix_len_mono(nodes, tokens, nodes[cur as int].children@, d + 1, c as int);
                    } else if d > c as int {
                        lemma_prefix_len_mono(nodes, tokens, nodes[cur as int].children@, c as int + 1, d);
                    }
                }
            }
            match (*self.tree).node_child(cur, c) {
                GreenElement::Token(tk) => {
                    path.push(c);
                    let t = SyntaxToken {
                        tree: share_tree(&self.tree),
                        root: self.root,
                        path,
                        token: tk,
                        offset: acc,
                    };
                    proof {
                        let trel = t.path@.skip(self.path@.len() as int);
                        assert(trel =~= rel.push(c));
                        assert(rel + seq![c] =~= rel.push(c));
                        lemma_path_push(nodes, tokens, self.node_spec(), rel, c);
                        assert(elem_at(nodes, cur as int, seq![c]) == nodes[cur as int].children@[c as int]);
                        assert(offset_at(nodes, tokens, cur as int, seq![c])
                            == prefix_len(nodes, tokens, nodes[cur as int].children@, c as int));
                        assert(token_covers(nodes, tokens, cur as int, seq![c], off - base));
                        assert forall|q2: Seq<usize>| #![all_triggers]
                            token_covers(nodes, tokens, cur as int, q2, off - base) implies q2 =~= seq![c] by {
                            lemma_cover_token_child(nodes, tokens, cur as int, c, q2, off - base);
                        }
                        assert forall|q: Seq<usize>| #![all_triggers]
                            token_covers(nodes, tokens, self.node_spec(), q, v0) implies q =~= trel by {
                            let q2 = q.skip(rel.len() as int);
                            assert(rel + q2 =~= q);
                            assert(token_covers(nodes, tokens, cur as int, q2, off - base));
                            assert(q2 =~= seq![c]);
                        }
                        assert(token_covers(nodes, tokens, self.node_spec(), rel + seq![c], v0));
                    }
                    return Some(t);
                },
                GreenElement::Node(j) => {
                    path.push(c);
                    proof {
                        let nrel = path@.skip(self.path@.len() as int);
                        assert(nrel =~= rel.push(c));
                        lemma_path_push(nodes, tokens, self.node_spec(), rel, c);
                        let cs2 = nodes[cur as int].children@;
                        assert(prefix_len(nodes, tokens, cs2, c as int + 1)
                            == prefix_len(nodes, tokens, cs2, c as int) + elem_len(nodes, tokens, cs2[c as int]));
                        lemma_prefix_len_mono(nodes, tokens, cs2, c as int + 1, cc as int);
                        assert forall|q2: Seq<usize>| #![all_triggers]
                            token_covers(nodes, tokens, j as int, q2, off - acc) <==> token_covers(
                                nodes,
                                tokens,
                                self.node_spec(),
                                nrel + q2,
                                v0,
                            ) by {
                            lemma_cover_decompose(nodes, tokens, cur as int, c, j, q2, off - base);
                            assert(seq![c] + q2 =~= (rel.push(c) + q2).skip(rel.len() as int));
                            assert(rel + (seq![c] + q2) =~= rel.push(c) + q2);
                        }
                        assert forall|q: Seq<usize>| #![all_triggers]
                            token_covers(nodes, tokens, self.node_spec(), q, v0) implies nrel.is_prefix_of(q) by {
                            let q2 = q.skip(rel.len() as int);
                            assert(rel + q2 =~= q);
                            assert(token_covers(nodes, tokens, cur as int, q2, off - base));
                            assert(q2[0] == c);
                            assert(q2.len() >= 1);
                            lemma_cover_decompose(nodes, tokens, cur as int, c, j, q2.drop_first(), off - base);
                            assert(seq![c] + q2.drop_first() =~= q2);
                            assert(nrel + q2.drop_first() =~= q);
                        }
                    }
                    base = acc;
                    cur = j;
                },
            }
        }
    }

    /// Token lookup by absolute offset, the ambiguity at token boundaries
    /// made explicit:
    ///
    /// - strictly inside a token (or at the very edge of this node's
    ///   range, including offset `0` and offset `== length`): that single
    ///   covering token;
    /// - exactly on the boundary between two tokens: both, left first;
    /// - outside `[offset, offset + length]`, or in a region without
    ///   tokens of positive length: `Missing` — the out-of-range outcome.
    pub fn token_at_offset(&self, off: usize) -> (r: TokenAtOffset)
        ensures
            match r {
                TokenAtOffset::Missing => forall|q: Seq<usize>| #![all_triggers]
                    !touches_right(*self, q, off as int) && !touches_left(*self, q, off as int),
                TokenAtOffset::Single(t) => {
                    &&& t.tree_spec() == self.tree_spec()
                    &&& t.root_spec() == self.root_spec()
                    &&& self.path_spec().is_prefix_of(t.path_spec())
                    &&& t.offset_spec() <= off <= t.offset_spec() + t.len_spec()
                    &&& forall|q: Seq<usize>| #![all_triggers]
                        touches_right(*self, q, off as int) || touches_left(*self, q, off as int)
                            ==> q =~= t.path_spec().skip(self.path_spec().len() as int)
                },
                TokenAtOffset::Between(a, b) => {
                    &&& a.tree_spec() == self.tree_spec()
                    &&& b.tree_spec() == self.tree_spec()
                    &&& a.root_spec() == self.root_spec()
                    &&& b.root_spec() == self.root_spec()
                    &&& self.path_spec().is_prefix_of(a.path_spec())
                    &&& self.path_spec().is_prefix_of(b.path_spec())
                    &&& a.offset_spec() + a.len_spec() == off
                    &&& b.offset_spec() == off
                    &&& !(a.path_spec() =~= b.path_spec())
                    &&& forall|q: Seq<usize>| #![all_triggers] touches_right(*self, q, off as int)
                        ==> q =~= b.path_spec().skip(self.path_spec().len() as int)
                    &&& forall|q: Seq<usize>| #![all_triggers] touches_left(*self, q, off as int)
                        ==> q =~= a.path_spec().skip(self.path_spec().len() as int)
                },
            },
    {
        proof {
            use_type_invariant(self);
        }
        let right = self.cover(off);
        let left = if off > 0 {
            self.cover(off - 1)
        } else {
            proof {
                let nodes = self.tree_spec().nodes_spec();
                let tokens = self.tree_spec().tokens_spec();
                assert forall|q: Seq<usize>| #![all_triggers] !touches_left(*self, q, off as int) by {
                    if touches_left(*self, q, off as int) {
                        assert(off - self.offset_spec() - 1 < 0);
                    }
                }
            }
            None
        };
        match (left, right) {
            (Option::None, Option::None) => TokenAtOffset::Missing,
            (Option::None, Option::Some(b)) => TokenAtOffset::Single(b),
            (Option::Some(a), Option::None) => TokenAtOffset::Single(a),
            (Option::Some(a), Option::Some(b)) => {
                if crate::syntax::paths_eq(&a.path, &b.path) {
                    TokenAtOffset::Single(b)
                } else {
                    proof {
                        let nodes = self.tree_spec().nodes_spec();
                        let tokens = self.tree_spec().tokens_spec();
                        let n = self.node_spec();
                        let v = off - self.offset_spec();
                        let ra = a.path_spec().skip(self.path_spec().len() as int);
                        let rb = b.path_spec().skip(self.path_spec().len() as int);
                        assert(a.path_spec() =~= self.path_spec() + ra);
                        assert(b.path_spec() =~= self.path_spec() + rb);
                        // If the right token started before `off`, it would
                        // also cover `off - 1` and so coincide with the left
                        // token; hence it starts exactly at `off`.
                        if offset_at(nodes, tokens, n, rb) < v {
                            assert(touches_right(*self, rb, off - 1 as int)) by {
                                assert(token_covers(nodes, tokens, n, rb, v));
                            }
                            assert(rb =~= ra);
                            assert(a.path_spec() =~= b.path_spec());
                            assert(false);
                        }
                        assert(offset_at(nodes, tokens, n, rb) == v);
                        assert(b.offset_spec() == off);
                        // If the left token ended after `off`, it would also
                        // cover `off` itself and coincide with the right one;
                        // hence it ends exactly at `off`.
                        let ea = offset_at(nodes, tokens, n, ra) + elem_len(nodes, tokens, elem_at(nodes, n, ra));
                        assert(token_covers(nodes, tokens, n, ra, v - 1));
                        if ea > v {
                            assert(touches_right(*self, ra, off as int)) by {
                                assert(token_covers(nodes, tokens, n, ra, v));
                            }
                            assert(ra =~= rb);
                            assert(a.path_spec() =~= b.path_spec());
                            assert(false);
                        }
                        assert(ea == v);
                        assert(a.offset_spec() + a.len_spec() == off);
                        assert(!(a.path_spec() =~= b.path_spec()));
                    }
                    TokenAtOffset::Between(a, b)
                }
            },
        }
    }
}

// ---------------------------------------------------------------------
// Children iteration, siblings, ancestors, preorder walk.
// ---------------------------------------------------------------------

impl SyntaxNode {
    /// The element following this node among its parent's children;
    /// `None` exactly for a root or a last child.
    pub fn next_sibling(&self) -> (r: Option<SyntaxElement>)
        ensures
            match r {
                Option::Some(el) => {
                    &&& self.path_spec().len() > 0
                    &&& el.tree_spec() == self.tree_spec()
                    &&& el.root_spec() == self.root_spec()
                    &&& el.path_spec() == self.path_spec().drop_last().push(
                        (self.path_spec().last() + 1) as usize,
                    )
                    &&& self.path_spec().last() + 1 < children_at(
                        self.tree_spec().nodes_spec(),
                        node_at(self.tree_spec().nodes_spec(), self.root_spec(), self.path_spec().drop_last()),
                    ).len()
                },
                Option::None => self.path_spec().len() == 0 || self.path_spec().last() + 1 >= children_at(
                    self.tree_spec().nodes_spec(),
                    node_at(self.tree_spec().nodes_spec(), self.root_spec(), self.path_spec().drop_last()),
                ).len(),
            },
    {
        proof {
            use_type_invariant(self);
        }
        if self.path.len() == 0 {
            return None;
        }
        let c = self.path[self.path.len() - 1];
        match self.parent() {
            Option::None => None,
            Option::Some(p) => {
                proof {
                    use_type_invariant(&p);
                    assert(c == self.path_spec().last());
                    assert(p.path_spec() == self.path_spec().drop_last());
                }
                let count = p.child_count();
                if c == usize::MAX {
                    proof {
                        assert(count as int <= usize::MAX as int);
                    }
                    return None;
                }
                proof {
                    assert((self.path_spec().last() + 1) as usize == c + 1);
                }
                p.child(c + 1)
            },
        }
    }

    /// The element preceding this node among its parent's children;
    /// `None` for a root or a first child.
    pub fn prev_sibling(&self) -> (r: Option<SyntaxElement>)
        ensures
            match r {
                Option::Some(el) => {
                    &&& self.path_spec().len() > 0
                    &&& self.path_spec().last() > 0
                    &&& el.tree_spec() == self.tree_spec()
                    &&& el.root_spec() == self.root_spec()
                    &&& el.path_spec() == self.path_spec().drop_last().push(
                        (self.path_spec().last() - 1) as usize,
                    )
                },
                Option::None => self.path_spec().len() == 0 || self.path_spec().last() == 0,
            },
    {
        proof {
            use_type_invariant(self);
        }
        if self.path.len() == 0 {
            return None;
        }
        let c = self.path[self.path.len() - 1];
        if c == 0 {
            return None;
        }
        match self.parent() {
            Option::None => None,
            Option::Some(p) => {
                proof {
                    assert(c == self.path_spec().last());
                    assert(p.path_spec() == self.path_spec().drop_last());
                    assert((self.path_spec().last() - 1) as usize == c - 1);
                    lemma_last_step_in_range(
                        self.tree_spec().nodes_spec(),
                        self.root_spec(),
                        self.path_spec(),
                    );
                    use_type_invariant(&p);
                    assert(c - 1 < p.child_count_spec());
                }
                p.child(c - 1)
            },
        }
    }

    /// This node and its ancestors, innermost first and the handle-set
    /// root last.
    pub fn ancestors(&self) -> (r: Vec<SyntaxNode>)
        ensures
            r@.len() == self.path_spec().len() + 1,
            forall|i: int|
                0 <= i < r@.len() ==> (#[trigger] r@[i]).path_spec() == self.path_spec().take(
                    self.path_spec().len() - i,
                ) && r@[i].tree_spec() == self.tree_spec() && r@[i].root_spec() == self.root_spec(),
    {
        proof {
            use_type_invariant(self);
        }
        let mut r: Vec<SyntaxNode> = Vec::new();
        let here = SyntaxNode {
            tree: share_tree(&self.tree),
            root: self.root,
            path: copy_path(&self.path),
            node: self.node,
            offset: self.offset,
        };
        proof {
            assert(here.path@ =~= self.path@.take(self.path@.len() as int));
        }
        let mut cur = here;
        r.push(cur);
        loop
            invariant
                1 <= r@.len() <= self.path_spec().len() + 1,
                forall|i: int|
                    0 <= i < r@.len() ==> (#[trigger] r@[i]).path_spec() == self.path_spec().take(
                        self.path_spec().len() - i,
                    ) && r@[i].tree_spec() == self.tree_spec() && r@[i].root_spec() == self.root_spec(),
                r@[r@.len() - 1].path_spec().len() + r@.len() == self.path_spec().len() + 1,
            decreases self.path_spec().len() + 1 - r@.len(),
        {
            let last = r.len() - 1;
            match r[last].parent() {
                Option::None => {
                    proof {
                        assert(r@.len() == self.path_spec().len() + 1);
                    }
                    return r;
                },
                Option::Some(p) => {
                    proof {
                        assert(p.path_spec() =~= self.path_spec().take(
                            self.path_spec().len() - r@.len(),
                        ));
                    }
                    r.push(p);
                },
            }
        }
    }
}

impl SyntaxToken {
    /// The element following this token among its parent's children;
    /// `None` exactly for a last child.
    pub fn next_sibling(&self) -> (r: Option<SyntaxElement>)
        ensures
            match r {
                Option::Some(el) => {
                    &&& el.tree_spec() == self.tree_spec()
                    &&& el.root_spec() == self.root_spec()
                    &&& el.path_spec() == self.path_spec().drop_last().push(
                        (self.path_spec().last() + 1) as usize,
                    )
                    &&& self.path_spec().last() + 1 < children_at(
                        self.tree_spec().nodes_spec(),
                        node_at(self.tree_spec().nodes_spec(), self.root_spec(), self.path_spec().drop_last()),
                    ).len()
                },
                Option::None => self.path_spec().last() + 1 >= children_at(
                    self.tree_spec().nodes_spec(),
                    node_at(self.tree_spec().nodes_spec(), self.root_spec(), self.path_spec().drop_last()),
                ).len(),
            },
    {
        proof {
            use_type_invariant(self);
        }
        let c = self.path[self.path.len() - 1];
        let p = self.parent();
        proof {
            use_type_invariant(&p);
            assert(c == self.path_spec().last());
            assert(p.path_spec() == self.path_spec().drop_last());
        }
        let count = p.child_count();
        if c == usize::MAX {
            proof {
                assert(count as int <= usize::MAX as int);
            }
            return None;
        }
        proof {
            assert((self.path_spec().last() + 1) as usize == c + 1);
        }
        p.child(c + 1)
    }

    /// The element preceding this token among its parent's children.
    pub fn prev_sibling(&self) -> (r: Option<SyntaxElement>)
        ensures
            match r {
                Option::Some(el) => {
                    &&& self.path_spec().last() > 0
                    &&& el.tree_spec() == self.tree_spec()
                    &&& el.root_spec() == self.root_spec()
                    &&& el.path_spec() == self.path_spec().drop_last().push(
                        (self.path_spec().last() - 1) as usize,
                    )
                },
                Option::None => self.path_spec().last() == 0,
            },
    {
        proof {
            use_type_invariant(self);
        }
        let c = self.path[self.path.len() - 1];
        if c == 0 {
            return None;
        }
        let p = self.parent();
        proof {
            assert(c == self.path_spec().last());
            assert(p.path_spec() == self.path_spec().drop_last());
            assert((self.path_spec().last() - 1) as usize == c - 1);
            lemma_last_step_in_range(
                self.tree_spec().nodes_spec(),
                self.root_spec(),
                self.path_spec(),
            );
            use_type_invariant(&p);
            assert(c - 1 < p.child_count_spec());
        }
        p.child(c - 1)
    }
}

/// Lazy, ordered sequence of the immediate children of one node (nodes
/// and tokens alike), advancing by child index.
#[derive(Debug)]
pub struct SyntaxElementChildren {
    pub(crate) parent: SyntaxNode,
    pub(crate) index: usize,
}

impl SyntaxElementChildren {
    /// The node whose children are iterated.
    pub open(crate) spec fn parent_spec(&self) -> SyntaxNode {
        self.parent
    }

    /// The child index the iteration stands at.
    pub open(crate) spec fn index_spec(&self) -> int {
        self.index as int
    }

    /// The next child element, left to right; `None` when exhausted.
    pub fn next(&mut self) -> (r: Option<SyntaxElement>)
        ensures
            match r {
                Option::Some(el) => {
                    &&& final(self).parent_spec() == old(self).parent_spec()
                    &&& final(self).index_spec() == old(self).index_spec() + 1
                    &&& old(self).index_spec() < old(self).parent_spec().child_count_spec()
                    &&& el.tree_spec() == old(self).parent_spec().tree_spec()
                    &&& el.root_spec() == old(self).parent_spec().root_spec()
                    &&& el.path_spec() == old(self).parent_spec().path_spec().push(
                        old(self).index_spec() as usize,
                    )
                },
                Option::None => {
                    &&& *final(self) == *old(self)
                    &&& old(self).index_spec() >= old(self).parent_spec().child_count_spec()
                },
            },
    {
        proof {
            use_type_invariant(&self.parent);
        }
        let count = self.parent.child_count();
        let r = self.parent.child(self.index);
        match r {
            Option::Some(el) => {
                self.index = self.index + 1;
                Some(el)
            },
            Option::None => None,
        }
    }
}

/// Lazy, ordered sequence of the immediate node children of one node,
/// skipping tokens.
#[derive(Debug)]
pub struct SyntaxNodeChildren {
    pub(crate) parent: SyntaxNode,
    pub(crate) index: usize,
}

impl SyntaxNodeChildren {
    /// The node whose children are iterated.
    pub open(crate) spec fn parent_spec(&self) -> SyntaxNode {
        self.parent
    }

    /// The child index the iteration stands at.
    pub open(crate) spec fn index_spec(&self) -> int {
        self.index as int
    }

    /// The next child that is a node, left to right, skipping token
    /// children; `None` exactly when no node child remains.
    pub fn next(&mut self) -> (r: Option<SyntaxNode>)
        ensures
            final(self).parent_spec() == old(self).parent_spec(),
            match r {
                Option::Some(n) => {
                    &&& old(self).index_spec() <= final(self).index_spec() - 1
                    &&& final(self).index_spec() - 1 < old(self).parent_spec().child_count_spec()
                    &&& n.tree_spec() == old(self).parent_spec().tree_spec()
                    &&& n.root_spec() == old(self).parent_spec().root_spec()
                    &&& n.path_spec() == old(self).parent_spec().path_spec().push(
                        (final(self).index_spec() - 1) as usize,
                    )
                    &&& old(self).parent_spec().tree_spec().node_children_at(
                        old(self).parent_spec().node_spec(),
                    )[final(self).index_spec() - 1] is Node
                    &&& forall|i: int|
                        old(self).index_spec() <= i < final(self).index_spec() - 1 ==> !((
                        #[trigger] old(self).parent_spec().tree_spec().node_children_at(
                            old(self).parent_spec().node_spec(),
                        )[i]) is Node)
                },
                Option::None => {
                    &&& final(self).index_spec() >= old(self).parent_spec().child_count_spec()
                    &&& forall|i: int|
                        old(self).index_spec() <= i < old(self).parent_spec().child_count_spec() ==> !((
                        #[trigger] old(self).parent_spec().tree_spec().node_children_at(
                            old(self).parent_spec().node_spec(),
                        )[i]) is Node)
                },
            },
    {
        proof {
            use_type_invariant(&self.parent);
        }
        let count = self.parent.child_count();
        while self.index < count
            invariant
                self.parent == old(self).parent,
                old(self).index <= self.index,
                count == self.parent.child_count_spec(),
                forall|i: int|
                    old(self).index_spec() <= i < self.index ==> !((#[trigger] self.parent.tree_spec().node_children_at(
                        self.parent.node_spec(),
                    )[i]) is Node),
            decreases count - self.index,
        {
            let r = self.parent.child(self.index);
            self.index = self.index + 1;
            match r {
                Option::Some(SyntaxElement::Node(n)) => {
                    return Some(n);
                },
                _ => {},
            }
        }
        None
    }
}

impl SyntaxNode {
    /// Starts iteration over this node's children, nodes and tokens
    /// interleaved in document order.
    pub fn children_with_tokens(&self) -> (r: SyntaxElementChildren)
        ensures
            r.parent_spec().tree_spec() == self.tree_spec(),
            r.parent_spec().root_spec() == self.root_spec(),
            r.parent_spec().path_spec() == self.path_spec(),
            r.index_spec() == 0,
    {
        proof {
            use_type_invariant(self);
        }
        SyntaxElementChildren {
            parent: SyntaxNode {
                tree: share_tree(&self.tree),
                root: self.root,
                path: copy_path(&self.path),
                node: self.node,
                offset: self.offset,
            },
            index: 0,
        }
    }

    /// Starts iteration over this node's node children.
    pub fn children(&self) -> (r: SyntaxNodeChildren)
        ensures
            r.parent_spec().tree_spec() == self.tree_spec(),
            r.parent_spec().root_spec() == self.root_spec(),
            r.parent_spec().path_spec() == self.path_spec(),
            r.index_spec() == 0,
    {
        proof {
            use_type_invariant(self);
        }
        SyntaxNodeChildren {
            parent: SyntaxNode {
                tree: share_tree(&self.tree),
                root: self.root,
                path: copy_path(&self.path),
                node: self.node,
                offset: self.offset,
            },
            index: 0,
        }
    }
}

// ---------------------------------------------------------------------
// Whole-text reconstruction.
// ---------------------------------------------------------------------

/// Number of green elements in the subtree under `e`, counting `e`.
/// Serves as the termination measure of the worklist walks.
pub open(crate) spec fn elem_size(nodes: Seq<GreenNode>, tokens: Seq<GreenToken>, e: GreenElement) -> nat
    decreases elem_rank(e), 0int, 0int,
        when arena_wf(nodes, tokens) && elem_valid(e, nodes.len() as int, tokens.len() as int)
{
    match e {
        GreenElement::Node(j) => 1 + seq_size(nodes, tokens, j as int, nodes[j as int].children@),
        GreenElement::Token(_) => 1,
    }
}

/// Domain condition of [`seq_size`]: a well-formed arena and elements
/// whose ranks stay below the bound.
pub open(crate) spec fn seq_size_dom(nodes: Seq<GreenNode>, tokens: Seq<GreenToken>, bound: int, s: Seq<GreenElement>) -> bool {
    &&& arena_wf(nodes, tokens)
    &&& forall|c: int|
        0 <= c < s.len() ==> elem_valid(#[trigger] s[c], nodes.len() as int, tokens.len() as int)
            && elem_rank(s[c]) <= bound
}

/// Summed subtree sizes of a list of elements.
pub open(crate) spec fn seq_size(nodes: Seq<GreenNode>, tokens: Seq<GreenToken>, bound: int, s: Seq<GreenElement>) -> nat
    decreases bound, 1int, s.len(),
        when seq_size_dom(nodes, tokens, bound, s)
        via seq_size_decreases
{
    if s.len() == 0 {
        0
    } else {
        seq_size(nodes, tokens, bound, s.drop_last()) + elem_size(nodes, tokens, s.last())
    }
}

#[via_fn]
proof fn seq_size_decreases(nodes: Seq<GreenNode>, tokens: Seq<GreenToken>, bound: int, s: Seq<GreenElement>) {
    if s.len() > 0 {
        assert(elem_rank(s[s.len() - 1]) <= bound);
    }
}

/// The summed size does not depend on the rank bound, as long as both
/// bounds are admissible.
proof fn lemma_seq_size_bound(nodes: Seq<GreenNode>, tokens: Seq<GreenToken>, b1: int, b2: int, s: Seq<GreenElement>)
    requires
        seq_size_dom(nodes, tokens, b1, s),
        seq_size_dom(nodes, tokens, b2, s),
    ensures
        seq_size(nodes, tokens, b1, s) == seq_size(nodes, tokens, b2, s),
    decreases s.len(),
{
    if s.len() > 0 {
        lemma_seq_size_bound(nodes, tokens, b1, b2, s.drop_last());
    }
}

/// Sizes add over concatenation.
proof fn lemma_seq_size_concat(nodes: Seq<GreenNode>, tokens: Seq<GreenToken>, bound: int, a: Seq<GreenElement>, b: Seq<GreenElement>)
    requires
        seq_size_dom(nodes, tokens, bound, a),
        seq_size_dom(nodes, tokens, bound, b),
    ensures
        seq_size(nodes, tokens, bound, a + b) == seq_size(nodes, tokens, bound, a) + seq_size(
            nodes,
            tokens,
            bound,
            b,
        ),
    decreases b.len(),
{
    assert(seq_size_dom(nodes, tokens, bound, a + b));
    if b.len() == 0 {
        assert(a + b =~= a);
    } else {
        assert((a + b).drop_last() =~= a + b.drop_last());
        assert((a + b).last() == b.last());
        lemma_seq_size_concat(nodes, tokens, bound, a, b.drop_last());
    }
}

/// Sizes are invariant under reversal.
proof fn lemma_seq_size_reverse(nodes: Seq<GreenNode>, tokens: Seq<GreenToken>, bound: int, s: Seq<GreenElement>)
    requires
        seq_size_dom(nodes, tokens, bound, s),
    ensures
        seq_size(nodes, tokens, bound, s.reverse()) == seq_size(nodes, tokens, bound, s),
    decreases s.len(),
{
    if s.len() > 0 {
        assert(s.reverse().last() == s[0]);
        assert(s.reverse().drop_last() =~= s.drop_first().reverse());
        assert(seq_size_dom(nodes, tokens, bound, s.drop_first()));
        lemma_seq_size_reverse(nodes, tokens, bound, s.drop_first());
        lemma_seq_size_cons(nodes, tokens, bound, s);
        assert(seq_size_dom(nodes, tokens, bound, s.reverse()));
    }
}

/// Peeling the first element of a size sum.
proof fn lemma_seq_size_cons(nodes: Seq<GreenNode>, tokens: Seq<GreenToken>, bound: int, s: Seq<GreenElement>)
    requires
        seq_size_dom(nodes, tokens, bound, s),
        s.len() >= 1,
    ensures
        seq_size(nodes, tokens, bound, s) == elem_size(nodes, tokens, s[0]) + seq_size(
            nodes,
            tokens,
            bound,
            s.drop_first(),
        ),
    decreases s.len(),
{
    if s.len() == 1 {
        assert(s.drop_last() =~= Seq::<GreenElement>::empty());
        assert(s.drop_first() =~= Seq::<GreenElement>::empty());
        assert(s.last() == s[0]);
    } else {
        assert(seq_size_dom(nodes, tokens, bound, s.drop_last()));
        lemma_seq_size_cons(nodes, tokens, bound, s.drop_last());
        assert(s.drop_last()[0] == s[0]);
        assert(s.drop_last().drop_first() =~= s.drop_first().drop_last());
        assert(s.drop_first().last() == s.last());
        assert(seq_size_dom(nodes, tokens, bound, s.drop_first()));
    }
}

/// The text a worklist still owes: the texts of its elements, topmost
/// (= last) first.
pub open(crate) spec fn stack_text(nodes: Seq<GreenNode>, tokens: Seq<GreenToken>, s: Seq<GreenElement>) -> Seq<u8>
    decreases s.len(),
{
    if s.len() == 0 {
        Seq::empty()
    } else {
        elem_text(nodes, tokens, s.last()) + stack_text(nodes, tokens, s.drop_last())
    }
}

/// Worklist texts concatenate contravariantly.
proof fn lemma_stack_text_concat(nodes: Seq<GreenNode>, tokens: Seq<GreenToken>, a: Seq<GreenElement>, b: Seq<GreenElement>)
    ensures
        stack_text(nodes, tokens, a + b) == stack_text(nodes, tokens, b) + stack_text(nodes, tokens, a),
    decreases b.len(),
{
    if b.len() == 0 {
        assert(a + b =~= a);
        assert(stack_text(nodes, tokens, b) + stack_text(nodes, tokens, a) =~= stack_text(nodes, tokens, a));
    } else {
        assert((a + b).drop_last() =~= a + b.drop_last());
        assert((a + b).last() == b.last());
        lemma_stack_text_concat(nodes, tokens, a, b.drop_last());
        assert(elem_text(nodes, tokens, b.last()) + (stack_text(nodes, tokens, b.drop_last()) + stack_text(nodes, tokens, a))
            =~= (elem_text(nodes, tokens, b.last()) + stack_text(nodes, tokens, b.drop_last())) + stack_text(nodes, tokens, a));
    }
}

/// A reversed child list on the worklist owes exactly the children's
/// texts in document order.
proof fn lemma_stack_text_reverse(nodes: Seq<GreenNode>, tokens: Seq<GreenToken>, s: Seq<GreenElement>)
    requires
        arena_wf(nodes, tokens),
        forall|c: int| 0 <= c < s.len() ==> elem_valid(#[trigger] s[c], nodes.len() as int, tokens.len() as int),
    ensures
        stack_text(nodes, tokens, s.reverse()) == elems_text(nodes, tokens, s, s.len() as int),
    decreases s.len(),
{
    if s.len() > 0 {
        assert(s.reverse().last() == s[0]);
        assert(s.reverse().drop_last() =~= s.drop_first().reverse());
        lemma_stack_text_reverse(nodes, tokens, s.drop_first());
        lemma_elems_text_cons(nodes, tokens, s);
    }
}

/// Peeling the first element of a concatenated text.
proof fn lemma_elems_text_cons(nodes: Seq<GreenNode>, tokens: Seq<GreenToken>, s: Seq<GreenElement>)
    requires
        arena_wf(nodes, tokens),
        forall|c: int| 0 <= c < s.len() ==> elem_valid(#[trigger] s[c], nodes.len() as int, tokens.len() as int),
        s.len() >= 1,
    ensures
        elems_text(nodes, tokens, s, s.len() as int) == elem_text(nodes, tokens, s[0]) + elems_text(
            nodes,
            tokens,
            s.drop_first(),
            s.len() - 1,
        ),
    decreases s.len(),
{
    let n = s.len() as int;
    if s.len() == 1 {
        assert(elems_text(nodes, tokens, s, 0) == Seq::<u8>::empty());
        assert(elems_text(nodes, tokens, s.drop_first(), 0) == Seq::<u8>::empty());
        assert(elem_text(nodes, tokens, s[0]) + Seq::<u8>::empty() =~= Seq::<u8>::empty() + elem_text(
            nodes,
            tokens,
            s[0],
        ));
    } else {
        lemma_elems_text_cons(nodes, tokens, s.drop_last());
        assert(s.drop_last()[0] == s[0]);
        assert(s.drop_last().drop_first() =~= s.drop_first().drop_last());
        assert(s.drop_first().last() == s.last());
        assert(s.drop_last().len() == n - 1);
        assert(elems_text(nodes, tokens, s.drop_last(), n - 1) == elems_text(nodes, tokens, s, n - 1)) by {
            crate::green::lemma_elems_text_agree(nodes, tokens, s, s.drop_last(), n - 1);
        }
        assert(elems_text(nodes, tokens, s.drop_first().drop_last(), n - 2) == elems_text(
            nodes,
            tokens,
            s.drop_first(),
            n - 2,
        )) by {
            crate::green::lemma_elems_text_agree(nodes, tokens, s.drop_first(), s.drop_first().drop_last(), n - 2);
        }
        assert(elem_text(nodes, tokens, s[0]) + (elems_text(nodes, tokens, s.drop_first(), n - 2) + elem_text(
            nodes,
            tokens,
            s.last(),
        )) =~= (elem_text(nodes, tokens, s[0]) + elems_text(nodes, tokens, s.drop_first(), n - 2)) + elem_text(
            nodes,
            tokens,
            s.last(),
        ));
    }
}

impl SyntaxNode {
    /// Reconstructs this node's exact text: its leaf tokens concatenated
    /// in document order.  The walk is driven by an explicit worklist, so
    /// the call stack stays bounded whatever the tree depth.
    pub fn text(&self) -> (r: Vec<u8>)
        ensures
            r@ == self.text_of(),
    {
        proof {
            use_type_invariant(self);
        }
        let ghost nodes = self.tree_spec().nodes_spec();
        let ghost tokens = self.tree_spec().tokens_spec();
        let ghost bound = nodes.len() as int;
        let mut out: Vec<u8> = Vec::new();
        let mut stack: Vec<GreenElement> = Vec::new();
        stack.push(GreenElement::Node(self.node));
        proof {
            assert(stack@ =~= seq![GreenElement::Node(self.node)]);
            assert(stack@.drop_last() =~= Seq::<GreenElement>::empty());
            assert(stack_text(nodes, tokens, stack@.drop_last()) == Seq::<u8>::empty());
            assert(stack@.last() == GreenElement::Node(self.node));
            assert(elem_valid(GreenElement::Node(self.node), nodes.len() as int, tokens.len() as int));
            assert(elem_text(nodes, tokens, GreenElement::Node(self.node)) == node_text(nodes, tokens, self.node_spec()));
            assert(stack_text(nodes, tokens, stack@)
                == node_text(nodes, tokens, self.node_spec()) + Seq::<u8>::empty());
            assert(out@ + stack_text(nodes, tokens, stack@) =~= self.text_of());
        }
        loop
            invariant
                self.wf(),
                nodes == self.tree_spec().nodes_spec(),
                tokens == self.tree_spec().tokens_spec(),
                bound == nodes.len() as int,
                forall|c: int|
                    0 <= c < stack@.len() ==> elem_valid(#[trigger] stack@[c], nodes.len() as int, tokens.len() as int),
                out@ + stack_text(nodes, tokens, stack@) == self.text_of(),
            decreases seq_size(nodes, tokens, bound, stack@),
        {
            proof {
                assert forall|c: int| 0 <= c < stack@.len() implies elem_valid(
                    #[trigger] stack@[c],
                    nodes.len() as int,
                    tokens.len() as int,
                ) && elem_rank(stack@[c]) <= bound by {
                    assert(elem_valid(stack@[c], nodes.len() as int, tokens.len() as int));
                }
                assert(seq_size_dom(nodes, tokens, bound, stack@));
            }
            if stack.len() == 0 {
                proof {
                    assert(out@ + stack_text(nodes, tokens, stack@) =~= out@);
                }
                return out;
            }
            let ghost old_stack = stack@;
            let e = stack.pop().unwrap();
            proof {
                assert(old_stack.drop_last() =~= stack@);
                assert(old_stack.last() == e);
            }
            match e {
                GreenElement::Token(k) => {
                    let t = (*self.tree).token_text(k);
                    let mut b: usize = 0;
                    let ghost out0 = out@;
                    while b < t.len()
                        invariant
                            b <= t@.len(),
                            t@ == tokens[k as int].text@,
                            out@ == out0 + t@.take(b as int),
                        decreases t@.len() - b,
                    {
                        out.push(t[b]);
                        proof {
                            assert(out@ =~= out0 + t@.take(b + 1 as int));
                        }
                        b = b + 1;
                    }
                    proof {
                        assert(out@ =~= out0 + tokens[k as int].text@);
                        assert(out@ + stack_text(nodes, tokens, stack@) =~= out0 + stack_text(nodes, tokens, old_stack));
                        assert(seq_size_dom(nodes, tokens, bound, stack@));
                        assert(seq_size(nodes, tokens, bound, old_stack)
                            == seq_size(nodes, tokens, bound, stack@) + elem_size(nodes, tokens, e));
                        assert(elem_size(nodes, tokens, e) == 1);
                    }
                },
                GreenElement::Node(j) => {
                    let cc = (*self.tree).node_child_count(j);
                    let ghost ch = nodes[j as int].children@;
                    let ghost base = stack@;
                    proof {
                        assert(node_wf(nodes, tokens, j as int));
                    }
                    let mut c: usize = cc;
                    while c > 0
                        invariant
                            c <= cc,
                            cc == ch.len(),
                            self.wf(),
                            nodes == self.tree_spec().nodes_spec(),
                            tokens == self.tree_spec().tokens_spec(),
                            (j as int) < nodes.len(),
                            ch == nodes[j as int].children@,
                            node_wf(nodes, tokens, j as int),
                            stack@ =~= base + ch.subrange(c as int, cc as int).reverse(),
                        decreases c,
                    {
                        c = c - 1;
                        let el = (*self.tree).node_child(j, c);
                        stack.push(el);
                        proof {
                            assert(ch.subrange(c as int, cc as int).reverse() =~= ch.subrange(
                                c + 1,
                                cc as int,
                            ).reverse().push(ch[c as int]));
                            assert(stack@ =~= base + ch.subrange(c as int, cc as int).reverse());
                        }
                    }
                    proof {
                        assert(ch.subrange(0, cc as int) =~= ch);
                        assert(stack@ =~= base + ch.reverse());
                        // The popped node owes its children's texts, which the
                        // reversed pushes now owe in the same order.
                        assert forall|d: int| 0 <= d < ch.len() implies elem_valid(
                            #[trigger] ch[d],
                            nodes.len() as int,
                            tokens.len() as int,
                        ) && elem_rank(ch[d]) <= bound by {
                            assert(elem_valid(ch[d], j as int, tokens.len() as int));
                        }
                        assert forall|d: int| 0 <= d < stack@.len() implies elem_valid(
                            #[trigger] stack@[d],
                            nodes.len() as int,
                            tokens.len() as int,
                        ) by {
                            if d < base.len() {
                                assert(stack@[d] == base[d]);
                            } else {
                                assert(stack@[d] == ch.reverse()[d - base.len()]);
                            }
                        }
                        lemma_stack_text_concat(nodes, tokens, base, ch.reverse());
                        lemma_stack_text_reverse(nodes, tokens, ch);
                        crate::green::lemma_children_text_is_elems_text(nodes, tokens, j as int, cc as int);
                        assert(elem_text(nodes, tokens, e) == node_text(nodes, tokens, j as int));
                        assert(out@ + stack_text(nodes, tokens, stack@) =~= out@ + stack_text(nodes, tokens, old_stack));
                        // Termination: the node left the worklist, its
                        // children joined it, and sizes add up.
                        assert(seq_size_dom(nodes, tokens, bound, base));
                        assert(seq_size_dom(nodes, tokens, bound, ch.reverse())) by {
                            assert forall|d: int| 0 <= d < ch.reverse().len() implies elem_valid(
                                #[trigger] ch.reverse()[d],
                                nodes.len() as int,
                                tokens.len() as int,
                            ) && elem_rank(ch.reverse()[d]) <= bound by {
                                assert(ch.reverse()[d] == ch[ch.len() - 1 - d]);
                            }
                        }
                        lemma_seq_size_concat(nodes, tokens, bound, base, ch.reverse());
                        lemma_seq_size_reverse(nodes, tokens, bound, ch);
                        assert(seq_size_dom(nodes, tokens, j as int, ch));
                        lemma_seq_size_bound(nodes, tokens, bound, j as int, ch);
                        assert(seq_size(nodes, tokens, bound, old_stack)
                            == seq_size(nodes, tokens, bound, base) + elem_size(nodes, tokens, e));
                        assert(elem_size(nodes, tokens, e) == 1 + seq_size(nodes, tokens, j as int, ch));
                        assert(seq_size(nodes, tokens, bound, stack@)
                            == seq_size(nodes, tokens, bound, base) + seq_size(nodes, tokens, bound, ch.reverse()));
                        assert(seq_size(nodes, tokens, bound, stack@) < seq_size(nodes, tokens, bound, old_stack));
                    }
                },
            }
        }
    }
}

/// The green arena reference a red element stands on.
pub open(crate) spec fn green_of(el: SyntaxElement) -> GreenElement {
    match el {
        SyntaxElement::Node(n) => GreenElement::Node(n.node),
        SyntaxElement::Token(t) => GreenElement::Token(t.token),
    }
}

/// The green references of a list of red elements.
pub open(crate) spec fn greens_of(s: Seq<SyntaxElement>) -> Seq<GreenElement> {
    s.map_values(|el: SyntaxElement| green_of(el))
}

impl SyntaxNode {
    /// All elements of this node's subtree — the node itself, its
    /// descendants and their tokens — in document (preorder) order,
    /// collected iteratively with an explicit worklist.  The result holds
    /// exactly one entry per occurrence in the subtree, all in this tree
    /// under this root, with this node first.
    pub fn descendants(&self) -> (r: Vec<SyntaxElement>)
        ensures
            r@.len() == elem_size(
                self.tree_spec().nodes_spec(),
                self.tree_spec().tokens_spec(),
                GreenElement::Node(self.node_spec() as usize),
            ),
            r@.len() >= 1,
            forall|i: int|
                0 <= i < r@.len() ==> (#[trigger] r@[i]).tree_spec() == self.tree_spec()
                    && r@[i].root_spec() == self.root_spec()
                    && self.path_spec().is_prefix_of(r@[i].path_spec()),
            r@[0] is Node,
            r@[0].path_spec() == self.path_spec(),
            r@[0].offset_spec() == self.offset_spec(),
    {
        proof {
            use_type_invariant(self);
        }
        let ghost nodes = self.tree_spec().nodes_spec();
        let ghost tokens = self.tree_spec().tokens_spec();
        let ghost bound = nodes.len() as int;
        let mut out: Vec<SyntaxElement> = Vec::new();
        let mut stack: Vec<SyntaxElement> = Vec::new();
        let here = SyntaxNode {
            tree: share_tree(&self.tree),
            root: self.root,
            path: copy_path(&self.path),
            node: self.node,
            offset: self.offset,
        };
        stack.push(SyntaxElement::Node(here));
        proof {
            assert(greens_of(stack@) =~= seq![GreenElement::Node(self.node)]);
            assert(greens_of(stack@).drop_last() =~= Seq::<GreenElement>::empty());
            assert(elem_valid(GreenElement::Node(self.node), nodes.len() as int, tokens.len() as int));
            assert(seq_size_dom(nodes, tokens, bound, greens_of(stack@)));
            assert(seq_size(nodes, tokens, bound, greens_of(stack@).drop_last()) == 0);
            assert(greens_of(stack@).last() == GreenElement::Node(self.node));
            assert(seq_size(nodes, tokens, bound, greens_of(stack@))
                == elem_size(nodes, tokens, GreenElement::Node(self.node)));
        }
        loop
            invariant
                self.wf(),
                nodes == self.tree_spec().nodes_spec(),
                tokens == self.tree_spec().tokens_spec(),
                bound == nodes.len() as int,
                forall|c: int|
                    0 <= c < stack@.len() ==> (#[trigger] stack@[c]).tree_spec() == self.tree_spec()
                        && stack@[c].root_spec() == self.root_spec()
                        && self.path_spec().is_prefix_of(stack@[c].path_spec()),
                forall|c: int|
                    0 <= c < stack@.len() ==> elem_valid(
                        #[trigger] greens_of(stack@)[c],
                        nodes.len() as int,
                        tokens.len() as int,
                    ),
                forall|i: int|
                    0 <= i < out@.len() ==> (#[trigger] out@[i]).tree_spec() == self.tree_spec()
                        && out@[i].root_spec() == self.root_spec()
                        && self.path_spec().is_prefix_of(out@[i].path_spec()),
                out@.len() + seq_size(nodes, tokens, bound, greens_of(stack@)) == elem_size(
                    nodes,
                    tokens,
                    GreenElement::Node(self.node_spec() as usize),
                ),
                out@.len() == 0 ==> (stack@.len() == 1 && stack@[0] is Node
                    && stack@[0].path_spec() == self.path_spec()
                    && stack@[0].offset_spec() == self.offset_spec()),
                out@.len() > 0 ==> (out@[0] is Node && out@[0].path_spec() == self.path_spec()
                    && out@[0].offset_spec() == self.offset_spec()),
                out@.len() > 0 || stack@.len() > 0,
            decreases seq_size(nodes, tokens, bound, greens_of(stack@)),
        {
            proof {
                assert forall|c: int| 0 <= c < stack@.len() implies elem_valid(
                    #[trigger] greens_of(stack@)[c],
                    nodes.len() as int,
                    tokens.len() as int,
                ) && elem_rank(greens_of(stack@)[c]) <= bound by {
                    assert(elem_valid(greens_of(stack@)[c], nodes.len() as int, tokens.len() as int));
                }
                assert(seq_size_dom(nodes, tokens, bound, greens_of(stack@)));
            }
            if stack.len() == 0 {
                return out;
            }
            let ghost old_stack = stack@;
            let el = stack.pop().unwrap();
            proof {
                assert(old_stack.drop_last() =~= stack@);
                assert(greens_of(old_stack).drop_last() =~= greens_of(stack@));
                assert(greens_of(old_stack).last() == green_of(el));
            }
            match &el {
                SyntaxElement::Node(n) => {
                    proof {
                        use_type_invariant(n);
                        assert(node_wf(nodes, tokens, n.node as int));
                    }
                    let cc = n.child_count();
                    let ghost ch = children_at(nodes, n.node as int);
                    let ghost base = stack@;
                    let mut c: usize = cc;
                    while c > 0
                        invariant
                            c <= cc,
                            cc == ch.len(),
                            self.wf(),
                            n.wf(),
                            nodes == self.tree_spec().nodes_spec(),
                            tokens == self.tree_spec().tokens_spec(),
                            bound == nodes.len() as int,
                            n.tree_spec() == self.tree_spec(),
                            n.root_spec() == self.root_spec(),
                            self.path_spec().is_prefix_of(n.path_spec()),
                            ch == children_at(nodes, n.node as int),
                            (n.node as int) < nodes.len(),
                            node_wf(nodes, tokens, n.node as int),
                            greens_of(stack@) =~= greens_of(base) + ch.subrange(c as int, cc as int).reverse(),
                            forall|d: int|
                                0 <= d < stack@.len() ==> (#[trigger] stack@[d]).tree_spec() == self.tree_spec()
                                    && stack@[d].root_spec() == self.root_spec()
                                    && self.path_spec().is_prefix_of(stack@[d].path_spec()),
                            forall|d: int|
                                0 <= d < stack@.len() ==> elem_valid(
                                    #[trigger] greens_of(stack@)[d],
                                    nodes.len() as int,
                                    tokens.len() as int,
                                ),
                        decreases c,
                    {
                        c = c - 1;
                        let child = match n.child(c) {
                            Option::Some(chel) => chel,
                            Option::None => {
                                proof {
                                    assert(false);
                                }
                                return out;
                            },
                        };
                        proof {
                            lemma_path_push(nodes, tokens, n.root_spec(), n.path_spec(), c);
                            match &child {
                                SyntaxElement::Node(x) => {
                                    use_type_invariant(x);
                                    assert(green_of(child) == ch[c as int]);
                                },
                                SyntaxElement::Token(x) => {
                                    use_type_invariant(x);
                                    assert(green_of(child) == ch[c as int]);
                                },
                            }
                            assert(self.path_spec().is_prefix_of(child.path_spec())) by {
                                assert(child.path_spec().take(self.path_spec().len() as int)
                                    =~= self.path_spec());
                            }
                            assert(elem_valid(ch[c as int], n.node as int, tokens.len() as int));
                        }
                        let ghost before = stack@;
                        stack.push(child);
                        proof {
                            assert(greens_of(stack@) =~= greens_of(before).push(green_of(child)));
                            assert(ch.subrange(c as int, cc as int).reverse() =~= ch.subrange(
                                c + 1,
                                cc as int,
                            ).reverse().push(ch[c as int]));
                            assert(greens_of(stack@) =~= greens_of(base) + ch.subrange(c as int, cc as int).reverse());
                        }
                    }
                    proof {
                        assert(ch.subrange(0, cc as int) =~= ch);
                        assert(greens_of(stack@) =~= greens_of(base) + ch.reverse());
                        assert forall|d: int| 0 <= d < ch.len() implies elem_valid(
                            #[trigger] ch[d],
                            nodes.len() as int,
                            tokens.len() as int,
                        ) && elem_rank(ch[d]) <= bound by {
                            assert(elem_valid(ch[d], n.node as int, tokens.len() as int));
                        }
                        assert(seq_size_dom(nodes, tokens, bound, greens_of(base)));
                        assert(seq_size_dom(nodes, tokens, bound, ch.reverse())) by {
                            assert forall|d: int| 0 <= d < ch.reverse().len() implies elem_valid(
                                #[trigger] ch.reverse()[d],
                                nodes.len() as int,
                                tokens.len() as int,
                            ) && elem_rank(ch.reverse()[d]) <= bound by {
                                assert(ch.reverse()[d] == ch[ch.len() - 1 - d]);
                            }
                        }
                        lemma_seq_size_concat(nodes, tokens, bound, greens_of(base), ch.reverse());
                        lemma_seq_size_reverse(nodes, tokens, bound, ch);
                        assert(seq_size_dom(nodes, tokens, n.node as int, ch));
                        lemma_seq_size_bound(nodes, tokens, bound, n.node as int, ch);
                        assert(elem_size(nodes, tokens, green_of(el))
                            == 1 + seq_size(nodes, tokens, n.node as int, ch));
                    }
                },
                SyntaxElement::Token(_) => {
                    proof {
                        assert(elem_size(nodes, tokens, green_of(el)) == 1);
                    }
                },
            }
            let ghost old_out = out@;
            out.push(el);
            proof {
                assert(out@ == old_out.push(el));
                if old_out.len() == 0 {
                    assert(out@[0] == el);
                }
            }
        }
    }
}

/// One step of a preorder walk: a node or token is entered once before
/// any of its children and left once after all of them.
#[derive(Debug)]
pub enum WalkEvent {
    /// The walk enters this element.
    Enter(SyntaxElement),
    /// The walk leaves this element.
    Leave(SyntaxElement),
}

/// The successor relation of the preorder walk: after `Enter` of a node
/// comes `Enter` of its first child (or its own `Leave` when childless),
/// after `Enter` of a token its `Leave`, and after a `Leave` the `Enter`
/// of the next sibling, else the `Leave` of the parent — until the base
/// node, whose `Leave` ends the walk.
pub open(crate) spec fn is_walk_succ(base_depth: int, ev: WalkEvent, succ: Option<WalkEvent>) -> bool {
    match ev {
        WalkEvent::Enter(el) => match el {
            SyntaxElement::Node(n) => {
                if children_at(n.tree_spec().nodes_spec(), n.node_spec()).len() > 0 {
                    match succ {
                        Option::Some(WalkEvent::Enter(first)) => {
                            &&& first.tree_spec() == n.tree_spec()
                            &&& first.root_spec() == n.root_spec()
                            &&& first.path_spec() == n.path_spec().push(0usize)
                            &&& first.offset_spec() == n.offset_spec()
                        },
                        _ => false,
                    }
                } else {
                    match succ {
                        Option::Some(WalkEvent::Leave(SyntaxElement::Node(m))) => {
                            &&& m.tree_spec() == n.tree_spec()
                            &&& m.root_spec() == n.root_spec()
                            &&& m.path_spec() == n.path_spec()
                            &&& m.node_spec() == n.node_spec()
                            &&& m.offset_spec() == n.offset_spec()
                        },
                        _ => false,
                    }
                }
            },
            SyntaxElement::Token(t) => match succ {
                Option::Some(WalkEvent::Leave(SyntaxElement::Token(u))) => {
                    &&& u.tree_spec() == t.tree_spec()
                    &&& u.root_spec() == t.root_spec()
                    &&& u.path_spec() == t.path_spec()
                    &&& u.offset_spec() == t.offset_spec()
                },
                _ => false,
            },
        },
        WalkEvent::Leave(el) => {
            let p = el.path_spec();
            let nodes = el.tree_spec().nodes_spec();
            let parent_children = children_at(nodes, node_at(nodes, el.root_spec(), p.drop_last()));
            if p.len() <= base_depth {
                succ is None
            } else if p.last() + 1 < parent_children.len() {
                match succ {
                    Option::Some(WalkEvent::Enter(sib)) => {
                        &&& sib.tree_spec() == el.tree_spec()
                        &&& sib.root_spec() == el.root_spec()
                        &&& sib.path_spec() == p.drop_last().push((p.last() + 1) as usize)
                    },
                    _ => false,
                }
            } else {
                match succ {
                    Option::Some(WalkEvent::Leave(SyntaxElement::Node(par))) => {
                        &&& par.tree_spec() == el.tree_spec()
                        &&& par.root_spec() == el.root_spec()
                        &&& par.path_spec() == p.drop_last()
                    },
                    _ => false,
                }
            }
        },
    }
}

/// A lazy, finite preorder walk over a subtree: enter/leave events in
/// document order, produced one at a time with no recursion.
#[derive(Debug)]
pub struct Preorder {
    pub(crate) base_depth: usize,
    pub(crate) pending: Option<WalkEvent>,
}

impl Preorder {
    /// The event the next call will yield, if the walk is not finished.
    pub open(crate) spec fn pending_spec(&self) -> Option<WalkEvent> {
        self.pending
    }

    /// The depth of the walked subtree's base node.
    pub open(crate) spec fn base_depth_spec(&self) -> int {
        self.base_depth as int
    }
}

impl SyntaxNode {
    /// Starts a preorder walk over this node's subtree.  The walk yields
    /// `Enter` of this node first and `Leave` of it last, then ends.
    pub fn preorder(&self) -> (r: Preorder)
        ensures
            r.base_depth_spec() == self.path_spec().len(),
            match r.pending_spec() {
                Option::Some(WalkEvent::Enter(SyntaxElement::Node(n))) => {
                    &&& n.tree_spec() == self.tree_spec()
                    &&& n.root_spec() == self.root_spec()
                    &&& n.path_spec() == self.path_spec()
                    &&& n.node_spec() == self.node_spec()
                    &&& n.offset_spec() == self.offset_spec()
                },
                _ => false,
            },
    {
        proof {
            use_type_invariant(self);
        }
        let here = SyntaxNode {
            tree: share_tree(&self.tree),
            root: self.root,
            path: copy_path(&self.path),
            node: self.node,
            offset: self.offset,
        };
        Preorder { base_depth: self.path.len(), pending: Some(WalkEvent::Enter(SyntaxElement::Node(here))) }
    }
}

impl Preorder {
    /// The next enter/leave event of the walk, or `None` once the base
    /// node has been left.  The event returned is the pending one, and
    /// the new pending event is its successor in preorder ([`is_walk_succ`]):
    /// each node is entered once before its children and left once after
    /// them, in document order.
    pub fn next(&mut self) -> (r: Option<WalkEvent>)
        ensures
            r == old(self).pending_spec(),
            final(self).base_depth_spec() == old(self).base_depth_spec(),
            match r {
                Option::Some(ev) => is_walk_succ(
                    old(self).base_depth_spec(),
                    ev,
                    final(self).pending_spec(),
                ),
                Option::None => final(self).pending_spec() is None,
            },
    {
        let pending = self.pending.take();
        match pending {
            Option::None => None,
            Option::Some(ev) => {
                let succ: Option<WalkEvent> = match &ev {
                    WalkEvent::Enter(el) => match el {
                        SyntaxElement::Node(n) => match n.child(0) {
                            Option::Some(first) => {
                                proof {
                                    assert(prefix_len(
                                        n.tree_spec().nodes_spec(),
                                        n.tree_spec().tokens_spec(),
                                        n.tree_spec().node_children_at(n.node_spec()),
                                        0,
                                    ) == 0);
                                }
                                Some(WalkEvent::Enter(first))
                            },
                            Option::None => Some(WalkEvent::Leave(SyntaxElement::Node(clone_node(n)))),
                        },
                        SyntaxElement::Token(t) => Some(WalkEvent::Leave(SyntaxElement::Token(clone_token(t)))),
                    },
                    WalkEvent::Leave(el) => {
                        let depth = match el {
                            SyntaxElement::Node(n) => n.path.len(),
                            SyntaxElement::Token(t) => t.path.len(),
                        };
                        if depth <= self.base_depth {
                            None
                        } else {
                            let sib = match el {
                                SyntaxElement::Node(n) => n.next_sibling(),
                                SyntaxElement::Token(t) => t.next_sibling(),
                            };
                            match sib {
                                Option::Some(s) => Some(WalkEvent::Enter(s)),
                                Option::None => {
                                    let par = match el {
                                        SyntaxElement::Node(n) => n.parent(),
                                        SyntaxElement::Token(t) => Some(t.parent()),
                                    };
                                    match par {
                                        Option::Some(p) => Some(WalkEvent::Leave(SyntaxElement::Node(p))),
                                        Option::None => {
                                            proof {
                                                assert(false);
                                            }
                                            None
                                        },
                                    }
                                },
                            }
                        }
                    },
                };
                self.pending = succ;
                Some(ev)
            },
        }
    }
}

/// Copies a node handle field for field.
fn clone_node(n: &SyntaxNode) -> (r: SyntaxNode)
    ensures
        r.tree_spec() == n.tree_spec(),
        r.root_spec() == n.root_spec(),
        r.path_spec() == n.path_spec(),
        r.node_spec() == n.node_spec(),
        r.offset_spec() == n.offset_spec(),
{
    proof {
        use_type_invariant(n);
    }
    SyntaxNode {
        tree: share_tree(&n.tree),
        root: n.root,
        path: copy_path(&n.path),
        node: n.node,
        offset: n.offset,
    }
}

/// Copies a token handle field for field.
fn clone_token(t: &SyntaxToken) -> (r: SyntaxToken)
    ensures
        r.tree_spec() == t.tree_spec(),
        r.root_spec() == t.root_spec(),
        r.path_spec() == t.path_spec(),
        r.offset_spec() == t.offset_spec(),
{
    proof {
        use_type_invariant(t);
    }
    SyntaxToken {
        tree: share_tree(&t.tree),
        root: t.root,
        path: copy_path(&t.path),
        token: t.token,
        offset: t.offset,
    }
}

} // verus!
