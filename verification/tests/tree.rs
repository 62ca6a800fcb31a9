use std::sync::Arc;

use rowan::SyntaxKind;
use rowan::SyntaxResolver;
use rowan::green::GreenNodeBuilder;
use rowan::green::GreenTree;
use rowan::green::GreenNode;
use rowan::green::GreenToken;
use rowan::green::GreenElement;
use rowan::syntax::SyntaxNode;
use rowan::syntax::SyntaxToken;
use rowan::syntax::SyntaxElement;
use rowan::algo::TokenAtOffset;
use rowan::algo::WalkEvent;

fn root_kind() -> SyntaxKind {
    SyntaxKind(0)
}

fn int_kind() -> SyntaxKind {
    SyntaxKind(1)
}

fn plus_kind() -> SyntaxKind {
    SyntaxKind(2)
}

fn sub_kind() -> SyntaxKind {
    SyntaxKind(3)
}

fn build_12_plus_34() -> SyntaxNode {
    let mut b = GreenNodeBuilder::new();
    b.start_node(root_kind());
    b.token(int_kind(), b"12".to_vec());
    b.token(plus_kind(), b"+".to_vec());
    b.token(int_kind(), b"34".to_vec());
    b.finish_node();
    SyntaxNode::new_root(Arc::new(b.finish()))
}

fn assert_send_sync_helper<T: Send + Sync>() {}

#[test]
fn assert_send_sync() {
    assert_send_sync_helper::<GreenTree>();
    assert_send_sync_helper::<SyntaxNode>();
    assert_send_sync_helper::<Arc<GreenTree>>();
}

#[test]
fn test_size_of() {
    println!("GreenNode    {}", std::mem::size_of::<GreenNode>());
    println!("GreenToken   {}", std::mem::size_of::<GreenToken>());
    println!("GreenElement {}", std::mem::size_of::<GreenElement>());
    println!();
    println!("SyntaxNode    {}", std::mem::size_of::<SyntaxNode>());
    println!("SyntaxToken   {}", std::mem::size_of::<SyntaxToken>());
    println!("SyntaxElement {}", std::mem::size_of::<SyntaxElement>());
}

#[test]
fn round_trip_concatenates_leaf_texts() {
    let root = build_12_plus_34();
    assert_eq!(root.text_len(), 5);
    let mut collected: Vec<u8> = Vec::new();
    let mut it = root.children_with_tokens();
    while let Some(el) = it.next() {
        match el {
            SyntaxElement::Token(t) => collected.extend_from_slice(t.text()),
            SyntaxElement::Node(_) => panic!("flat tree has no interior children"),
        }
    }
    assert_eq!(collected, b"12+34".to_vec());
    // The same reconstruction, via the worklist-driven walk.
    assert_eq!(root.text(), b"12+34".to_vec());
}

#[test]
fn length_invariant_sums_children() {
    let root = build_12_plus_34();
    let mut sum: usize = 0;
    let mut it = root.children_with_tokens();
    while let Some(el) = it.next() {
        let r = el.text_range();
        sum += r.end - r.start;
    }
    assert_eq!(sum, root.text_len());
    assert_eq!(root.text_range().start, 0);
    assert_eq!(root.text_range().end, 5);
}

#[test]
fn offset_invariant_child_ranges() {
    let root = build_12_plus_34();
    let ranges: Vec<(usize, usize)> = {
        let mut v = Vec::new();
        let mut it = root.children_with_tokens();
        while let Some(el) = it.next() {
            let r = el.text_range();
            v.push((r.start, r.end));
        }
        v
    };
    assert_eq!(ranges, vec![(0, 2), (2, 3), (3, 5)]);
}

#[test]
fn identity_equality_same_occurrence() {
    let root = build_12_plus_34();
    // Two handles reached by different navigations to the same occurrence.
    let a = match root.child(1).unwrap() {
        SyntaxElement::Token(t) => t,
        _ => panic!("expected a token"),
    };
    let b = match root.child(0).unwrap() {
        SyntaxElement::Token(t) => match t.next_sibling().unwrap() {
            SyntaxElement::Token(u) => u,
            _ => panic!("expected a token"),
        },
        _ => panic!("expected a token"),
    };
    assert_eq!(a, b);
    // The parent reached through a child is the root again.
    assert_eq!(a.parent(), root);
}

#[test]
fn identity_equality_distinct_occurrences() {
    let mut b = GreenNodeBuilder::new();
    b.start_node(root_kind());
    b.token(int_kind(), b"12".to_vec());
    b.token(int_kind(), b"12".to_vec());
    b.finish_node();
    let root = SyntaxNode::new_root(Arc::new(b.finish()));
    let first = root.child(0).unwrap();
    let second = root.child(1).unwrap();
    // Same kind, same text — different occurrences.
    assert_ne!(first, second);
}

fn expect_single(r: TokenAtOffset) -> SyntaxToken {
    match r {
        TokenAtOffset::Single(t) => t,
        _ => panic!("expected a single covering token"),
    }
}

fn expect_between(r: TokenAtOffset) -> (SyntaxToken, SyntaxToken) {
    match r {
        TokenAtOffset::Between(a, b) => (a, b),
        _ => panic!("expected a token boundary"),
    }
}

#[test]
fn token_at_offset_example() {
    let root = build_12_plus_34();
    assert_eq!(expect_single(root.token_at_offset(0)).text(), &b"12".to_vec());
    assert_eq!(expect_single(root.token_at_offset(1)).text(), &b"12".to_vec());
    let (l, r) = expect_between(root.token_at_offset(2));
    assert_eq!(l.text(), &b"12".to_vec());
    assert_eq!(r.text(), &b"+".to_vec());
    let (l, r) = expect_between(root.token_at_offset(3));
    assert_eq!(l.text(), &b"+".to_vec());
    assert_eq!(r.text(), &b"34".to_vec());
    assert_eq!(expect_single(root.token_at_offset(4)).text(), &b"34".to_vec());
    // End-of-document policy: the last token alone.
    assert_eq!(expect_single(root.token_at_offset(5)).text(), &b"34".to_vec());
    // Out of range.
    assert!(matches!(root.token_at_offset(6), TokenAtOffset::Missing));
}

#[test]
fn depth_stress() {
    let depth: usize = 100_000;
    let mut b = GreenNodeBuilder::new();
    let mut d: usize = 0;
    while d < depth {
        b.start_node(root_kind());
        d += 1;
    }
    b.token(int_kind(), b"x".to_vec());
    while d > 0 {
        b.finish_node();
        d -= 1;
    }
    let root = SyntaxNode::new_root(Arc::new(b.finish()));
    assert_eq!(root.text_len(), 1);
    assert_eq!(root.text(), b"x".to_vec());
    // Iterative descent through all the levels.
    let t = expect_single(root.token_at_offset(0));
    assert_eq!(t.text(), &b"x".to_vec());
    assert_eq!(t.text_range().start, 0);
    // Dropping the tree and all handles must not recurse either.
    drop(t);
    drop(root);
}

#[test]
fn structural_sharing_reuses_green_storage() {
    let mut b = GreenNodeBuilder::new();
    b.start_node(sub_kind());
    b.token(int_kind(), b"12".to_vec());
    let sub = b.finish_node();
    b.start_node(root_kind());
    b.reuse_node(sub);
    b.token(plus_kind(), b"+".to_vec());
    let second = b.finish_node();
    let tree = Arc::new(b.finish());
    // One arena: the shared subtree is stored exactly once.
    assert_eq!(tree.node_count(), 2);
    assert_eq!(tree.token_count(), 2);
    let first_root = SyntaxNode::new_root_at(Arc::clone(&tree), sub).unwrap();
    let second_root = SyntaxNode::new_root_at(Arc::clone(&tree), second).unwrap();
    assert_eq!(first_root.text_len(), 2);
    assert_eq!(second_root.text_len(), 3);
    // The reused subtree appears under the second root, unchanged.
    let inner = match second_root.child(0).unwrap() {
        SyntaxElement::Node(n) => n,
        _ => panic!("expected the shared subtree"),
    };
    assert_eq!(inner.kind(), sub_kind());
    assert_eq!(inner.text_len(), 2);
}

#[test]
fn new_root_at_rejects_foreign_id() {
    let mut b = GreenNodeBuilder::new();
    b.start_node(root_kind());
    b.start_node(sub_kind());
    b.finish_node();
    let outer = b.finish_node();
    let _two_nodes = b.finish();

    let mut b2 = GreenNodeBuilder::new();
    b2.start_node(root_kind());
    b2.finish_node();
    let one_node = Arc::new(b2.finish());
    // `outer` indexes the second entry of the first arena; the second
    // arena has only one node.
    assert!(SyntaxNode::new_root_at(one_node, outer).is_none());
}

#[test]
fn builder_bookkeeping() {
    let mut b = GreenNodeBuilder::new();
    assert_eq!(b.depth(), 0);
    assert_eq!(b.root_count(), 0);
    b.start_node(root_kind());
    assert_eq!(b.depth(), 1);
    b.token(int_kind(), b"12".to_vec());
    assert_eq!(b.text_len(), 2);
    b.finish_node();
    assert_eq!(b.depth(), 0);
    assert_eq!(b.root_count(), 1);
}

#[test]
fn children_nodes_only() {
    let mut b = GreenNodeBuilder::new();
    b.start_node(root_kind());
    b.token(int_kind(), b"1".to_vec());
    b.start_node(sub_kind());
    b.token(int_kind(), b"2".to_vec());
    b.finish_node();
    b.token(int_kind(), b"3".to_vec());
    b.finish_node();
    let root = SyntaxNode::new_root(Arc::new(b.finish()));
    let mut it = root.children();
    let only = it.next().unwrap();
    assert_eq!(only.kind(), sub_kind());
    assert_eq!(only.text_range().start, 1);
    assert_eq!(only.text_range().end, 2);
    assert!(it.next().is_none());
    assert_eq!(root.child_count(), 3);
}

#[test]
fn siblings_and_parent() {
    let root = build_12_plus_34();
    let plus = match root.child(1).unwrap() {
        SyntaxElement::Token(t) => t,
        _ => panic!("expected a token"),
    };
    assert_eq!(plus.kind(), plus_kind());
    let next = match plus.next_sibling().unwrap() {
        SyntaxElement::Token(t) => t,
        _ => panic!("expected a token"),
    };
    assert_eq!(next.text(), &b"34".to_vec());
    let prev = match plus.prev_sibling().unwrap() {
        SyntaxElement::Token(t) => t,
        _ => panic!("expected a token"),
    };
    assert_eq!(prev.text(), &b"12".to_vec());
    assert!(next.next_sibling().is_none());
    assert!(prev.prev_sibling().is_none());
    assert!(root.parent().is_none());
}

#[test]
fn ancestors_to_root() {
    let mut b = GreenNodeBuilder::new();
    b.start_node(root_kind());
    b.start_node(sub_kind());
    b.start_node(sub_kind());
    b.token(int_kind(), b"9".to_vec());
    b.finish_node();
    b.finish_node();
    b.finish_node();
    let root = SyntaxNode::new_root(Arc::new(b.finish()));
    let inner = match root.child(0).unwrap() {
        SyntaxElement::Node(n) => match n.child(0).unwrap() {
            SyntaxElement::Node(m) => m,
            _ => panic!("expected a node"),
        },
        _ => panic!("expected a node"),
    };
    let chain = inner.ancestors();
    assert_eq!(chain.len(), 3);
    assert_eq!(chain[0], inner);
    assert_eq!(chain[2], root);
}

#[test]
fn descendants_in_document_order() {
    let mut b = GreenNodeBuilder::new();
    b.start_node(root_kind());
    b.token(int_kind(), b"1".to_vec());
    b.start_node(sub_kind());
    b.token(int_kind(), b"2".to_vec());
    b.finish_node();
    b.token(int_kind(), b"3".to_vec());
    b.finish_node();
    let root = SyntaxNode::new_root(Arc::new(b.finish()));
    let all = root.descendants();
    let seen: Vec<(u16, usize)> = all
        .iter()
        .map(|el| (el.kind().0, el.text_range().start))
        .collect();
    assert_eq!(seen, vec![(0, 0), (1, 0), (3, 1), (1, 1), (1, 2)]);
}

#[test]
fn preorder_walk_events() {
    let mut b = GreenNodeBuilder::new();
    b.start_node(root_kind());
    b.token(int_kind(), b"1".to_vec());
    b.start_node(sub_kind());
    b.token(int_kind(), b"2".to_vec());
    b.finish_node();
    b.finish_node();
    let root = SyntaxNode::new_root(Arc::new(b.finish()));
    let mut events: Vec<String> = Vec::new();
    let mut walk = root.preorder();
    while let Some(ev) = walk.next() {
        let line = match &ev {
            WalkEvent::Enter(el) => format!("enter {} {}", el.kind().0, el.text_range().start),
            WalkEvent::Leave(el) => format!("leave {} {}", el.kind().0, el.text_range().end),
        };
        events.push(line);
    }
    assert_eq!(
        events,
        vec![
            "enter 0 0".to_string(),
            "enter 1 0".to_string(),
            "leave 1 1".to_string(),
            "enter 3 1".to_string(),
            "enter 1 1".to_string(),
            "leave 1 2".to_string(),
            "leave 3 2".to_string(),
            "leave 0 2".to_string(),
        ],
    );
}

struct Math;

fn math_name(kind: SyntaxKind) -> Option<&'static str> {
    match kind {
        SyntaxKind(0) => Some("ROOT"),
        SyntaxKind(1) => Some("INT"),
        SyntaxKind(2) => Some("PLUS"),
        _ => None,
    }
}

impl SyntaxResolver for Math {
    fn name_spec(kind: SyntaxKind) -> Option<&'static str> {
        math_name(kind)
    }

    fn name(kind: SyntaxKind) -> Option<&'static str> {
        math_name(kind)
    }
}

#[test]
fn kind_name_lookup() {
    assert_eq!(int_kind().name::<Math>(), "INT");
    assert_eq!(plus_kind().name::<Math>(), "PLUS");
    // Absence is recoverable at the resolver layer.
    assert_eq!(<Math as SyntaxResolver>::name(sub_kind()), None);
}

#[test]
fn text_range_helpers() {
    let root = build_12_plus_34();
    let r = root.text_range();
    assert_eq!(r.len(), 5);
    assert!(r.contains(0));
    assert!(r.contains(4));
    assert!(!r.contains(5));
}

#[test]
fn token_at_offset_skips_zero_length_tokens() {
    let mut b = GreenNodeBuilder::new();
    b.start_node(root_kind());
    b.token(int_kind(), Vec::new());
    b.finish_node();
    let root = SyntaxNode::new_root(Arc::new(b.finish()));
    assert_eq!(root.text_len(), 0);
    // No token of positive length touches offset 0.
    assert!(matches!(root.token_at_offset(0), TokenAtOffset::Missing));
}

#[test]
fn offset_invariant_nested() {
    let mut b = GreenNodeBuilder::new();
    b.start_node(root_kind());
    b.token(int_kind(), b"1".to_vec());
    b.start_node(sub_kind());
    b.token(int_kind(), b"23".to_vec());
    b.finish_node();
    b.token(int_kind(), b"4".to_vec());
    b.finish_node();
    let root = SyntaxNode::new_root(Arc::new(b.finish()));
    let sub = match root.child(1).unwrap() {
        SyntaxElement::Node(n) => n,
        _ => panic!("expected a node"),
    };
    assert_eq!(sub.text_range().start, 1);
    assert_eq!(sub.text_range().end, 3);
    let inner = match sub.child(0).unwrap() {
        SyntaxElement::Token(t) => t,
        _ => panic!("expected a token"),
    };
    // absolute_offset(child) == absolute_offset(parent) + earlier siblings.
    assert_eq!(inner.text_range().start, sub.text_range().start);
    assert_eq!(sub.text_range().start, root.text_range().start + 1);
    let last = match root.child(2).unwrap() {
        SyntaxElement::Token(t) => t,
        _ => panic!("expected a token"),
    };
    assert_eq!(last.text_range().start, 3);
}

#[test]
fn green_trees_compare_structurally() {
    let a = build_12_plus_34();
    let b = build_12_plus_34();
    // Deep green equality is structural; handle equality treats the two
    // builds as the same occurrence of the same (deeply equal) tree.
    assert_eq!(a, b);
    assert_eq!(a.kind(), b.kind());
}
