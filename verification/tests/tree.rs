use syntree::node::NodeIterator;
use syntree::{Error, Span, Tree, TreeBuilder};

type Builder<T> = TreeBuilder<T, u32, usize>;

/// root { number { lit 5 }, ident { lit 3 } }, root2 { whitespace 5 }
fn spans_tree() -> Result<Tree<&'static str, u32, usize>, Error> {
    let mut b = Builder::new();
    b.open("root")?;
    b.open("number")?;
    b.token("lit", 5)?;
    b.close()?;
    b.open("ident")?;
    b.token("lit", 3)?;
    b.close()?;
    b.close()?;
    b.open("root2")?;
    b.token("whitespace", 5)?;
    b.close()?;
    b.build()
}

/// root { child1 { token1 3 }, child2 { nested1 { token1 4 }, token4 1 },
/// child3 { token5 5 } }, root2 {}
fn query_tree() -> Result<Tree<&'static str, u32, usize>, Error> {
    let mut b = Builder::new();
    b.open("root")?;
    b.open("child1")?;
    b.token("token1", 3)?;
    b.close()?;
    b.open("child2")?;
    b.open("nested1")?;
    b.token("token1", 4)?;
    b.close()?;
    b.token("token4", 1)?;
    b.close()?;
    b.open("child3")?;
    b.token("token5", 5)?;
    b.close()?;
    b.close()?;
    b.open("root2")?;
    b.close()?;
    b.build()
}

#[test]
fn tree_span() -> Result<(), Error> {
    let tree = spans_tree()?;
    assert_eq!(*tree.span(), Span::new(0, 13));
    assert_eq!(tree.range(), 0..13);
    Ok(())
}

#[test]
fn tree_len_and_capacity() -> Result<(), Error> {
    let tree = Builder::<()>::new().build()?;
    assert_eq!(tree.len(), 0);
    assert!(tree.is_empty());
    assert_eq!(tree.capacity(), 0);

    let mut b = Builder::new();
    b.open("root")?;
    b.open("child")?;
    b.token("token", 2)?;
    b.close()?;
    b.token("whitespace", 1)?;
    b.open("child2")?;
    b.close()?;
    b.close()?;
    let tree = b.build()?;
    assert_eq!(tree.len(), 5);
    assert!(!tree.is_empty());
    assert!(tree.capacity() >= 5);
    Ok(())
}

#[test]
fn tree_first_and_last() -> Result<(), Error> {
    let mut b = Builder::new();
    b.open("root")?;
    b.close()?;
    b.open("root2")?;
    b.close()?;
    let tree = b.build()?;
    assert_eq!(tree.first().map(|n| n.value()), Some("root"));
    assert_eq!(tree.last().map(|n| n.value()), Some("root2"));
    Ok(())
}

#[test]
fn tree_children_roots() -> Result<(), Error> {
    let mut b = Builder::new();
    b.open("root1")?;
    b.open("child1")?;
    b.close()?;
    b.close()?;
    b.open("root2")?;
    b.close()?;
    let tree = b.build()?;
    let mut it = tree.children();
    assert_eq!(it.next().map(|n| n.value()), Some("root1"));
    assert_eq!(it.next().map(|n| n.value()), Some("root2"));
    assert!(it.next().is_none());
    Ok(())
}

#[test]
fn node_with_range_queries() -> Result<(), Error> {
    let tree = query_tree()?;
    let cases = [
        (0..0, "child1"),
        (0..3, "child1"),
        (3..3, "nested1"),
        (3..7, "nested1"),
        (7..7, "child2"),
        (7..8, "child2"),
        (8..8, "child3"),
        (8..13, "child3"),
        (2..4, "root"),
    ];
    for (range, expected) in cases {
        let node = tree.node_with_range(range.clone()).expect("missing node");
        assert_eq!(node.value(), expected, "range {:?}", range);
    }
    assert!(tree.node_with_range(13..13).is_none());
    Ok(())
}

#[test]
fn node_with_span_queries() -> Result<(), Error> {
    let tree = query_tree()?;
    let cases = [
        (Span::point(0), "child1"),
        (Span::new(0, 3), "child1"),
        (Span::point(3), "nested1"),
        (Span::new(3, 7), "nested1"),
        (Span::point(7), "child2"),
        (Span::new(7, 8), "child2"),
        (Span::point(8), "child3"),
        (Span::new(8, 13), "child3"),
        (Span::new(2, 4), "root"),
    ];
    for (span, expected) in cases {
        let node = tree.node_with_span(span).expect("missing node");
        assert_eq!(node.value(), expected, "span {:?}", span);
    }
    Ok(())
}

#[test]
fn node_with_range_out_of_index() -> Result<(), Error> {
    let tree = query_tree()?;
    assert!(tree.node_with_range(0..(u32::MAX as usize + 1)).is_none());
    Ok(())
}

#[test]
fn node_with_span_checkpoints() -> Result<(), Error> {
    let mut b = Builder::new();
    let c = b.checkpoint()?;
    b.open("child1")?;
    b.token("lit", 3)?;
    b.close()?;
    b.open("child2")?;
    b.token("lit", 2)?;
    b.close()?;
    b.close_at(&c, "root")?;
    let tree = b.build()?;

    let cases = [
        (Span::point(0), "child1"),
        (Span::new(0, 3), "child1"),
        (Span::new(3, 5), "child2"),
        (Span::new(4, 5), "child2"),
        (Span::new(3, 4), "child2"),
        (Span::point(3), "child2"),
        (Span::new(2, 5), "root"),
    ];
    for (span, expected) in cases {
        let node = tree.node_with_span(span).expect("missing node");
        assert_eq!(node.value(), expected, "span {:?}", span);
    }
    Ok(())
}

#[test]
fn root_level_token_is_found() -> Result<(), Error> {
    let mut b = Builder::new();
    b.token("a", 2)?;
    b.token("b", 2)?;
    let tree = b.build()?;
    assert_eq!(tree.node_with_range(2..3).map(|n| n.value()), Some("b"));
    Ok(())
}

#[test]
fn trees_compare_by_shape_data_and_spans() -> Result<(), Error> {
    let a = query_tree()?;
    let b = query_tree()?;
    assert!(a == b);

    let c = spans_tree()?;
    assert!(!(a == c));

    let mut d = Builder::new();
    d.token("x", 1)?;
    let d = d.build()?;
    let mut e = Builder::new();
    e.token("x", 2)?;
    let e = e.build()?;
    assert!(!(d == e));

    // The same shape and data with a different pointer width compare equal.
    let mut f = TreeBuilder::<&str, u32, u16>::new();
    f.token("x", 1)?;
    let f = f.build()?;
    assert!(f == d);
    Ok(())
}

#[test]
fn spans_nest_in_built_trees() -> Result<(), Error> {
    let tree = query_tree()?;
    let mut walk = tree.walk();
    while let Some(node) = walk.next() {
        let span = node.span();
        assert!(span.start <= span.end);
        assert!(span.end <= tree.span().end);
        if let Some(parent) = node.parent() {
            let outer = parent.span();
            assert!(outer.start <= span.start && span.end <= outer.end);
        }
    }
    Ok(())
}

#[test]
fn tree_clone_and_default() -> Result<(), Error> {
    let tree = query_tree()?;
    let copy = tree.clone();
    assert!(copy == tree);
    assert_eq!(copy.len(), tree.len());
    assert_eq!(copy.span(), tree.span());

    let empty: Tree<&str, u32, usize> = Tree::default();
    assert!(empty.is_empty());
    assert!(empty.first().is_none());
    assert_eq!(empty.range(), 0..0);
    Ok(())
}

#[test]
fn span_queries_cover_what_they_can() -> Result<(), Error> {
    let tree = query_tree()?;
    let total = tree.range().end;
    for start in 0..=total + 1 {
        for end in start..=total + 1 {
            match tree.node_with_range(start..end) {
                None => assert!(start >= total),
                Some(node) => {
                    assert!(start < total);
                    let range = node.range();
                    assert!(range.start <= start && start < range.end);
                    assert!(end <= range.end || node.parent().is_none());
                },
            }
        }
    }
    Ok(())
}
