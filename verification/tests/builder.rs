use syntree::node::NodeIterator;
use syntree::{Error, Tree, TreeBuilder};

type Builder<T> = TreeBuilder<T, u32, usize>;

/// Every node in preorder with its depth, data and span.
fn flatten<T: Copy>(tree: &Tree<T, u32, usize>) -> Vec<(isize, T, usize, usize)> {
    let mut out = Vec::new();
    let mut it = tree.walk_with_depths();
    while let Some((depth, node)) = it.next() {
        let range = node.range();
        out.push((depth, node.value(), range.start, range.end));
    }
    out
}

#[test]
fn builder_root_with_two_children() -> Result<(), Error> {
    let mut tree = Builder::new();
    tree.open("root")?;
    tree.open("child")?;
    tree.close()?;
    tree.open("child")?;
    tree.close()?;
    tree.close()?;
    let tree = tree.build()?;

    let mut e = Builder::new();
    e.open("root")?;
    e.token("child", 0)?;
    e.token("child", 0)?;
    e.close()?;
    let expected = e.build()?;

    assert!(tree == expected);
    assert_eq!(flatten(&tree), vec![(0, "root", 0, 0), (1, "child", 0, 0), (1, "child", 0, 0)]);
    Ok(())
}

#[test]
fn builder_new_with_token() -> Result<(), Error> {
    let mut tree = Builder::new();
    tree.open("root")?;
    tree.open("child")?;
    tree.token("token", 5)?;
    tree.close()?;
    tree.open("child2")?;
    tree.close()?;
    tree.close()?;
    let tree = tree.build()?;
    assert_eq!(
        flatten(&tree),
        vec![(0, "root", 0, 5), (1, "child", 0, 5), (2, "token", 0, 5), (1, "child2", 5, 5)]
    );
    Ok(())
}

#[test]
fn open_returns_ids_in_order() -> Result<(), Error> {
    let mut tree = Builder::new();
    let a = tree.open("a")?;
    let b = tree.token("b", 1)?;
    tree.close()?;
    assert_ne!(a, b);
    Ok(())
}

#[test]
fn close_without_open_fails() -> Result<(), Error> {
    let mut tree = Builder::new();
    tree.open("root")?;
    tree.close()?;
    assert_eq!(tree.close(), Err(Error::CloseError));
    Ok(())
}

#[test]
fn build_unbalanced_fails() -> Result<(), Error> {
    let mut tree = Builder::new();
    tree.open("number")?;
    tree.token("lit", 3)?;
    tree.close()?;
    tree.open("number")?;
    assert!(matches!(tree.build(), Err(Error::BuildError)));
    Ok(())
}

#[test]
fn build_two_roots() -> Result<(), Error> {
    let mut tree = Builder::new();
    tree.open("child")?;
    tree.token("number", 3)?;
    tree.close()?;
    tree.open("child")?;
    tree.close()?;
    let tree = tree.build()?;
    assert_eq!(flatten(&tree), vec![(0, "child", 0, 3), (1, "number", 0, 3), (0, "child", 3, 3)]);
    Ok(())
}

#[test]
fn checkpoint_wraps_node() -> Result<(), Error> {
    let mut tree = Builder::new();
    let c = tree.checkpoint()?;
    tree.open("child")?;
    tree.token("lit", 3)?;
    tree.close()?;
    tree.close_at(&c, "root")?;
    let tree = tree.build()?;
    assert_eq!(flatten(&tree), vec![(0, "root", 0, 3), (1, "child", 0, 3), (2, "lit", 0, 3)]);
    Ok(())
}

#[test]
fn checkpoint_wraps_token() -> Result<(), Error> {
    let mut tree = Builder::new();
    let c = tree.checkpoint()?;
    tree.token("lit", 3)?;
    tree.close_at(&c, "root")?;
    let tree = tree.build()?;
    assert_eq!(flatten(&tree), vec![(0, "root", 0, 3), (1, "lit", 0, 3)]);
    Ok(())
}

#[test]
fn checkpoint_wraps_siblings() -> Result<(), Error> {
    let mut tree = Builder::new();
    let c = tree.checkpoint()?;
    tree.open("number")?;
    tree.token("lit", 3)?;
    tree.close()?;
    tree.token("whitespace", 1)?;
    tree.open("number")?;
    tree.token("lit", 2)?;
    tree.close()?;
    tree.close_at(&c, "root")?;
    let tree = tree.build()?;
    assert_eq!(
        flatten(&tree),
        vec![
            (0, "root", 0, 6),
            (1, "number", 0, 3),
            (2, "lit", 0, 3),
            (1, "whitespace", 3, 4),
            (1, "number", 4, 6),
            (2, "lit", 4, 6),
        ]
    );
    Ok(())
}

#[test]
fn checkpoint_then_sibling() -> Result<(), Error> {
    let mut tree = Builder::new();
    let c = tree.checkpoint()?;
    tree.open("child")?;
    tree.token("lit", 3)?;
    tree.close()?;
    tree.close_at(&c, "root")?;
    tree.token("sibling", 3)?;
    let tree = tree.build()?;

    let child = tree.node_with_range(0..3).expect("missing at 0..3");
    assert_eq!(child.value(), "child");

    let lit = tree.first().and_then(|n| n.first()).and_then(|n| n.first()).expect("expected lit");
    assert_eq!(lit.value(), "lit");

    let mut ancestors = lit.ancestors();
    let mut root = None;
    while let Some(n) = ancestors.next() {
        root = Some(n);
    }
    let root = root.expect("missing root");
    assert_eq!(root.value(), "root");
    assert!(root.parent().is_none());

    assert_eq!(
        flatten(&tree),
        vec![(0, "root", 0, 3), (1, "child", 0, 3), (2, "lit", 0, 3), (0, "sibling", 3, 6)]
    );
    Ok(())
}

#[test]
fn close_at_without_nodes_adds_empty_node() -> Result<(), Error> {
    let mut tree = Builder::new();
    tree.token("a", 2)?;
    let c = tree.checkpoint()?;
    tree.close_at(&c, "empty")?;
    let tree = tree.build()?;
    assert_eq!(flatten(&tree), vec![(0, "a", 0, 2), (0, "empty", 2, 2)]);
    Ok(())
}

#[test]
fn close_at_twice_wraps_again() -> Result<(), Error> {
    let mut tree = Builder::new();
    let c = tree.checkpoint()?;
    tree.token("a", 1)?;
    tree.close_at(&c, "inner")?;
    tree.close_at(&c, "outer")?;
    let tree = tree.build()?;
    assert_eq!(flatten(&tree), vec![(0, "outer", 0, 1), (1, "inner", 0, 1), (2, "a", 0, 1)]);
    Ok(())
}

#[test]
fn close_at_inside_other_node_fails() -> Result<(), Error> {
    let mut tree = Builder::new();
    let c = tree.checkpoint()?;
    tree.open("child")?;
    tree.token("lit", 3)?;
    assert_eq!(tree.close_at(&c, "root"), Err(Error::CloseAtError));
    tree.close()?;
    // After the error the builder is unchanged and can go on.
    tree.close_at(&c, "root")?;
    let tree = tree.build()?;
    assert_eq!(flatten(&tree), vec![(0, "root", 0, 3), (1, "child", 0, 3), (2, "lit", 0, 3)]);
    Ok(())
}

#[test]
fn close_at_unknown_checkpoint_position_fails() -> Result<(), Error> {
    // A checkpoint naming a position this builder never handed out.
    let mut other = Builder::<&str>::new();
    let _ = other.checkpoint()?;
    let c = other.checkpoint()?;
    let mut tree = Builder::new();
    tree.token("a", 1)?;
    assert_eq!(tree.close_at(&c, "x"), Err(Error::MissingNode(1)));
    Ok(())
}

#[test]
fn pointer_width_overflow() -> Result<(), Error> {
    let mut tree = TreeBuilder::<u32, u32, u8>::new();
    for i in 0..255u32 {
        tree.token(i, 1)?;
    }
    assert_eq!(tree.token(255, 1), Err(Error::Overflow));
    assert_eq!(tree.open(255), Err(Error::Overflow));
    assert!(tree.checkpoint().is_err());
    let tree = tree.build()?;
    assert_eq!(tree.len(), 255);
    Ok(())
}

#[test]
fn index_overflow() -> Result<(), Error> {
    let mut tree = Builder::new();
    tree.token("big", u32::MAX as usize)?;
    assert_eq!(tree.token("more", 1), Err(Error::Overflow));
    tree.token("empty", 0)?;
    let tree = tree.build()?;
    assert_eq!(tree.range(), 0..(u32::MAX as usize));
    Ok(())
}

#[test]
fn same_checkpoint_at_same_position() -> Result<(), Error> {
    let mut tree = Builder::new();
    let a = tree.checkpoint()?;
    let b = tree.checkpoint()?;
    tree.token("b", 3)?;
    tree.close_at(&b, "inner")?;
    // `a` is the same checkpoint as `b`, so it now wraps the inner node.
    tree.close_at(&a, "outer")?;
    let tree = tree.build()?;
    assert_eq!(flatten(&tree), vec![(0, "outer", 0, 3), (1, "inner", 0, 3), (2, "b", 0, 3)]);
    let mut walk = tree.walk();
    let mut count = 0;
    while walk.next().is_some() {
        count += 1;
    }
    assert_eq!(count, 3);
    Ok(())
}

#[test]
fn builder_default_is_empty() -> Result<(), Error> {
    let tree: Builder<&str> = TreeBuilder::default();
    let tree = tree.build()?;
    assert!(tree.is_empty());
    assert_eq!(tree.len(), 0);
    assert!(tree.first().is_none());
    Ok(())
}

#[test]
fn close_at_stale_checkpoint_fails() -> Result<(), Error> {
    let mut tree = Builder::new();
    let a = tree.checkpoint()?;
    tree.token("x", 1)?;
    let b = tree.checkpoint()?;
    tree.token("y", 1)?;
    tree.close_at(&a, "wrap")?;
    // The node `b` was taken at is now inside "wrap", not a root.
    assert_eq!(tree.close_at(&b, "z"), Err(Error::CloseAtError));
    let tree = tree.build()?;
    assert_eq!(flatten(&tree), vec![(0, "wrap", 0, 2), (1, "x", 0, 1), (1, "y", 1, 2)]);
    Ok(())
}

#[test]
fn checkpoint_after_close_marks_the_new_position() -> Result<(), Error> {
    let mut tree = Builder::new();
    tree.open("a")?;
    let inside = tree.checkpoint()?;
    tree.close()?;
    // The checkpoint taken inside "a" does not mark the position after it.
    let after = tree.checkpoint()?;
    tree.token("t", 1)?;
    assert_eq!(tree.close_at(&inside, "x"), Err(Error::CloseAtError));
    tree.close_at(&after, "root")?;
    let tree = tree.build()?;
    assert_eq!(flatten(&tree), vec![(0, "a", 0, 0), (0, "root", 0, 1), (1, "t", 0, 1)]);
    Ok(())
}
