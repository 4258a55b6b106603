use syntree::node::{Event, NodeIterator};
use syntree::{Error, Tree, TreeBuilder};

type Builder<T> = TreeBuilder<T, u32, usize>;

/// root { c1 { c2 {}, c3 {}, c4 {} }, c5 {}, c6 { c7 {} } }
fn walk_tree() -> Result<Tree<&'static str, u32, usize>, Error> {
    let mut b = Builder::new();
    b.open("root")?;
    b.open("c1")?;
    for v in ["c2", "c3", "c4"] {
        b.open(v)?;
        b.close()?;
    }
    b.close()?;
    b.open("c5")?;
    b.close()?;
    b.open("c6")?;
    b.open("c7")?;
    b.close()?;
    b.close()?;
    b.close()?;
    b.build()
}

fn values<'a, U: NodeIterator<'a, &'static str, u32, usize>>(mut it: U) -> Vec<&'static str> {
    let mut out = Vec::new();
    while let Some(n) = it.next() {
        out.push(n.value());
    }
    out
}

#[test]
fn walk_from_nodes() -> Result<(), Error> {
    let tree = walk_tree()?;
    assert_eq!(values(tree.walk()), ["root", "c1", "c2", "c3", "c4", "c5", "c6", "c7"]);

    let root = tree.first().expect("missing root node");
    assert_eq!(values(root.walk()), ["root", "c1", "c2", "c3", "c4", "c5", "c6", "c7"]);

    let c1 = root.first().expect("missing c1 node");
    assert_eq!(values(c1.walk()), ["c1", "c2", "c3", "c4", "c5", "c6", "c7"]);
    assert_eq!(values(c1.walk_from()), ["c5", "c6", "c7"]);

    let c4 = c1.last().expect("missing c4 node");
    assert_eq!(values(c4.walk()), ["c4", "c5", "c6", "c7"]);
    assert_eq!(values(c4.walk_from()), ["c5", "c6", "c7"]);

    let c5 = c1.next().expect("missing c5 node");
    assert_eq!(values(c5.walk()), ["c5", "c6", "c7"]);
    assert_eq!(values(c5.walk_from()), ["c6", "c7"]);
    Ok(())
}

#[test]
fn walk_inside() -> Result<(), Error> {
    let mut b = Builder::new();
    b.open("n1")?;
    b.open("n3")?;
    b.open("n4")?;
    b.close()?;
    b.open("n5")?;
    b.close()?;
    b.close()?;
    b.close()?;
    b.open("n6")?;
    b.token("n7", 0)?;
    b.close()?;
    let tree = b.build()?;

    assert_eq!(values(tree.walk()), ["n1", "n3", "n4", "n5", "n6", "n7"]);
    let n1 = tree.first().expect("missing n1");
    assert_eq!(values(n1.walk()), ["n1", "n3", "n4", "n5", "n6", "n7"]);
    assert_eq!(values(n1.walk().inside()), ["n1", "n3", "n4", "n5"]);
    assert!(values(n1.walk_from().inside()).is_empty());

    let n7 = tree.last().and_then(|n| n.first()).expect("missing n7");
    assert_eq!(values(n7.walk().inside()), ["n7"]);
    Ok(())
}

#[test]
fn walk_with_depths() -> Result<(), Error> {
    let tree = walk_tree()?;
    let mut it = tree.walk().with_depths();
    let mut out = Vec::new();
    while let Some((d, n)) = it.next() {
        out.push((d, n.value()));
    }
    assert_eq!(
        out,
        [(0, "root"), (1, "c1"), (2, "c2"), (2, "c3"), (2, "c4"), (1, "c5"), (1, "c6"), (2, "c7")]
    );

    // Depths are relative to the node the walk starts at.
    let c4 = tree.first().and_then(|n| n.first()).and_then(|n| n.last()).expect("missing c4");
    let mut it = c4.walk().with_depths();
    let mut out = Vec::new();
    while let Some((d, n)) = it.next() {
        out.push((d, n.value()));
    }
    assert_eq!(out, [(0, "c4"), (-1, "c5"), (-1, "c6"), (0, "c7")]);
    Ok(())
}

#[test]
fn walk_next_with_depth() -> Result<(), Error> {
    let tree = walk_tree()?;
    let mut it = tree.walk();
    let mut out = Vec::new();
    while let Some((d, n)) = it.next_with_depth() {
        out.push((d, n.value()));
    }
    assert_eq!(
        out,
        [(0, "root"), (1, "c1"), (2, "c2"), (2, "c3"), (2, "c4"), (1, "c5"), (1, "c6"), (2, "c7")]
    );
    let mut it = tree.walk_with_depths();
    let mut out2 = Vec::new();
    while let Some((d, n)) = it.next() {
        out2.push((d, n.value()));
    }
    assert_eq!(out, out2);
    Ok(())
}

#[test]
fn walk_skip_tokens() -> Result<(), Error> {
    let mut b = Builder::new();
    b.open("child1")?;
    b.open("child2")?;
    b.token("token1", 0)?;
    b.close()?;
    b.token("token2", 1)?;
    b.open("child3")?;
    b.token("token3", 0)?;
    b.close()?;
    b.close()?;
    b.open("child4")?;
    b.token("token4", 1)?;
    b.close()?;
    let tree = b.build()?;
    assert_eq!(values(tree.walk().skip_tokens()), ["child1", "child2", "child3", "child4"]);
    Ok(())
}

fn events(it: &mut syntree::node::WalkEvents<'_, &'static str, u32, usize>) -> Vec<(Event, &'static str)> {
    let mut out = Vec::new();
    while let Some((e, n)) = it.next() {
        out.push((e, n.value()));
    }
    out
}

#[test]
fn walk_events() -> Result<(), Error> {
    let mut b = Builder::new();
    b.open("root")?;
    b.open("c1")?;
    for v in ["c2", "c3", "c4"] {
        b.open(v)?;
        b.close()?;
    }
    b.close()?;
    b.open("c5")?;
    b.close()?;
    b.open("c6")?;
    b.close()?;
    b.close()?;
    let tree = b.build()?;

    assert_eq!(
        events(&mut tree.walk_events()),
        [
            (Event::Next, "root"),
            (Event::Down, "c1"),
            (Event::Down, "c2"),
            (Event::Next, "c3"),
            (Event::Next, "c4"),
            (Event::Up, "c1"),
            (Event::Next, "c5"),
            (Event::Next, "c6"),
            (Event::Up, "root")
        ]
    );

    let root = tree.first().expect("missing root");
    assert_eq!(
        events(&mut root.walk_events()),
        [(Event::Next, "c1"), (Event::Down, "c2"), (Event::Next, "c3"), (Event::Next, "c4"), (Event::Up, "c1"), (Event::Next, "c5"), (Event::Next, "c6")]
    );

    let c1 = root.first().expect("missing c1");
    assert_eq!(events(&mut c1.walk_events()), [(Event::Next, "c2"), (Event::Next, "c3"), (Event::Next, "c4")]);
    Ok(())
}

#[test]
fn walk_events_depth() -> Result<(), Error> {
    let mut b = Builder::new();
    b.open("root")?;
    b.open("c1")?;
    b.open("c2")?;
    b.close()?;
    b.open("c3")?;
    b.close()?;
    b.close()?;
    b.close()?;
    let tree = b.build()?;

    let mut it = tree.walk_events();
    let mut depth = it.depth();
    let mut nodes = Vec::new();
    while let Some((event, node)) = it.next() {
        // Only register each node once.
        if !matches!(event, Event::Up) {
            nodes.push((depth, node.value()));
        }
        // The depth of the next node is queried before advancing.
        depth = it.depth();
    }
    assert_eq!(it.depth(), 0);
    assert_eq!(nodes, [(0, "root"), (1, "c1"), (2, "c2"), (2, "c3")]);
    Ok(())
}

#[test]
fn next_with_depth_after_next() -> Result<(), Error> {
    let tree = walk_tree()?;
    let mut it = tree.walk();
    assert_eq!(it.next().map(|n| n.value()), Some("root"));
    // Depths stay relative to where the walk started.
    assert_eq!(it.next_with_depth().map(|(d, n)| (d, n.value())), Some((1, "c1")));
    assert_eq!(it.next().map(|n| n.value()), Some("c2"));
    assert_eq!(it.next_with_depth().map(|(d, n)| (d, n.value())), Some((2, "c3")));
    Ok(())
}
