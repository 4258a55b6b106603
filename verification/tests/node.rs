use syntree::node::{DoubleEndedNodeIterator, NodeIterator};
use syntree::{Error, Span, Tree, TreeBuilder};

type Builder<T> = TreeBuilder<T, u32, usize>;

fn values<'a, U: NodeIterator<'a, &'static str, u32, usize>>(mut it: U) -> Vec<&'static str> {
    let mut out = Vec::new();
    while let Some(n) = it.next() {
        out.push(n.value());
    }
    out
}

fn values_back<'a, U: DoubleEndedNodeIterator<'a, &'static str, u32, usize>>(mut it: U) -> Vec<&'static str> {
    let mut out = Vec::new();
    while let Some(n) = it.next_back() {
        out.push(n.value());
    }
    out
}

/// root { child1 { child2 {} }, child3 {} }, root2 { child4 {} }
fn family() -> Result<Tree<&'static str, u32, usize>, Error> {
    let mut b = Builder::new();
    b.open("root")?;
    b.open("child1")?;
    b.open("child2")?;
    b.close()?;
    b.close()?;
    b.open("child3")?;
    b.close()?;
    b.close()?;
    b.open("root2")?;
    b.open("child4")?;
    b.close()?;
    b.close()?;
    b.build()
}

/// token1 1, child1 { token2 }, token3 1, child2 { token4 }, token5 1,
/// child3 { token6 }, token7 1
fn mixed() -> Result<Tree<&'static str, u32, usize>, Error> {
    let mut b = Builder::new();
    b.token("token1", 1)?;
    b.open("child1")?;
    b.token("token2", 0)?;
    b.close()?;
    b.token("token3", 1)?;
    b.open("child2")?;
    b.token("token4", 0)?;
    b.close()?;
    b.token("token5", 1)?;
    b.open("child3")?;
    b.token("token6", 0)?;
    b.close()?;
    b.token("token7", 1)?;
    b.build()
}

#[test]
fn children_both_ways() -> Result<(), Error> {
    let tree = family()?;
    assert_eq!(values(tree.children()), ["root", "root2"]);
    assert_eq!(values_back(tree.children()), ["root2", "root"]);
    let root = tree.first().expect("missing root node");
    assert_eq!(values(root.children()), ["child1", "child3"]);
    assert_eq!(values_back(root.children()), ["child3", "child1"]);
    let child3 = root.last().expect("missing child3");
    assert!(values(child3.children()).is_empty());
    Ok(())
}

#[test]
fn children_meet_in_the_middle() -> Result<(), Error> {
    let tree = mixed()?;
    let mut it = tree.children();
    assert_eq!(it.next().map(|n| n.value()), Some("token1"));
    assert_eq!(it.next_back().map(|n| n.value()), Some("token7"));
    assert_eq!(it.next_back().map(|n| n.value()), Some("child3"));
    assert_eq!(it.next().map(|n| n.value()), Some("child1"));
    assert_eq!(values(it), ["token3", "child2", "token5"]);
    Ok(())
}

#[test]
fn children_skip_tokens() -> Result<(), Error> {
    let tree = mixed()?;
    assert_eq!(values(tree.children().skip_tokens()), ["child1", "child2", "child3"]);
    assert_eq!(values_back(tree.children().skip_tokens()), ["child3", "child2", "child1"]);
    Ok(())
}

#[test]
fn children_next_node() -> Result<(), Error> {
    let tree = mixed()?;
    let mut it = tree.children();
    let mut out = Vec::new();
    while let Some(n) = it.next_node() {
        out.push(n.value());
    }
    assert_eq!(out, ["child1", "child2", "child3"]);

    let mut it = tree.children();
    let mut out = Vec::new();
    while let Some(n) = it.next_back_node() {
        out.push(n.value());
    }
    assert_eq!(out, ["child3", "child2", "child1"]);
    Ok(())
}

#[test]
fn children_span() -> Result<(), Error> {
    let mut b = Builder::new();
    b.open("number")?;
    b.token("number", 5)?;
    b.close()?;
    b.open("ident")?;
    b.token("ident", 2)?;
    b.close()?;
    let tree = b.build()?;
    let mut it = tree.children();
    it.next();
    assert_eq!(it.span(), Some(Span::new(5, 7)));
    assert_eq!(tree.children().span(), Some(Span::new(0, 7)));
    let mut it = tree.children();
    it.next();
    it.next();
    assert_eq!(it.span(), None);
    Ok(())
}

#[test]
fn siblings_of_root() -> Result<(), Error> {
    let tree = family()?;
    let root = tree.first().expect("missing root");
    assert_eq!(values(root.siblings()), ["root", "root2"]);
    let child1 = root.first().expect("missing child1");
    assert_eq!(values(child1.siblings()), ["child1", "child3"]);
    let child3 = root.last().expect("missing child3");
    assert_eq!(values(child3.siblings()), ["child3"]);
    Ok(())
}

#[test]
fn siblings_next_node() -> Result<(), Error> {
    let tree = mixed()?;
    let first = tree.first().expect("missing token1");
    let mut it = first.siblings();
    let mut out = Vec::new();
    while let Some(n) = it.next_node() {
        out.push(n.value());
    }
    assert_eq!(out, ["child1", "child2", "child3"]);
    assert_eq!(values(first.siblings().skip_tokens()), ["child1", "child2", "child3"]);
    Ok(())
}

#[test]
fn ancestors_up_to_root() -> Result<(), Error> {
    let tree = family()?;
    let child2 = tree.first().and_then(|n| n.first()).and_then(|n| n.first()).expect("missing child2");
    assert_eq!(child2.value(), "child2");
    assert_eq!(values(child2.ancestors()), ["child2", "child1", "root"]);

    let mut b = Builder::new();
    b.open("root")?;
    b.open("child")?;
    b.token("lit", 3)?;
    b.close()?;
    b.close()?;
    let tree = b.build()?;
    let lit = tree.first().and_then(|n| n.first()).and_then(|n| n.first()).expect("missing lit");
    let mut it = lit.ancestors();
    let mut out = Vec::new();
    while let Some(n) = it.next_node() {
        out.push(n.value());
    }
    assert_eq!(out, ["child", "root"]);
    assert_eq!(values(lit.ancestors().skip_tokens()), ["child", "root"]);
    Ok(())
}

#[test]
fn node_links() -> Result<(), Error> {
    let tree = family()?;
    let root = tree.first().expect("missing root");
    let child1 = root.first().expect("missing child1");
    let child3 = root.last().expect("missing child3");
    assert_eq!(child1.next().map(|n| n.value()), Some("child3"));
    assert_eq!(child3.prev().map(|n| n.value()), Some("child1"));
    assert!(child1.prev().is_none());
    assert!(child3.next().is_none());
    assert_eq!(child3.parent().map(|n| n.value()), Some("root"));
    assert!(root.parent().is_none());
    assert!(root.has_children());
    assert!(!child3.has_children());
    assert_eq!(root.next().map(|n| n.value()), Some("root2"));
    Ok(())
}

#[test]
fn node_span_and_range() -> Result<(), Error> {
    let mut b = Builder::new();
    b.open("number")?;
    b.token("lit", 1)?;
    b.token("lit", 3)?;
    b.open("nested")?;
    b.token("lit", 1)?;
    b.close()?;
    b.close()?;
    let tree = b.build()?;
    let number = tree.first().expect("missing number");
    assert_eq!(number.span(), Span::new(0, 5));
    assert_eq!(number.range(), 0..5);
    let nested = number.last().expect("missing nested");
    assert_eq!(nested.span(), Span::new(4, 5));
    Ok(())
}

#[test]
fn walk_trees_children_inside() -> Result<(), Error> {
    let tree = family()?;
    let root = tree.first().expect("missing root");
    let mut out = Vec::new();
    let mut children = root.children();
    while let Some(c) = children.next() {
        out.extend(values(c.walk().inside()));
    }
    assert_eq!(out, ["child1", "child2", "child3"]);
    Ok(())
}

#[test]
fn children_walk_rev() -> Result<(), Error> {
    let tree = family()?;
    assert_eq!(
        values(tree.children().walk_rev()),
        ["root2", "child4", "root", "child3", "child1", "child2"]
    );
    let root = tree.first().expect("missing root");
    assert_eq!(values(root.children().walk_rev()), ["child3", "child1", "child2"]);
    let mut it = root.children();
    it.next_back();
    assert_eq!(values(it.walk_rev()), ["child1", "child2"]);
    Ok(())
}
