use syntree::node::NodeIterator;
use syntree::{Error, Tree, TreeBuilder};

/// The values of the nodes inside each child of the first root, in order.
fn inside_children(tree: &Tree<&'static str, u32, usize>) -> Option<Vec<&'static str>> {
    let n1 = tree.first()?;
    let mut values = Vec::new();
    let mut children = n1.children();
    while let Some(child) = children.next() {
        let mut inside = child.walk().inside();
        while let Some(n) = inside.next() {
            values.push(n.value());
        }
    }
    Some(values)
}

#[test]
fn walk_trees1() -> Result<(), Error> {
    let mut b = TreeBuilder::<&str, u32, usize>::new();
    b.open("n1")?;
    b.token("n2", 0)?;
    b.open("n3")?;
    b.token("n4", 0)?;
    b.close()?;
    b.token("n5", 0)?;
    b.close()?;
    b.open("n6")?;
    b.token("n7", 0)?;
    b.close()?;
    let tree = b.build()?;

    let values = inside_children(&tree).expect("missing n1");
    assert_eq!(values, ["n2", "n3", "n4", "n5"]);
    Ok(())
}

#[test]
fn walk_trees2() -> Result<(), Error> {
    let mut b = TreeBuilder::<&str, u32, usize>::new();
    b.open("n1")?;
    b.token("n2", 0)?;
    b.token("n3", 0)?;
    b.token("n5", 0)?;
    b.close()?;
    b.open("n6")?;
    b.token("n7", 0)?;
    b.close()?;
    let tree = b.build()?;

    let values = inside_children(&tree).expect("missing n1");
    assert_eq!(values, ["n2", "n3", "n5"]);
    Ok(())
}
