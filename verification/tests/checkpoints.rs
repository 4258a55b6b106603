use syntree::{Error, Tree, TreeBuilder};

#[derive(Debug, Clone, Copy, PartialEq, Eq)]
enum Syntax {
    Root,
    Number,
    Lit,
    Whitespace,
}

/// Every node in preorder with its depth, data and span.
fn flatten<T: Copy>(tree: &Tree<T, u32, usize>) -> Vec<(isize, T, usize, usize)> {
    let mut out = Vec::new();
    let mut it = tree.walk_with_depths();
    while let Some((depth, node)) = it.next() {
        let range = node.range();
        out.push((depth, node.value(), range.start, range.end));
    }
    out
}

#[test]
fn balanced_checkpoint() -> Result<(), Error> {
    let mut tree = TreeBuilder::<Syntax, u32, usize>::new();

    let c = tree.checkpoint()?;

    tree.open(Syntax::Number)?;
    tree.token(Syntax::Lit, 2)?;
    tree.close()?;

    tree.token(Syntax::Whitespace, 3)?;

    tree.open(Syntax::Number)?;
    tree.token(Syntax::Lit, 2)?;
    tree.token(Syntax::Lit, 2)?;
    tree.close()?;

    tree.close_at(&c, Syntax::Root)?;

    let tree = tree.build()?;

    let mut b = TreeBuilder::<Syntax, u32, usize>::new();
    b.open(Syntax::Root)?;
    b.open(Syntax::Number)?;
    b.token(Syntax::Lit, 2)?;
    b.close()?;
    b.token(Syntax::Whitespace, 3)?;
    b.open(Syntax::Number)?;
    b.token(Syntax::Lit, 2)?;
    b.token(Syntax::Lit, 2)?;
    b.close()?;
    b.close()?;
    let expected = b.build()?;

    assert_eq!(flatten(&expected), flatten(&tree));
    Ok(())
}

#[test]
fn test_checkpoint_mutation() -> Result<(), Error> {
    let mut tree = TreeBuilder::<&str, u32, usize>::new();

    let outer = tree.checkpoint()?;
    let inner = tree.checkpoint()?;
    tree.token("b", 3)?;
    tree.close_at(&inner, "operation")?;
    tree.close_at(&outer, "operation")?;

    let tree = tree.build()?;

    let mut b = TreeBuilder::<&str, u32, usize>::new();
    b.open("operation")?;
    b.open("operation")?;
    b.token("b", 3)?;
    b.close()?;
    b.close()?;
    let expected = b.build()?;

    assert_eq!(flatten(&tree), flatten(&expected));
    Ok(())
}

#[test]
fn test_nested_checkpoints() -> Result<(), Error> {
    let mut tree = TreeBuilder::<&str, u32, usize>::new();

    let a = tree.checkpoint()?;
    tree.token("a", 3)?;
    let b = tree.checkpoint()?;
    tree.token("b", 3)?;
    tree.close_at(&b, "operation")?;
    tree.close_at(&a, "operation")?;

    let tree = tree.build()?;

    let mut e = TreeBuilder::<&str, u32, usize>::new();
    e.open("operation")?;
    e.token("a", 3)?;
    e.open("operation")?;
    e.token("b", 3)?;
    e.close()?;
    e.close()?;
    let expected = e.build()?;

    assert_eq!(flatten(&tree), flatten(&expected));
    Ok(())
}

#[test]
fn test_nested_checkpoints2() -> Result<(), Error> {
    let mut tree = TreeBuilder::<&str, u32, usize>::new();

    let a = tree.checkpoint()?;
    let b = tree.checkpoint()?;
    tree.token("b", 3)?;
    tree.close_at(&b, "operation")?;
    tree.token("a", 3)?;
    tree.close_at(&a, "operation")?;

    let tree = tree.build()?;

    let mut e = TreeBuilder::<&str, u32, usize>::new();
    e.open("operation")?;
    e.open("operation")?;
    e.token("b", 3)?;
    e.close()?;
    e.token("a", 3)?;
    e.close()?;
    let expected = e.build()?;

    assert_eq!(flatten(&tree), flatten(&expected));
    Ok(())
}
