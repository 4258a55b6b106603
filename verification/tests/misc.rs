use syntree::pointer::{Pointer, PointerU16, PointerU8, PointerUsize};
use syntree::print::print_lines;
use syntree::{Empty, Error, TreeBuilder};

#[test]
fn pointer_reserves_its_maximum() {
    assert!(PointerU8::new(255).is_none());
    let p = PointerU8::new(254).expect("254 fits");
    assert_eq!(p.get(), 254);
    assert!(!p.is_none());
    assert!(PointerU8::none().is_none());
    assert!(PointerU16::new(65535).is_none());
    assert_eq!(PointerU16::new(300).map(|p| p.get()), Some(300));
    assert!(PointerUsize::new(usize::MAX).is_none());
    assert_eq!(PointerUsize::new(0).map(|p| p.get()), Some(0));
}

#[test]
fn error_messages() {
    assert_eq!(Error::CloseError.message(), "no node being built");
    assert_eq!(Error::BuildError.message(), "tree is currently being built");
    assert_eq!(
        Error::CloseAtError.message(),
        "trying to close a node which is not a sibling of the checkpoint being closed"
    );
    assert_eq!(Error::Overflow.message(), "numerical overflow");
    assert_eq!(Error::MissingNode(3).message(), "missing node with id");
}

#[test]
fn empty_spans() -> Result<(), Error> {
    let mut tree = TreeBuilder::<&str, Empty, usize>::new();
    tree.open("root")?;
    tree.open("child")?;
    tree.token("token", Empty)?;
    tree.close()?;
    tree.open("child2")?;
    tree.close()?;
    tree.close()?;
    let tree = tree.build()?;
    assert_eq!(tree.len(), 4);
    assert!(tree.span().is_empty());
    let child = tree.first().and_then(|n| n.first()).expect("missing child");
    assert_eq!(child.value(), "child");
    Ok(())
}

#[test]
fn narrow_pointers() -> Result<(), Error> {
    let mut tree = TreeBuilder::<&str, usize, u16>::new();
    tree.open("root")?;
    tree.open("child")?;
    tree.token("token", 100)?;
    tree.close()?;
    tree.open("child2")?;
    tree.close()?;
    tree.close()?;
    let tree = tree.build()?;
    assert_eq!(tree.range(), 0..100);
    let mut wide = TreeBuilder::<&str, usize, u32>::new();
    wide.open("root")?;
    wide.open("child")?;
    wide.token("token", 100)?;
    wide.close()?;
    wide.token("child2", 0)?;
    wide.close()?;
    let wide = wide.build()?;
    assert!(tree == wide);
    Ok(())
}

#[test]
fn print_lines_follow_preorder() -> Result<(), Error> {
    // 256 / 2
    let mut b = TreeBuilder::<&str, u32, usize>::new();
    b.open("Operation")?;
    b.open("Number")?;
    b.token("Number", 3)?;
    b.close()?;
    b.token("Whitespace", 1)?;
    b.open("Operator")?;
    b.token("Div", 1)?;
    b.close()?;
    b.token("Whitespace", 1)?;
    b.open("Number")?;
    b.token("Number", 1)?;
    b.close()?;
    b.close()?;
    let tree = b.build()?;
    let lines = print_lines(&tree);
    let out: Vec<(usize, &str, usize, usize, bool)> = lines
        .iter()
        .map(|l| (l.indent, l.value, l.span.start as usize, l.span.end as usize, l.has_children))
        .collect();
    assert_eq!(
        out,
        vec![
            (0, "Operation", 0, 7, true),
            (2, "Number", 0, 3, true),
            (4, "Number", 0, 3, false),
            (2, "Whitespace", 3, 4, false),
            (2, "Operator", 4, 5, true),
            (4, "Div", 4, 5, false),
            (2, "Whitespace", 5, 6, false),
            (2, "Number", 6, 7, true),
            (4, "Number", 6, 7, false),
        ]
    );
    Ok(())
}
