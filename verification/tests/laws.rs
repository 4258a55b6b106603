use syntree::node::{Event, NodeIterator};
use syntree::{Error, Tree, TreeBuilder};

type Builder<T> = TreeBuilder<T, u32, usize>;

/// a { b { c 1, d 2 }, e 3 }, f { g { h 1 } }, i 4
fn sample() -> Result<Tree<&'static str, u32, usize>, Error> {
    let mut t = Builder::new();
    t.open("a")?;
    t.open("b")?;
    t.token("c", 1)?;
    t.token("d", 2)?;
    t.close()?;
    t.token("e", 3)?;
    t.close()?;
    t.open("f")?;
    t.open("g")?;
    t.token("h", 1)?;
    t.close()?;
    t.close()?;
    t.token("i", 4)?;
    t.build()
}

fn values<'a, U: NodeIterator<'a, &'static str, u32, usize>>(mut it: U) -> Vec<&'static str> {
    let mut out = Vec::new();
    while let Some(n) = it.next() {
        out.push(n.value());
    }
    out
}

#[test]
fn walk_splits_at_every_node() -> Result<(), Error> {
    let tree = sample()?;
    let mut all = tree.walk();
    while let Some(n) = all.next() {
        let mut parts = values(n.walk().inside());
        parts.extend(values(n.walk_from()));
        assert_eq!(values(n.walk()), parts);
    }
    Ok(())
}

#[test]
fn children_are_the_nodes_with_that_parent() -> Result<(), Error> {
    let tree = sample()?;
    let mut all = tree.walk();
    while let Some(n) = all.next() {
        let children = values(n.children());
        let mut others = tree.walk();
        let mut with_parent = Vec::new();
        while let Some(m) = others.next() {
            if m.parent().map(|p| p.value()) == Some(n.value()) {
                with_parent.push(m.value());
            }
        }
        assert_eq!(children, with_parent);
    }
    Ok(())
}

#[test]
fn roots_are_the_nodes_without_parent() -> Result<(), Error> {
    let tree = sample()?;
    let mut others = tree.walk();
    let mut roots = Vec::new();
    while let Some(m) = others.next() {
        if m.parent().is_none() {
            roots.push(m.value());
        }
    }
    assert_eq!(values(tree.children()), roots);
    assert_eq!(roots, ["a", "f", "i"]);
    Ok(())
}

#[test]
fn tree_events_follow_the_walk() -> Result<(), Error> {
    let tree = sample()?;
    let mut events = tree.walk_events();
    let mut entered = Vec::new();
    let mut depth: isize = 0;
    while let Some((e, n)) = events.next() {
        match e {
            Event::Up => depth -= 1,
            Event::Down => {
                depth += 1;
                entered.push((depth, n.value()));
            },
            Event::Next => entered.push((depth, n.value())),
        }
    }
    let mut walked = Vec::new();
    let mut it = tree.walk_with_depths();
    while let Some((d, n)) = it.next() {
        walked.push((d, n.value()));
    }
    assert_eq!(entered, walked);
    Ok(())
}

#[test]
fn node_events_stay_inside() -> Result<(), Error> {
    let tree = sample()?;
    let mut all = tree.walk();
    while let Some(n) = all.next() {
        let inside = values(n.walk().inside());
        let mut events = n.walk_events();
        while let Some((_, m)) = events.next() {
            assert!(inside.contains(&m.value()));
            assert_ne!(m.value(), n.value());
        }
    }
    Ok(())
}

#[test]
fn spans_cover_descendants() -> Result<(), Error> {
    let tree = sample()?;
    let mut all = tree.walk();
    while let Some(n) = all.next() {
        let outer = n.range();
        let mut inside = n.walk().inside();
        while let Some(m) = inside.next() {
            let inner = m.range();
            assert!(outer.start <= inner.start && inner.start <= inner.end && inner.end <= outer.end);
        }
        assert!(outer.end <= tree.range().end);
    }
    assert_eq!(tree.range(), 0..11);
    Ok(())
}

#[test]
fn reverse_walk_visits_every_node_once() -> Result<(), Error> {
    let tree = sample()?;
    let mut forward = values(tree.walk());
    let mut backward = values(tree.children().walk_rev());
    assert_eq!(backward.len(), tree.len());
    forward.sort();
    backward.sort();
    assert_eq!(forward, backward);
    Ok(())
}
