use syntree::{Empty, Index, Length, Span};

#[test]
fn span_new_and_point() {
    let span = Span::new(4u32, 8u32);
    assert_eq!(span.start, 4);
    assert_eq!(span.end, 8);
    assert_eq!(Span::point(4u32), Span::new(4u32, 4u32));
}

#[test]
fn span_join() {
    let a = Span::new(4u32, 8u32);
    let b = Span::new(5u32, 9u32);
    let span = a.join(&b);
    assert_eq!(span.start, 4);
    assert_eq!(span.end, 9);
    assert_eq!(span, b.join(&a));
    let c = Span::new(1u32, 2u32);
    assert_eq!(a.join(&c), Span::new(1, 8));
}

#[test]
fn span_is_empty() {
    assert!(Span::new(0u32, 0u32).is_empty());
    assert!(!Span::new(0u32, 10u32).is_empty());
}

#[test]
fn span_contains() {
    assert!(!Span::new(2u32, 2u32).contains(&2));
    assert!(Span::new(2u32, 3u32).contains(&2));
    assert!(!Span::new(2u32, 3u32).contains(&3));
}

#[test]
fn span_range_and_len() {
    let a = Span::new(4u32, 8u32);
    assert_eq!(a.range(), 4..8);
    assert_eq!(Span::new(0u32, 0u32).len(), 0);
    assert_eq!(Span::new(0u32, 10u32).len(), 10);
    assert_eq!(Span::new(10usize, 4usize).len(), 0);
}

#[test]
fn index_conversions() {
    assert_eq!(<u32 as Index>::from_usize(7), Some(7u32));
    assert_eq!(<u32 as Index>::from_usize(u32::MAX as usize + 1), None);
    assert_eq!(<usize as Index>::from_usize(usize::MAX), Some(usize::MAX));
    assert_eq!(5u32.checked_add_len(3), Some(8));
    assert_eq!(u32::MAX.checked_add_len(1), None);
    assert_eq!(usize::MAX.checked_add_len(1), None);
    assert_eq!(3u32.len_to(10), 7);
    assert_eq!(10u32.len_to(3), 0);
    assert_eq!(7usize.as_usize(), 7);
    assert!(<u32 as Index>::empty().is_empty());
    assert!(Length::is_empty(&0usize));
}

#[test]
fn empty_index_stores_nothing() {
    let e = Empty;
    assert_eq!(e.checked_add_len(Empty), Some(Empty));
    assert_eq!(<Empty as Index>::from_usize(100), Some(Empty));
    assert_eq!(e.as_usize(), 0);
    assert!(Span::new(Empty, Empty).is_empty());
}
