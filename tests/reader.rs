use mayfig::error::{Position, Span};
use mayfig::read::{Read, StrRead};
use std::cmp::Ordering;

#[test]
fn read_str() {
    let mut scratch = Vec::new();

    let s1 = String::from(r#""test""#);
    let mut s1 = StrRead::new(&s1);
    let p1 = s1.str(&mut scratch).unwrap();
    assert_eq!(p1.get(), "test");

    let s2 = String::from(r#""t\"e\"st""#);
    let mut s2 = StrRead::new(&s2);
    scratch.clear();
    let p2 = s2.str(&mut scratch).unwrap();
    assert_eq!(p2.get(), r#"t"e"st"#);

    let s3 = String::from(r#""t\tt""#);
    let mut s3 = StrRead::new(&s3);
    scratch.clear();
    let p3 = s3.str(&mut scratch).unwrap();
    assert_eq!(p3.get(), "t\tt");

    let s4 = String::from(r#""t\\\\\"\"\\\"t""#);
    let mut s4 = StrRead::new(&s4);
    scratch.clear();
    let p4 = s4.str(&mut scratch).unwrap();
    assert_eq!(p4.get(), r#"t\\""\"t"#);
}

#[test]
fn ord_span() {
    let span = Span::Span(
        Position { line: 2, col: 6, index: 15 },
        Position { line: 2, col: 16, index: 25 },
    );

    let p1 = Span::Point(Position { line: 1, col: 6, index: 5 });
    assert_eq!(span.cmp(&p1), Ordering::Greater);
    assert_eq!(p1.cmp(&span), Ordering::Less);

    let p2 = Span::Point(Position { line: 2, col: 6, index: 15 });
    assert_eq!(span.cmp(&p2), Ordering::Equal);
    assert_eq!(p2.cmp(&span), Ordering::Equal);

    let p3 = Span::Point(Position { line: 2, col: 11, index: 20 });
    assert_eq!(span.cmp(&p3), Ordering::Equal);
    assert_eq!(p3.cmp(&span), Ordering::Equal);

    let p4 = Span::Point(Position { line: 2, col: 16, index: 25 });
    assert_eq!(span.cmp(&p4), Ordering::Equal);
    assert_eq!(p4.cmp(&span), Ordering::Equal);

    let p5 = Span::Point(Position { line: 3, col: 6, index: 30 });
    assert_eq!(span.cmp(&p5), Ordering::Less);
    assert_eq!(p5.cmp(&span), Ordering::Greater);
}

#[test]
fn span_contains_and_range() {
    let span = Span::Span(
        Position { line: 2, col: 6, index: 15 },
        Position { line: 2, col: 16, index: 25 },
    );
    assert!(span.contains(&Position { line: 2, col: 11, index: 20 }));
    assert!(!span.contains(&Position { line: 3, col: 1, index: 26 }));
    assert_eq!(span.range(), 15..25);
    assert_eq!(Span::Point(Position { line: 1, col: 4, index: 3 }).range(), 3..4);
}

#[test]
fn borrowed_unless_escaped() {
    let mut scratch = Vec::new();
    let plain = String::from(r#""plain""#);
    let mut r = StrRead::new(&plain);
    assert!(r.str(&mut scratch).unwrap().is_borrowed());

    let escaped = String::from(r#""a\nb""#);
    let mut r = StrRead::new(&escaped);
    let t = r.str(&mut scratch).unwrap();
    assert!(!t.is_borrowed());
    assert_eq!(t.get(), "a\nb");
}
