use gdb_mi::breakpoint::BreakPointNumber;

fn id(major: usize, minor: Option<usize>) -> BreakPointNumber {
    BreakPointNumber { major, minor }
}

#[test]
fn identifier_without_minor() {
    assert_eq!(BreakPointNumber::from_str("5"), Ok(id(5, None)));
    assert_eq!(id(5, None).to_string(), "5");
}

#[test]
fn identifier_with_minor() {
    assert_eq!(BreakPointNumber::from_str("5.2"), Ok(id(5, Some(2))));
    assert_eq!(id(5, Some(2)).to_string(), "5.2");
}

#[test]
fn identifier_text_reads_back() {
    for n in [id(0, None), id(0, Some(0)), id(10, Some(200)), id(usize::MAX, Some(usize::MAX))] {
        assert_eq!(BreakPointNumber::from_str(&n.to_string()), Ok(n));
    }
    assert_eq!(id(1234567890, None).to_string(), "1234567890");
    assert_eq!(BreakPointNumber::from_str("007.010"), Ok(id(7, Some(10))));
    assert_eq!(BreakPointNumber::from_str("+3"), Ok(id(3, None)));
}

#[test]
fn malformed_identifier_is_described() {
    let empty = Err("cannot parse integer from empty string".to_string());
    let digit = Err("invalid digit found in string".to_string());
    let large = Err("number too large to fit in target type".to_string());
    assert_eq!(BreakPointNumber::from_str(""), empty);
    assert_eq!(BreakPointNumber::from_str("."), empty);
    assert_eq!(BreakPointNumber::from_str("5."), empty);
    assert_eq!(BreakPointNumber::from_str(".5"), empty);
    assert_eq!(BreakPointNumber::from_str("abc"), digit);
    assert_eq!(BreakPointNumber::from_str("-1"), digit);
    assert_eq!(BreakPointNumber::from_str("+"), digit);
    assert_eq!(BreakPointNumber::from_str("5.2.1"), digit);
    assert_eq!(BreakPointNumber::from_str("5 "), digit);
    assert_eq!(BreakPointNumber::from_str("1.x"), digit);
    assert_eq!(BreakPointNumber::from_str("99999999999999999999999999"), large);
    assert_eq!(BreakPointNumber::from_str("1.99999999999999999999999999"), large);
    assert_eq!(BreakPointNumber::from_str("99999999999999999999999999x"), large);
}

#[test]
fn malformed_identifier_agrees_with_std() {
    for text in ["", "+", "-", "x", "12x", "99999999999999999999999999x", "18446744073709551616"] {
        let ours = BreakPointNumber::from_str(text);
        let std_says = text.parse::<usize>();
        assert_eq!(ours.is_ok(), std_says.is_ok());
        if let (Err(a), Err(b)) = (ours, std_says) {
            assert_eq!(a, b.to_string());
        }
    }
}

#[test]
fn identifiers_order_by_major_then_minor() {
    assert!(id(1, None) < id(2, None));
    assert!(id(1, Some(9)) < id(2, None));
    assert!(id(3, None) < id(3, Some(0)));
    assert!(id(3, Some(1)) < id(3, Some(2)));
    assert!(id(3, Some(1)) == id(3, Some(1)));
    assert!(!(id(3, None) < id(3, None)));
    assert!(id(4, None) > id(3, Some(7)));
    let mut ids = vec![id(3, Some(1)), id(2, None), id(3, None), id(1, Some(5))];
    ids.sort();
    assert_eq!(ids, vec![id(1, Some(5)), id(2, None), id(3, None), id(3, Some(1))]);
}

#[test]
fn identifier_parses_through_the_standard_trait() {
    assert_eq!("12.3".parse::<BreakPointNumber>(), Ok(id(12, Some(3))));
    assert_eq!("12".parse::<BreakPointNumber>(), Ok(id(12, None)));
    assert_eq!(
        "12.".parse::<BreakPointNumber>(),
        Err("cannot parse integer from empty string".to_string())
    );
}
