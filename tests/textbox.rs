use rpn_calc::{CustomError, CustomTextbox, TEXT_BUFFER_SIZE};

#[test]
fn append_within_budget() {
    let mut t = CustomTextbox::new();
    assert!(t.is_empty());
    assert_eq!(t.append_str("12"), Ok(()));
    assert_eq!(t.append_char('.'), Ok(()));
    assert_eq!(t.append_char('5'), Ok(()));
    assert_eq!(t.get_text(), "12.5");
    assert_eq!(t.get_text_str(), "12.5");
    assert_eq!(t.len(), 4);
}

#[test]
fn append_past_budget_fails_without_change() {
    let mut t = CustomTextbox::new();
    let full = "x".repeat(TEXT_BUFFER_SIZE);
    assert_eq!(t.append_str(&full), Ok(()));
    assert_eq!(t.append_char('y'), Err(CustomError::CapacityError));
    assert_eq!(t.get_text_str(), full);
    let mut u = CustomTextbox::new();
    assert_eq!(u.append_str(&"a".repeat(TEXT_BUFFER_SIZE - 1)), Ok(()));
    assert_eq!(u.append_char('é'), Err(CustomError::CapacityError));
    assert_eq!(u.append_str("bc"), Err(CustomError::CapacityError));
    assert_eq!(u.len(), TEXT_BUFFER_SIZE - 1);
}

#[test]
fn backspace_counts_characters() {
    let mut t = CustomTextbox::new();
    t.append_str("aé1").unwrap();
    assert_eq!(t.backspace(4), Err(CustomError::BadInput));
    assert_eq!(t.get_text_str(), "aé1");
    assert_eq!(t.backspace(2), Ok(()));
    assert_eq!(t.get_text_str(), "a");
    assert_eq!(t.backspace(1), Ok(()));
    assert!(t.is_empty());
}

#[test]
fn queries() {
    let mut t = CustomTextbox::new();
    t.append_str("-12.5").unwrap();
    assert!(t.contains('.'));
    assert!(!t.contains('x'));
    assert!(t.contains_str("2.5"));
    assert!(t.contains_str(""));
    assert!(!t.contains_str("25"));
    assert!(t.starts_with('-'));
    assert!(t.starts_with_str("-1"));
    assert!(!t.starts_with_str("1"));
    assert!(t.ends_with('5'));
    assert!(t.ends_with_str(".5"));
    assert!(!t.ends_with_str("-12.5x"));
}

#[test]
fn insert_and_remove_at_boundaries() {
    let mut t = CustomTextbox::new();
    t.append_str("aé").unwrap();
    assert_eq!(t.insert_at(2, 'x'), Err(CustomError::BadInput));
    assert_eq!(t.insert_at(9, 'x'), Err(CustomError::BadInput));
    assert_eq!(t.insert_at(1, 'x'), Ok(()));
    assert_eq!(t.get_text_str(), "axé");
    assert_eq!(t.insert_str_at(0, "--"), Ok(()));
    assert_eq!(t.get_text_str(), "--axé");
    assert_eq!(t.remove_at(4), Ok('é'));
    assert_eq!(t.remove_at(4), Err(CustomError::BadInput));
    assert_eq!(t.remove_at(0), Ok('-'));
    assert_eq!(t.get_text_str(), "-ax");
    t.clear();
    assert_eq!(t.get_text_str(), "");
}
