use upgrade_picker::{elaborate_input, extract_first_and_last, InputParseError};

fn selected(text: &str) -> Vec<usize> {
    match elaborate_input(text) {
        Ok(v) => v,
        Err(e) => panic!("{:?} refused: {:?}", text, e),
    }
}

fn refused(text: &str) -> bool {
    matches!(elaborate_input(text), Err(InputParseError::BadFormat))
}

#[test]
fn single_numbers_select_themselves() {
    assert_eq!(selected("0"), vec![0]);
    assert_eq!(selected("7"), vec![7]);
    assert_eq!(selected("42"), vec![42]);
    assert_eq!(selected("1234567"), vec![1234567]);
}

#[test]
fn single_number_with_plus_sign_and_leading_zeros() {
    assert_eq!(selected("+5"), vec![5]);
    assert_eq!(selected("007"), vec![7]);
}

#[test]
fn largest_index_is_accepted() {
    let text = format!("{}", usize::MAX);
    assert_eq!(selected(&text), vec![usize::MAX]);
}

#[test]
fn index_past_machine_range_is_refused() {
    let text = format!("{}0", usize::MAX);
    assert!(refused(&text));
}

#[test]
fn ascending_range_selects_every_index() {
    assert_eq!(selected("2-5"), vec![2, 3, 4, 5]);
    assert_eq!(selected("0-3"), vec![0, 1, 2, 3]);
    assert_eq!(selected("1-1"), vec![1]);
}

#[test]
fn descending_range_selects_nothing() {
    assert_eq!(selected("5-2"), Vec::<usize>::new());
    assert_eq!(selected("3-0"), Vec::<usize>::new());
}

#[test]
fn list_of_numbers_and_ranges() {
    assert_eq!(selected("1,2,3-5,9"), vec![1, 2, 3, 4, 5, 9]);
    assert_eq!(selected("3,1"), vec![3, 1]);
    assert_eq!(selected("4-6,2"), vec![4, 5, 6, 2]);
}

#[test]
fn malformed_inputs_are_refused() {
    assert!(refused(""));
    assert!(refused(","));
    assert!(refused("-"));
    assert!(refused("abc"));
    assert!(refused("1,,2"));
    assert!(refused("1,x"));
    assert!(refused("1 2"));
}

#[test]
fn zero_to_zero_range_is_refused() {
    assert!(refused("0-0"));
    assert!(refused("1,0-0"));
}

#[test]
fn unreadable_range_end_counts_as_zero() {
    assert_eq!(selected("x-2"), vec![0, 1, 2]);
    assert_eq!(selected("2-x"), Vec::<usize>::new());
    assert_eq!(selected("-5"), vec![0, 1, 2, 3, 4, 5]);
    assert!(refused("x-y"));
}

#[test]
fn range_with_three_pieces_uses_the_first_two() {
    assert_eq!(selected("1-3-9"), vec![1, 2, 3]);
    assert_eq!(selected("0-0-5"), vec![0]);
}

#[test]
fn range_bounds_are_read() {
    assert!(matches!(extract_first_and_last("3-7"), Ok((3, 7))));
    assert!(matches!(extract_first_and_last("9-2"), Ok((9, 2))));
    assert!(matches!(extract_first_and_last("x-4"), Ok((0, 4))));
    assert!(matches!(extract_first_and_last("-"), Err(InputParseError::BadFormat)));
    assert!(matches!(extract_first_and_last("0-0"), Err(InputParseError::BadFormat)));
}
