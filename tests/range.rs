use lru::{Range, RangeError, Ranges};

#[test]
fn range_test() {
	let range = Range::new("1,2,3,4,5").unwrap();
	assert_eq!(range.get_range(), vec![Ranges::Range { from: 1, to: 5 }]);

	let range = Range::new("6,3,4,5").unwrap();
	assert_eq!(range.get_range(), vec![Ranges::Range { from: 3, to: 6 }]);
}

#[test]
fn scalar_test() {
	let range = Range::new("1").unwrap();
	assert_eq!(range.get_range(), vec![Ranges::Scalar(1)]);

	let range = Range::new("1,3,10,20").unwrap();
	assert_eq!(
		range.get_range(),
		vec![
			Ranges::Scalar(1),
			Ranges::Scalar(3),
			Ranges::Scalar(10),
			Ranges::Scalar(20),
		]
	);

	let range = Range::new("5,3,1").unwrap();
	assert_eq!(range.get_range(), vec![Ranges::Scalar(1), Ranges::Scalar(3), Ranges::Scalar(5)]);
}

#[test]
fn mixed_test() {
	let range = Range::new("1,3,4").unwrap();
	assert_eq!(range.get_range(), vec![Ranges::Scalar(1), Ranges::Range { from: 3, to: 4 },]);

	let range = Range::new("1,3,4,8,10").unwrap();
	assert_eq!(
		range.get_range(),
		vec![
			Ranges::Scalar(1),
			Ranges::Range { from: 3, to: 4 },
			Ranges::Scalar(8),
			Ranges::Scalar(10),
		]
	);

	let range = Range::new("1,2,3,8,10,11").unwrap();
	assert_eq!(
		range.get_range(),
		vec![
			Ranges::Range { from: 1, to: 3 },
			Ranges::Scalar(8),
			Ranges::Range { from: 10, to: 11 },
		]
	);

	let range = Range::new("1,2,4,5,6,9,10,12").unwrap();
	assert_eq!(
		range.get_range(),
		vec![
			Ranges::Range { from: 1, to: 2 },
			Ranges::Range { from: 4, to: 6 },
			Ranges::Range { from: 9, to: 10 },
			Ranges::Scalar(12),
		]
	);

	let range = Range::new("10,3,4,5,1").unwrap();
	assert_eq!(range.get_range(), vec![Ranges::Scalar(1), Ranges::Range { from: 3, to: 5 }, Ranges::Scalar(10)]);
}

#[test]
fn parsing_error_test() {
	assert_eq!(
		Range::new(""),
		Err(RangeError::ParsingError(String::from("Failed to parse '': cannot parse integer from empty string")))
	);

	assert_eq!(
		RangeError::ParsingError(String::from("Failed to parse '': cannot parse integer from empty string")).to_string(),
		String::from("Failed to parse '': cannot parse integer from empty string")
	);

	assert_eq!(
		Range::new("1,2,three"),
		Err(RangeError::ParsingError(String::from("Failed to parse 'three': invalid digit found in string")))
	);

	assert_eq!(
		Range::new("1,2,-3"),
		Err(RangeError::ParsingError(String::from("Failed to parse '-3': invalid digit found in string")))
	);

	assert_eq!(
		Range::new("1,2,3.5"),
		Err(RangeError::ParsingError(String::from("Failed to parse '3.5': invalid digit found in string")))
	);

	assert_eq!(
		Range::new("1,2,18446744073709551616"),
		Err(RangeError::ParsingError(String::from(
			"Failed to parse '18446744073709551616': number too large to fit in target type"
		)))
	);
}

#[test]
fn duplicates_stay_separate_runs_test() {
	let range = Range::new("2,1,1").unwrap();
	assert_eq!(range.get_range(), vec![Ranges::Scalar(1), Ranges::Range { from: 1, to: 2 }]);
}

#[test]
fn plus_sign_and_leading_zeros_test() {
	let range = Range::new("+7,08,6").unwrap();
	assert_eq!(range.get_range(), vec![Ranges::Range { from: 6, to: 8 }]);
	assert_eq!(
		Range::new("1,+"),
		Err(RangeError::ParsingError(String::from("Failed to parse '+': invalid digit found in string")))
	);
}

#[test]
fn first_bad_piece_is_reported_test() {
	assert_eq!(
		Range::new("1,x,,99999999999999999999"),
		Err(RangeError::ParsingError(String::from("Failed to parse 'x': invalid digit found in string")))
	);
	assert_eq!(
		Range::new("5,"),
		Err(RangeError::ParsingError(String::from("Failed to parse '': cannot parse integer from empty string")))
	);
}

#[test]
fn largest_value_test() {
	let range = Range::new("18446744073709551615,18446744073709551614").unwrap();
	assert_eq!(
		range.get_range(),
		vec![Ranges::Range { from: 18446744073709551614, to: 18446744073709551615 }]
	);
	let range = Range::new("18446744073709551615,18446744073709551615").unwrap();
	assert_eq!(
		range.get_range(),
		vec![Ranges::Scalar(18446744073709551615), Ranges::Scalar(18446744073709551615)]
	);
}
