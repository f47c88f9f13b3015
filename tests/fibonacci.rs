use lru::{FibonacciCalc, FibonacciEmbed};

#[test]
fn calc_fibonacci() {
	assert_eq!(FibonacciCalc::calc("10"), 1);
	assert_eq!(FibonacciCalc::calc("5021"), 4);
	assert_eq!(FibonacciCalc::calc("12345"), 5);
	assert_eq!(FibonacciCalc::calc("1000000"), 1);
}

#[test]
fn embed_fibonacci() {
	assert_eq!(FibonacciEmbed::calc("10"), 1);
	assert_eq!(FibonacciEmbed::calc("5021"), 4);
	assert_eq!(FibonacciEmbed::calc("12345"), 5);
	assert_eq!(FibonacciEmbed::calc("1000000"), 1);
}

#[test]
fn table_stops_at_one_million_test() {
	assert_eq!(FibonacciCalc::calc("1346269"), 6);
	assert_eq!(FibonacciEmbed::calc("1346269"), 5);
}

#[test]
fn empty_and_zero_inputs_test() {
	assert_eq!(FibonacciCalc::calc(""), 0);
	assert_eq!(FibonacciEmbed::calc(""), 0);
	assert_eq!(FibonacciCalc::calc("00"), 0);
	assert_eq!(FibonacciEmbed::calc("89"), 2);
	assert_eq!(FibonacciCalc::calc("89"), 2);
}
