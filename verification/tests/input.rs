use thunes::amount::{format_amount, parse_amount};
use thunes::error::{CommandError, Error};
use thunes::input::parse_tags;

#[test]
fn parse_amount_reads_minor_units() {
    assert_eq!(parse_amount("12"), Ok(1200));
    assert_eq!(parse_amount("12.5"), Ok(1250));
    assert_eq!(parse_amount("12.50"), Ok(1250));
    assert_eq!(parse_amount("0.05"), Ok(5));
    assert_eq!(parse_amount("007.10"), Ok(710));
    assert_eq!(parse_amount("92233720368547758.07"), Ok(i64::MAX));
}

#[test]
fn parse_amount_refuses_what_is_no_positive_amount() {
    for text in [
        "", ".", ".5", "12.", "1.234", "-3", "+3", "1,5", "abc", "1e3", " 1", "1 ", "0", "0.00",
        "1.2.3", "٣",
    ] {
        assert_eq!(parse_amount(text), Err(Error::InvalidInput), "{:?}", text);
    }
    assert_eq!(parse_amount("92233720368547758.08"), Err(Error::InvalidInput));
    assert_eq!(parse_amount("99999999999999999999999999999999"), Err(Error::InvalidInput));
}

#[test]
fn format_amount_writes_two_decimals() {
    assert_eq!(format_amount(0), "0.00");
    assert_eq!(format_amount(5), "0.05");
    assert_eq!(format_amount(-5), "-0.05");
    assert_eq!(format_amount(1250), "12.50");
    assert_eq!(format_amount(-113750), "-1137.50");
    assert_eq!(format_amount(100), "1.00");
    assert_eq!(
        format_amount(i128::MIN),
        "-1701411834604692317316873037158841057.28"
    );
    assert_eq!(format_amount(i128::MAX), "1701411834604692317316873037158841057.27");
}

#[test]
fn written_amounts_are_read_back() {
    for amount in [1i64, 9, 10, 99, 100, 101, 1250, 999999, i64::MAX] {
        assert_eq!(parse_amount(&format_amount(amount as i128)), Ok(amount));
    }
}

#[test]
fn parse_tags_splits_on_commas_and_gives_the_set_in_order() {
    assert_eq!(parse_tags("house,family,expenses"), vec!["expenses", "family", "house"]);
    assert_eq!(parse_tags("food"), vec!["food"]);
    assert_eq!(parse_tags("a,b,a,c,b"), vec!["a", "b", "c"]);
    assert_eq!(parse_tags("c,b,a,b,c"), vec!["a", "b", "c"]);
    assert_eq!(parse_tags(""), vec![""]);
    assert_eq!(parse_tags("a,"), vec!["", "a"]);
    assert_eq!(parse_tags(",b,,a"), vec!["", "a", "b"]);
    assert_eq!(parse_tags("hiver,été"), vec!["hiver", "été"]);
    assert_eq!(parse_tags("ab,a,abc,B"), vec!["B", "a", "ab", "abc"]);
}

#[test]
fn parse_tags_does_not_depend_on_the_order_typed() {
    assert_eq!(parse_tags("a,b"), parse_tags("b,a"));
    assert_eq!(parse_tags("shared,food,rent"), parse_tags("rent,shared,food,rent"));
}

#[test]
fn every_error_has_its_own_message() {
    let all = [
        Error::NotFound,
        Error::AlreadyExists,
        Error::Corrupt,
        Error::InvalidInput,
        Error::IoFailure,
        Error::LockContention,
    ];
    for (i, a) in all.iter().enumerate() {
        assert!(!a.message().is_empty());
        for b in all.iter().skip(i + 1) {
            assert_ne!(a.message(), b.message());
        }
    }
    assert_eq!(Error::AlreadyExists.message(), "Account already exists");
}

#[test]
fn only_contention_is_retryable() {
    assert!(Error::LockContention.is_retryable());
    assert!(!Error::NotFound.is_retryable());
    assert!(!Error::AlreadyExists.is_retryable());
    assert!(!Error::Corrupt.is_retryable());
    assert!(!Error::InvalidInput.is_retryable());
    assert!(!Error::IoFailure.is_retryable());
}

#[test]
fn command_error_names_the_account() {
    let error = CommandError::Account("bourso".to_string(), Error::NotFound);
    assert_eq!(error.message(), "Account 'bourso': Account not found");
    assert_eq!(CommandError::Operation(Error::InvalidInput).message(), "Invalid input");
    assert_eq!(
        CommandError::InvalidDate("tomorrow".to_string()).message(),
        "Invalid date 'tomorrow'"
    );
    let converted: CommandError = Error::Corrupt.into();
    assert!(matches!(converted, CommandError::Operation(Error::Corrupt)));
}
