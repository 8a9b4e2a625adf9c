use quote_stream::error::QuoteError;
use quote_stream::quote::StockQuote;

fn sample() -> StockQuote {
    StockQuote { ticker: "AAA".to_string(), price: 10150, volume: 120, timestamp: 1700000000 }
}

#[test]
fn encodes_with_two_decimals() {
    assert_eq!(sample().to_bytes(), b"AAA|101.50|120|1700000000".to_vec());
    assert_eq!(sample().to_string(), "AAA|101.50|120|1700000000");
}

#[test]
fn encodes_small_prices() {
    let q = StockQuote { ticker: "B".to_string(), price: 7, volume: 0, timestamp: 0 };
    assert_eq!(q.to_string(), "B|0.07|0|0");
}

#[test]
fn decodes_back_what_was_encoded() {
    for q in [
        sample(),
        StockQuote { ticker: "ZZZ9".to_string(), price: 0, volume: 0, timestamp: 0 },
        StockQuote { ticker: "MAX".to_string(), price: u64::MAX, volume: u32::MAX, timestamp: u64::MAX },
        StockQuote { ticker: String::new(), price: 5, volume: 1, timestamp: 2 },
    ] {
        let back = StockQuote::from_bytes(&q.to_bytes()).unwrap();
        assert_eq!(back.ticker, q.ticker);
        assert_eq!(back.price, q.price);
        assert_eq!(back.volume, q.volume);
        assert_eq!(back.timestamp, q.timestamp);
    }
}

#[test]
fn decodes_prices_with_one_or_no_decimal() {
    let q = StockQuote::from_string("AAA|101.5|120|1700000000").unwrap();
    assert_eq!(q.price, 10150);
    let q = StockQuote::from_string("AAA|101|120|1700000000").unwrap();
    assert_eq!(q.price, 10100);
}

#[test]
fn rejects_wrong_field_count() {
    assert!(matches!(StockQuote::from_string("AAA|1.00|120"), Err(QuoteError::MissingField(_))));
    assert!(matches!(StockQuote::from_string("AAA|1.00|120|1|2"), Err(QuoteError::MissingField(_))));
    assert!(matches!(StockQuote::from_string(""), Err(QuoteError::MissingField(_))));
}

#[test]
fn rejects_bad_numbers() {
    assert_eq!(StockQuote::from_string("AAA|x|120|1").unwrap_err(), QuoteError::InvalidPrice);
    assert_eq!(StockQuote::from_string("AAA|1.234|120|1").unwrap_err(), QuoteError::InvalidPrice);
    assert_eq!(StockQuote::from_string("AAA|.5|120|1").unwrap_err(), QuoteError::InvalidPrice);
    assert_eq!(StockQuote::from_string("AAA|-1|120|1").unwrap_err(), QuoteError::InvalidPrice);
    assert_eq!(StockQuote::from_string("AAA|1.00|4294967296|1").unwrap_err(), QuoteError::InvalidVolume);
    assert_eq!(StockQuote::from_string("AAA|1.00||1").unwrap_err(), QuoteError::InvalidVolume);
    assert_eq!(
        StockQuote::from_string("AAA|1.00|1|18446744073709551616").unwrap_err(),
        QuoteError::InvalidTimestamp
    );
    assert_eq!(StockQuote::from_string("AAA|1.00|1|t").unwrap_err(), QuoteError::InvalidTimestamp);
}

#[test]
fn rejects_bytes_that_are_not_text() {
    assert!(matches!(
        StockQuote::from_bytes(&[0x41, 0xff, b'|', b'1', b'|', b'1', b'|', b'1']),
        Err(QuoteError::InvalidQuote(_))
    ));
}

#[test]
fn largest_price_fits_and_one_more_does_not() {
    let q = StockQuote::from_string("A|184467440737095516.15|1|1").unwrap();
    assert_eq!(q.price, u64::MAX);
    assert_eq!(
        StockQuote::from_string("A|184467440737095516.16|1|1").unwrap_err(),
        QuoteError::InvalidPrice
    );
}

#[test]
fn accepts_a_leading_plus_on_numbers() {
    let q = StockQuote::from_string("AAA|1|+2|3").unwrap();
    assert_eq!(q.volume, 2);
    assert_eq!(q.price, 100);
    assert_eq!(q.timestamp, 3);
    let q = StockQuote::from_string("AAA|+101.5|120|+1700000000").unwrap();
    assert_eq!(q.price, 10150);
    assert_eq!(q.timestamp, 1700000000);
    let q = StockQuote::from_string("AAA|1|+4294967295|+18446744073709551615").unwrap();
    assert_eq!(q.volume, u32::MAX);
    assert_eq!(q.timestamp, u64::MAX);
}

#[test]
fn rejects_a_lone_or_doubled_plus() {
    assert_eq!(StockQuote::from_string("AAA|1|+|3").unwrap_err(), QuoteError::InvalidVolume);
    assert_eq!(StockQuote::from_string("AAA|1|++2|3").unwrap_err(), QuoteError::InvalidVolume);
    assert_eq!(StockQuote::from_string("AAA|1|+5x|3").unwrap_err(), QuoteError::InvalidVolume);
    assert_eq!(StockQuote::from_string("AAA|1|2|+").unwrap_err(), QuoteError::InvalidTimestamp);
    assert_eq!(StockQuote::from_string("AAA|+|2|3").unwrap_err(), QuoteError::InvalidPrice);
    assert_eq!(StockQuote::from_string("AAA|++1|2|3").unwrap_err(), QuoteError::InvalidPrice);
    assert_eq!(StockQuote::from_string("AAA|1|+4294967296|3").unwrap_err(), QuoteError::InvalidVolume);
}
