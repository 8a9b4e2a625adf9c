use quote_stream::catalog::{all, Catalog};
use quote_stream::error::TickersError;

#[test]
fn all_trims_and_skips_blank_lines() {
    assert_eq!(all("  AAA \n\n\tBBB\r\n   \n"), vec!["AAA".to_string(), "BBB".to_string()]);
    assert_eq!(all(""), Vec::<String>::new());
}

#[test]
fn load_keeps_order() {
    let c = Catalog::load("MSFT\nAAPL\n", 5).unwrap();
    assert_eq!(c.len(), 2);
    assert_eq!(c.symbol(0), "MSFT");
    assert_eq!(c.index_of(b"AAPL"), Some(1));
    assert!(!c.contains(b"GOOG"));
}

#[test]
fn load_errors() {
    assert_eq!(Catalog::load(" \n\n", 5).unwrap_err(), TickersError::FileEmpty);
    assert_eq!(Catalog::load("A\nB\nC\n", 2).unwrap_err(), TickersError::TooManyTickers);
    assert_eq!(Catalog::load("AAA\nbad\n", 5).unwrap_err(), TickersError::InvalidLine("bad".to_string()));
    assert_eq!(Catalog::load("AAA\nAAA\n", 5).unwrap_err(), TickersError::InvalidLine("AAA".to_string()));
    assert!(Catalog::load("A\nB\n", 2).is_ok());
}

#[test]
fn all_trims_unicode_white_space() {
    assert_eq!(all("\u{b}AAA\u{a0}\n"), vec!["AAA".to_string()]);
    assert_eq!(all("\u{3000}BBB\u{2029}\n\u{85}\n\u{2000}CCC"), vec!["BBB".to_string(), "CCC".to_string()]);
    assert_eq!(all("\u{b}A"), vec!["A".to_string()]);
}

#[test]
fn load_treats_unicode_blank_lines_as_blank() {
    assert_eq!(Catalog::load("\u{b}\n", 5).unwrap_err(), TickersError::FileEmpty);
    assert_eq!(Catalog::load("\u{a0}\n\u{1680}", 5).unwrap_err(), TickersError::FileEmpty);
    let c = Catalog::load("\u{b}AAA\u{a0}\n\u{202f}BBB\n", 5).unwrap();
    assert_eq!(c.len(), 2);
    assert_eq!(c.index_of(b"AAA"), Some(0));
    assert_eq!(c.index_of(b"BBB"), Some(1));
}

#[test]
fn load_keeps_inner_non_white_characters() {
    assert_eq!(Catalog::load("A\u{200b}\n", 5).unwrap_err(), TickersError::InvalidLine("A\u{200b}".to_string()));
}
