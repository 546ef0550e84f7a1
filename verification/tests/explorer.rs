use block_explorer::batch::{collect_batch_results, BatchEntry};
use block_explorer::chain::{
    input_addresses, input_txids, is_coinbase, recent_block_heights, spent_output_index,
    ValidateAddress, VerbosityLevel, Vin,
};
use block_explorer::decimal::{decimal_chars, parse_i64};
use block_explorer::search::{search_next, search_start, SearchStep};

fn vin(txid: Option<&str>, vout: Option<i64>, coinbase: Option<&str>) -> Vin {
    Vin {
        txid: txid.map(|t| t.to_string()),
        vout,
        coinbase: coinbase.map(|c| c.to_string()),
        txinwitness: None,
        sequence: Some(4294967295),
    }
}

#[test]
fn verbosity_levels() {
    assert_eq!(VerbosityLevel::HexDecoded.as_int(), 1);
    assert_eq!(VerbosityLevel::Detailed.as_int(), 2);
}

#[test]
fn decimal_text_of_integers() {
    for v in [0i64, 9, 10, 4567, -1, -90, i64::MAX, i64::MIN] {
        let text: String = decimal_chars(v).into_iter().collect();
        assert_eq!(text, v.to_string());
    }
}

#[test]
fn parse_reads_what_std_reads() {
    for s in [
        "0", "123", "-5", "+7", "-0", "007", "9223372036854775807", "-9223372036854775808",
        "9223372036854775808", "-9223372036854775809", "", "-", "+", "+-1", "12a", " 1", "1 ",
        "٣", "99999999999999999999999", "1.5",
    ] {
        assert_eq!(parse_i64(s), s.parse::<i64>().ok(), "{s:?}");
    }
}

#[test]
fn parse_reads_back_decimal_text() {
    for v in [0i64, 1, -1, 42, 123456789, i64::MIN, i64::MAX] {
        assert_eq!(parse_i64(&v.to_string()), Some(v));
    }
}

#[test]
fn recent_heights_newest_first() {
    assert_eq!(recent_block_heights(100), vec![100, 99, 98, 97, 96, 95]);
    assert_eq!(recent_block_heights(5), vec![5, 4, 3, 2, 1, 0]);
}

#[test]
fn coinbase_is_decided_by_the_first_input() {
    assert!(is_coinbase(&vec![vin(None, None, Some("03a0bb0d"))]));
    assert!(!is_coinbase(&vec![vin(Some("aa"), Some(0), None)]));
    assert!(!is_coinbase(&vec![]));
    assert!(!is_coinbase(&vec![vin(Some("aa"), Some(0), None), vin(None, None, Some("00"))]));
}

#[test]
fn input_txids_skip_inputs_without_one() {
    let inputs = vec![vin(Some("aa"), Some(0), None), vin(None, None, Some("00")), vin(Some("bb"), Some(3), None)];
    assert_eq!(input_txids(&inputs), vec!["aa".to_string(), "bb".to_string()]);
}

#[test]
fn spent_output_index_cases() {
    assert_eq!(spent_output_index(&vin(Some("aa"), Some(1), None), 2), Some(1));
    assert_eq!(spent_output_index(&vin(Some("aa"), Some(2), None), 2), None);
    assert_eq!(spent_output_index(&vin(Some("aa"), None, None), 2), Some(0));
    assert_eq!(spent_output_index(&vin(Some("aa"), None, None), 0), None);
    assert_eq!(spent_output_index(&vin(Some("aa"), Some(-1), None), 2), None);
}

#[test]
fn input_addresses_pair_inputs_with_fetched_transactions() {
    let inputs = vec![vin(Some("aa"), Some(1), None), vin(Some("bb"), Some(5), None), vin(Some("cc"), Some(0), None)];
    let spent = vec![
        vec![Some("first".to_string()), Some("second".to_string())],
        vec![Some("x".to_string())],
    ];
    assert_eq!(input_addresses(&inputs, &spent), vec![Some("second".to_string()), None]);
    let spent_no_address = vec![vec![None, None]];
    assert_eq!(input_addresses(&inputs, &spent_no_address), vec![None]);
}

#[test]
fn search_by_height() {
    let step = search_start("812345");
    assert_eq!(step, SearchStep::FetchBlockHashAt(812345));
    assert_eq!(search_next("812345", step, true), SearchStep::ShowBlockAtHeight);
    assert_eq!(search_next("812345", step, false), SearchStep::ShowAddress);
}

#[test]
fn search_by_hash() {
    let hash = "000000000000000000026f2b5f1fc0e1a7b8c8b0f7d0b3d6b1e8e7a6c6d5e3f8";
    let step = search_start(hash);
    assert_eq!(step, SearchStep::FetchBlock);
    assert_eq!(search_next(hash, step, true), SearchStep::ShowBlock);
    let step = search_next(hash, step, false);
    assert_eq!(step, SearchStep::FetchTransaction);
    assert_eq!(search_next(hash, step, true), SearchStep::ShowTransaction);
    assert_eq!(search_next(hash, step, false), SearchStep::ShowAddress);
}

#[test]
fn search_for_an_address() {
    assert_eq!(search_start("bc1qar0srrr7xfkvy5l643lydnw9re59gtzzwf5mdq"), SearchStep::ShowAddress);
    assert_eq!(search_start(""), SearchStep::ShowAddress);
}

#[test]
fn search_of_a_64_digit_number_tries_height_then_hash() {
    let query = "0000000000000000000000000000000000000000000000000000000000000001";
    let step = search_start(query);
    assert_eq!(step, SearchStep::FetchBlockHashAt(1));
    assert_eq!(search_next(query, step, false), SearchStep::FetchBlock);
}

#[test]
fn search_counts_bytes() {
    // 32 two-byte characters: 64 bytes
    let query = "é".repeat(32);
    assert_eq!(search_start(&query), SearchStep::FetchBlock);
    let query = "a".repeat(63);
    assert_eq!(search_start(&query), SearchStep::ShowAddress);
}

#[test]
fn search_ends_in_a_page_within_three_questions() {
    let hash = "000000000000000000026f2b5f1fc0e1a7b8c8b0f7d0b3d6b1e8e7a6c6d5e3f8";
    for query in ["42", hash, "mxaddress", "0000000000000000000000000000000000000000000000000000000000000001"] {
        for answers in 0..8u8 {
            let mut step = search_start(query);
            for k in 0..3 {
                step = search_next(query, step, answers & (1 << k) != 0);
            }
            assert!(matches!(
                step,
                SearchStep::ShowAddress | SearchStep::ShowBlock | SearchStep::ShowBlockAtHeight | SearchStep::ShowTransaction
            ));
        }
    }
}

#[test]
fn batch_results_in_order() {
    let entries = vec![
        BatchEntry { failed: false, result: 1 },
        BatchEntry { failed: false, result: 2 },
        BatchEntry { failed: false, result: 3 },
    ];
    assert_eq!(collect_batch_results(entries), Ok(vec![1, 2, 3]));
    let empty: Vec<BatchEntry<u8>> = vec![];
    assert_eq!(collect_batch_results(empty), Ok(vec![]));
}

#[test]
fn batch_reports_the_first_error() {
    let entries = vec![
        BatchEntry { failed: false, result: "a" },
        BatchEntry { failed: true, result: "b" },
        BatchEntry { failed: true, result: "c" },
    ];
    assert_eq!(collect_batch_results(entries), Err(1));
}

#[test]
fn only_valid_addresses_have_a_page() {
    let mut info = ValidateAddress {
        isvalid: true,
        address: "bc1qar0srrr7xfkvy5l643lydnw9re59gtzzwf5mdq".to_string(),
        script_pub_key: "0014e8df018c7e326cc253faac7e46cdc51e68542c42".to_string(),
        isscript: false,
        iswitness: true,
    };
    assert!(info.has_page());
    info.isvalid = false;
    assert!(!info.has_page());
}
