use gdfm::{is_valid_number, pages_for_count, resolve_total, ResolveInput, ResolvedTotal};

#[test]
fn zero_items_need_zero_pages() {
    assert_eq!(pages_for_count(0, 100), 0);
}

#[test]
fn one_item_needs_one_page() {
    assert_eq!(pages_for_count(1, 100), 1);
}

#[test]
fn a_full_page_is_one_page() {
    assert_eq!(pages_for_count(100, 100), 1);
}

#[test]
fn one_over_a_page_needs_two() {
    assert_eq!(pages_for_count(101, 100), 2);
}

#[test]
fn five_hundred_items_at_hundred_per_page() {
    assert_eq!(pages_for_count(500, 100), 5);
}

#[test]
fn ceiling_division_exact_values() {
    assert_eq!(pages_for_count(250, 100), 3);
    assert_eq!(pages_for_count(99, 100), 1);
    assert_eq!(pages_for_count(1, 1), 1);
    assert_eq!(pages_for_count(7, 3), 3);
}

#[test]
fn count_strategy_passes_total_through() {
    let r = resolve_total(&ResolveInput::TotalCount(137)).unwrap();
    assert_eq!(r, ResolvedTotal::ItemCount(137));
    assert_eq!(r.pages(100), 2);
}

#[test]
fn count_strategy_zero_total_is_no_work_without_error() {
    let r = resolve_total(&ResolveInput::TotalCount(0)).unwrap();
    assert_eq!(r, ResolvedTotal::ItemCount(0));
    assert_eq!(r.pages(100), 0);
}

#[test]
fn absent_link_header_means_one_page() {
    let r = resolve_total(&ResolveInput::LinkHeader(None)).unwrap();
    assert_eq!(r, ResolvedTotal::PageCount(1));
}

#[test]
fn link_header_strategy_reads_last_page() {
    let header = b"<https://example.test/pulls?page=2>; rel=\"next\", <https://example.test/pulls?page=9>; rel=\"last\"".to_vec();
    let r = resolve_total(&ResolveInput::LinkHeader(Some(header))).unwrap();
    assert_eq!(r, ResolvedTotal::PageCount(9));
    assert_eq!(r.pages(100), 9);
}

#[test]
fn valid_numbers_parse() {
    assert_eq!(is_valid_number("123"), Ok(123));
    assert_eq!(is_valid_number("0"), Ok(0));
    assert_eq!(is_valid_number("+7"), Ok(7));
    assert_eq!(is_valid_number("4294967295"), Ok(4294967295));
}

#[test]
fn invalid_numbers_are_rejected() {
    let msg = "Must be a positive integer".to_string();
    assert_eq!(is_valid_number("abc"), Err(msg.clone()));
    assert_eq!(is_valid_number(""), Err(msg.clone()));
    assert_eq!(is_valid_number("+"), Err(msg.clone()));
    assert_eq!(is_valid_number("-3"), Err(msg.clone()));
    assert_eq!(is_valid_number("12a"), Err(msg.clone()));
    assert_eq!(is_valid_number("4294967296"), Err(msg));
}
