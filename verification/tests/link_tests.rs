use gdfm::last_page_from_link;
use gdfm::CollectError;

#[test]
fn header_with_prev_and_last_reads_last() {
    let h = b"<https://example.test/repo/pulls?page=1>; rel=\"prev\", <https://example.test/repo/pulls?page=5>; rel=\"last\"";
    assert_eq!(last_page_from_link(h), Ok(Some(5)));
}

#[test]
fn header_without_last_means_one_page() {
    let h = b"<https://example.test/repo/pulls?page=2>; rel=\"next\"";
    assert_eq!(last_page_from_link(h), Ok(None));
}

#[test]
fn empty_header_means_one_page() {
    assert_eq!(last_page_from_link(b""), Ok(None));
}

#[test]
fn last_entry_without_query_is_a_parse_error() {
    let h = b"<https://example.test/repo/pulls>; rel=\"last\"";
    assert_eq!(last_page_from_link(h), Err(CollectError::Parse));
}

#[test]
fn last_entry_without_page_parameter_is_a_parse_error() {
    let h = b"<https://example.test/repo/pulls?per_page=100>; rel=\"last\"";
    assert_eq!(last_page_from_link(h), Err(CollectError::Parse));
}

#[test]
fn non_numeric_page_is_a_parse_error() {
    let h = b"<https://example.test/repo/pulls?page=abc>; rel=\"last\"";
    assert_eq!(last_page_from_link(h), Err(CollectError::Parse));
}

#[test]
fn unbracketed_url_is_a_parse_error() {
    let h = b"https://example.test/repo/pulls?page=5; rel=\"last\"";
    assert_eq!(last_page_from_link(h), Err(CollectError::Parse));
}

#[test]
fn oversized_page_number_is_a_parse_error() {
    let h = b"<https://example.test/repo/pulls?page=4294967296>; rel=\"last\"";
    assert_eq!(last_page_from_link(h), Err(CollectError::Parse));
}

#[test]
fn largest_page_number_still_parses() {
    let h = b"<https://example.test/repo/pulls?page=4294967295>; rel=\"last\"";
    assert_eq!(last_page_from_link(h), Ok(Some(4294967295)));
}

#[test]
fn page_parameter_is_found_among_others() {
    let h = b"<https://example.test/pulls?state=closed&page=7&per_page=100>; rel=\"last\"";
    assert_eq!(last_page_from_link(h), Ok(Some(7)));
}

#[test]
fn first_last_entry_wins() {
    let h = b"<https://a.test/x?page=3>; rel=\"last\", <https://a.test/x?page=9>; rel=\"last\"";
    assert_eq!(last_page_from_link(h), Ok(Some(3)));
}

#[test]
fn spaces_around_relation_are_ignored() {
    let h = b"<https://a.test/x?page=4>;  rel = \"last\" ";
    assert_eq!(last_page_from_link(h), Ok(Some(4)));
}

#[test]
fn other_relations_do_not_match() {
    let h = b"<https://a.test/x?page=4>; rel=\"first\", <https://a.test/x?page=2>; rel=\"next\"";
    assert_eq!(last_page_from_link(h), Ok(None));
}
