use perfect_dominating_posets::solve::dominating_set;
use perfect_dominating_posets::text::parse_edge;
use perfect_dominating_posets::text::parse_edge_bytes;
use perfect_dominating_posets::text::parse_edges;
use perfect_dominating_posets::text::split_lines;

#[test]
fn bracketed_pair_is_an_edge() {
    assert_eq!(parse_edge("[1,2]"), Some((1, 2)));
    assert_eq!(parse_edge("[10,255]"), Some((10, 255)));
    assert_eq!(parse_edge("[007,0]"), Some((7, 0)));
}

#[test]
fn brackets_are_dropped_wherever_they_stand() {
    assert_eq!(parse_edge("1,2"), Some((1, 2)));
    assert_eq!(parse_edge("[[1],[2]]"), Some((1, 2)));
    assert_eq!(parse_edge("1[2,3]4"), Some((12, 34)));
    assert_eq!(parse_edge("]1,2["), Some((1, 2)));
}

#[test]
fn plus_sign_may_lead_a_number() {
    assert_eq!(parse_edge("[+1,+2]"), Some((1, 2)));
    assert_eq!(parse_edge("[++1,2]"), None);
    assert_eq!(parse_edge("[+,2]"), None);
    assert_eq!(parse_edge("[1+,2]"), None);
    assert_eq!(parse_edge("[-1,2]"), None);
}

#[test]
fn wrong_arity_is_no_edge() {
    assert_eq!(parse_edge("[1]"), None);
    assert_eq!(parse_edge("[1,2,3]"), None);
    assert_eq!(parse_edge("[1,]"), None);
    assert_eq!(parse_edge("[,2]"), None);
    assert_eq!(parse_edge(","), None);
    assert_eq!(parse_edge(""), None);
    assert_eq!(parse_edge("[]"), None);
}

#[test]
fn non_numeric_token_is_no_edge() {
    assert_eq!(parse_edge("[a,2]"), None);
    assert_eq!(parse_edge("[1, 2]"), None);
    assert_eq!(parse_edge("[1,2] "), None);
    assert_eq!(parse_edge("[1,2]\r"), None);
    assert_eq!(parse_edge("[1.0,2]"), None);
    assert_eq!(parse_edge("[1,\u{661}]"), None);
    assert_eq!(parse_edge("[\u{ff11},2]"), None);
}

#[test]
fn numbers_up_to_64_bits_are_read() {
    assert_eq!(parse_edge("[18446744073709551615,0]"), Some((u64::MAX, 0)));
    assert_eq!(parse_edge("[18446744073709551616,0]"), None);
    assert_eq!(parse_edge("[0,99999999999999999999]"), None);
    assert_eq!(parse_edge("[0,00000000000000000000000018446744073709551615]"), Some((0, u64::MAX)));
}

#[test]
fn bytes_are_read_like_text() {
    assert_eq!(parse_edge_bytes(b"[3,4]"), Some((3, 4)));
    assert_eq!(parse_edge_bytes(&[0xff, b',', b'1']), None);
}

#[test]
fn text_splits_at_every_line_feed() {
    assert_eq!(split_lines("[1,2]\n[2,3]"), vec![b"[1,2]".to_vec(), b"[2,3]".to_vec()]);
    assert_eq!(split_lines("a\n"), vec![b"a".to_vec(), Vec::new()]);
    assert_eq!(split_lines(""), vec![Vec::<u8>::new()]);
    assert_eq!(split_lines("\n\n"), vec![Vec::<u8>::new(), Vec::new(), Vec::new()]);
    assert_eq!(split_lines("no line feed"), vec![b"no line feed".to_vec()]);
}

#[test]
fn edge_list_is_read_line_by_line() {
    assert_eq!(parse_edges("[1,2]\n[2,3]"), Some(vec![(1, 2), (2, 3)]));
    assert_eq!(parse_edges("[1,2]"), Some(vec![(1, 2)]));
}

#[test]
fn one_bad_line_spoils_the_list() {
    assert_eq!(parse_edges("[1,2]\n[2,3]\n"), None);
    assert_eq!(parse_edges("[1,2]\n\n[2,3]"), None);
    assert_eq!(parse_edges("[1,2]\n[2,x]"), None);
    assert_eq!(parse_edges(""), None);
}

#[test]
fn text_runs_through_to_a_dominating_set() {
    let edges = parse_edges("[1,2]\n[2,3]\n[3,4]\n[4,5]").unwrap();
    assert_eq!(dominating_set(&edges), Ok(vec![2, 5]));
}
