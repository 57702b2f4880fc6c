use hnu_algo::algorithms::dfs::sfd::max_sfd_size;
use hnu_algo::dataset::dfs::{parse_separator_free_dictionary, parse_vertex_cover};

#[test]
fn sfd_text_with_expected_size() {
    assert_eq!(parse_separator_free_dictionary("3 2\n4\n"), Some((3, 2, 4)));
    assert_eq!(parse_separator_free_dictionary("  3   2 extra \n\n  +4 \n"), Some((3, 2, 4)));
}

#[test]
fn sfd_text_without_expected_size_is_searched() {
    assert_eq!(parse_separator_free_dictionary("2 3\n"), Some((2, 3, max_sfd_size(2, 3))));
    assert_eq!(parse_separator_free_dictionary("0 3\n"), Some((0, 3, 0)));
}

#[test]
fn sfd_text_malformed() {
    assert_eq!(parse_separator_free_dictionary(""), None);
    assert_eq!(parse_separator_free_dictionary("3\n"), None);
    assert_eq!(parse_separator_free_dictionary("x 2\n"), None);
    assert_eq!(parse_separator_free_dictionary("3 2\n4 5\n"), None);
    // Too many words to search.
    assert_eq!(parse_separator_free_dictionary("100 100\n"), None);
}

#[test]
fn vertex_cover_text_with_expected_weight() {
    let (g, exp) = parse_vertex_cover("3 2\n1 2\n2 3\n5 1 5\n7\n").unwrap();
    assert_eq!(exp, 7);
    let sol = g.min_weight_vertex_cover_branch_bound();
    assert_eq!(sol.vertices, vec![1]);
    assert_eq!(sol.total_weight, 1);
}

#[test]
fn vertex_cover_text_without_expected_weight_is_solved() {
    let (_, exp) = parse_vertex_cover("3 2\n1 2\n2 3\n5 1 5\n").unwrap();
    assert_eq!(exp, 1);
    let (_, exp) = parse_vertex_cover("2 1\n1 2\n4 3\n").unwrap();
    assert_eq!(exp, 3);
}

#[test]
fn vertex_cover_text_malformed() {
    assert_eq!(parse_vertex_cover("2 1\n1 3\n1 1\n").is_none(), true);
    assert_eq!(parse_vertex_cover("2 1\n1 2\n1\n").is_none(), true);
    assert_eq!(parse_vertex_cover("2 1\n1 2\n").is_none(), true);
    assert_eq!(parse_vertex_cover("2 1\n1 2\n1 18446744073709551616\n").is_none(), true);
    assert_eq!(parse_vertex_cover("2 1\n0 2\n1 1\n").is_none(), true);
}
