use kak_tree::kakoune::{
    are_encodable, buffer_of, is_encodable, kak_coords_to_byte_and_point, parse_selections_desc,
    point_in_codepoints, point_to_kak_coords, range_in_codepoints, ranges_to_selections_desc,
    select_ranges, selection_desc_to_range, selections_desc_to_ranges, END_OF_LINE,
};
use kak_tree::range::{Point, Range};

fn two_functions() -> Vec<String> {
    buffer_of("fn a() {}\nfn b() {}\n")
}

fn span(start_byte: usize, end_byte: usize, start: (usize, usize), end: (usize, usize)) -> Range {
    Range::new(start_byte, end_byte, Point::new(start.0, start.1), Point::new(end.0, end.1))
}

#[test]
fn buffer_keeps_line_ends_and_adds_a_last_line() {
    assert_eq!(two_functions(), vec!["fn a() {}\n", "fn b() {}\n", "\n"]);
    assert_eq!(buffer_of("a\nb"), vec!["a\n", "b\n"]);
    assert_eq!(buffer_of(""), vec!["\n"]);
    assert_eq!(buffer_of("\n\n"), vec!["\n", "\n", "\n"]);
    assert_eq!(buffer_of("héllo\r\nx"), vec!["héllo\r\n", "x\n"]);
}

#[test]
fn coordinates_name_byte_and_position() {
    let buffer = two_functions();
    assert_eq!(kak_coords_to_byte_and_point(&buffer, "1.1"), Some((0, Point::new(0, 0))));
    assert_eq!(kak_coords_to_byte_and_point(&buffer, "1.10"), Some((9, Point::new(0, 9))));
    assert_eq!(kak_coords_to_byte_and_point(&buffer, "2.4"), Some((13, Point::new(1, 3))));
    assert_eq!(kak_coords_to_byte_and_point(&buffer, "3.1"), Some((20, Point::new(2, 0))));
    assert_eq!(kak_coords_to_byte_and_point(&buffer, "002.04"), Some((13, Point::new(1, 3))));
}

#[test]
fn coordinates_outside_the_buffer_are_refused() {
    let buffer = two_functions();
    assert_eq!(kak_coords_to_byte_and_point(&buffer, "0.1"), None);
    assert_eq!(kak_coords_to_byte_and_point(&buffer, "1.0"), None);
    assert_eq!(kak_coords_to_byte_and_point(&buffer, "4.1"), None);
    assert_eq!(kak_coords_to_byte_and_point(&buffer, "1.11"), None);
    assert_eq!(kak_coords_to_byte_and_point(&buffer, "3.2"), None);
    assert_eq!(
        kak_coords_to_byte_and_point(&buffer, "99999999999999999999999999.1"),
        None
    );
}

#[test]
fn malformed_coordinates_are_refused() {
    let buffer = two_functions();
    for coords in ["", "1", "1.", ".1", "1.1.1", "a.1", "1.b", "+1.1", "-1.1", "1,1", "1 .1", "١.1"] {
        assert_eq!(kak_coords_to_byte_and_point(&buffer, coords), None, "{}", coords);
    }
}

#[test]
fn column_counts_codepoints_not_bytes() {
    let buffer = buffer_of("a€b\n");
    assert_eq!(kak_coords_to_byte_and_point(&buffer, "1.1"), Some((0, Point::new(0, 0))));
    assert_eq!(kak_coords_to_byte_and_point(&buffer, "1.2"), Some((1, Point::new(0, 1))));
    assert_eq!(kak_coords_to_byte_and_point(&buffer, "1.3"), Some((4, Point::new(0, 2))));
    assert_eq!(kak_coords_to_byte_and_point(&buffer, "1.4"), Some((5, Point::new(0, 3))));
    assert_eq!(kak_coords_to_byte_and_point(&buffer, "1.5"), None);
}

#[test]
fn bytes_of_all_widths_are_counted() {
    let buffer = buffer_of("é\n€\n𝄞x\n");
    assert_eq!(kak_coords_to_byte_and_point(&buffer, "2.1"), Some((3, Point::new(1, 0))));
    assert_eq!(kak_coords_to_byte_and_point(&buffer, "3.1"), Some((7, Point::new(2, 0))));
    assert_eq!(kak_coords_to_byte_and_point(&buffer, "3.2"), Some((11, Point::new(2, 1))));
    assert_eq!(kak_coords_to_byte_and_point(&buffer, "3.3"), Some((12, Point::new(2, 2))));
}

#[test]
fn selection_names_a_range() {
    let buffer = two_functions();
    assert_eq!(
        selection_desc_to_range(&buffer, "1.1,1.9"),
        Some(span(0, 8, (0, 0), (0, 8)))
    );
    assert_eq!(
        selection_desc_to_range(&buffer, "1.4,2.2"),
        Some(span(3, 11, (0, 3), (1, 1)))
    );
}

#[test]
fn reversed_selection_changes_its_ends() {
    let buffer = two_functions();
    assert_eq!(
        selection_desc_to_range(&buffer, "2.2,1.4"),
        Some(span(3, 11, (0, 3), (1, 1)))
    );
    assert_eq!(
        selection_desc_to_range(&buffer, "1.9,1.1"),
        selection_desc_to_range(&buffer, "1.1,1.9")
    );
}

#[test]
fn malformed_selection_is_refused() {
    let buffer = two_functions();
    for desc in ["", "1.1", "1.1,", ",1.1", "1.1;1.1", "1.1,1.1,1.1", "1.1,9.9", "1.1,1.x"] {
        assert_eq!(selection_desc_to_range(&buffer, desc), None, "{}", desc);
    }
}

#[test]
fn descriptor_is_read_word_by_word() {
    let buffer = two_functions();
    let expected = vec![span(0, 0, (0, 0), (0, 0)), span(10, 18, (1, 0), (1, 8))];
    assert_eq!(parse_selections_desc(&buffer, "1.1,1.1 2.1,2.9"), Some(expected.clone()));
    assert_eq!(
        parse_selections_desc(&buffer, "  1.1,1.1\t\n 2.9,2.1 \u{2003}"),
        Some(expected.clone())
    );
    assert_eq!(selections_desc_to_ranges(&buffer, "1.1,1.1 2.1,2.9"), expected);
    assert_eq!(parse_selections_desc(&buffer, ""), Some(vec![]));
    assert_eq!(parse_selections_desc(&buffer, " \t "), Some(vec![]));
}

#[test]
fn descriptor_with_one_bad_word_is_refused() {
    let buffer = two_functions();
    assert_eq!(parse_selections_desc(&buffer, "1.1,1.1 2.1"), None);
    assert_eq!(parse_selections_desc(&buffer, "x 1.1,1.1"), None);
    assert_eq!(parse_selections_desc(&buffer, "1.1,1.1 4.1,4.1"), None);
}

#[test]
fn position_is_written_from_one() {
    let buffer = two_functions();
    assert_eq!(point_to_kak_coords(&buffer, Point::new(0, 0)), "1.1");
    assert_eq!(point_to_kak_coords(&buffer, Point::new(1, 8)), "2.9");
    assert_eq!(point_to_kak_coords(&buffer, Point::new(1, 9)), "2.10");
    assert_eq!(point_to_kak_coords(&buffer, Point::new(2, 0)), "3.1");
}

#[test]
fn column_behind_the_line_is_the_end_of_the_line() {
    let buffer = two_functions();
    assert_eq!(point_to_kak_coords(&buffer, Point::new(0, 10)), "1.11");
    assert_eq!(point_to_kak_coords(&buffer, Point::new(0, 11)), "1.11");
    assert_eq!(point_to_kak_coords(&buffer, Point::new(0, END_OF_LINE)), "1.11");
    assert_eq!(point_to_kak_coords(&buffer, Point::new(2, END_OF_LINE)), "3.2");
    assert_eq!(END_OF_LINE, 1_000_000);
}

#[test]
fn position_in_a_line_of_wide_codepoints() {
    let buffer = buffer_of("a€b\n");
    assert_eq!(point_to_kak_coords(&buffer, Point::new(0, 2)), "1.3");
    assert_eq!(point_to_kak_coords(&buffer, Point::new(0, 3)), "1.4");
    assert_eq!(point_to_kak_coords(&buffer, Point::new(0, 4)), "1.5");
    assert_eq!(point_to_kak_coords(&buffer, Point::new(0, 6)), "1.5");
}

#[test]
fn range_is_written_up_to_its_last_codepoint() {
    let buffer = two_functions();
    assert_eq!(
        ranges_to_selections_desc(&buffer, &[span(10, 19, (1, 0), (1, 9))]),
        "2.1,2.9"
    );
    assert_eq!(
        ranges_to_selections_desc(&buffer, &[span(0, 1, (0, 0), (0, 1))]),
        "1.1,1.1"
    );
}

#[test]
fn range_that_ends_at_a_line_start_holds_the_line_before() {
    let buffer = two_functions();
    assert_eq!(
        ranges_to_selections_desc(&buffer, &[span(0, 20, (0, 0), (2, 0))]),
        "1.1,2.11"
    );
    assert_eq!(
        ranges_to_selections_desc(&buffer, &[span(0, 10, (0, 0), (1, 0))]),
        "1.1,1.11"
    );
}

#[test]
fn ranges_are_joined_by_single_spaces() {
    let buffer = two_functions();
    let ranges = [
        span(0, 9, (0, 0), (0, 9)),
        span(10, 19, (1, 0), (1, 9)),
        span(3, 4, (0, 3), (0, 4)),
    ];
    assert_eq!(
        ranges_to_selections_desc(&buffer, &ranges),
        "1.1,1.9 2.1,2.9 1.4,1.4"
    );
    assert_eq!(ranges_to_selections_desc(&buffer, &[]), "");
}

#[test]
fn select_ranges_names_the_selections() {
    let buffer = two_functions();
    assert_eq!(
        select_ranges(&buffer, &[span(0, 9, (0, 0), (0, 9)), span(10, 19, (1, 0), (1, 9))]),
        "select 1.1,1.9 2.1,2.9"
    );
}

#[test]
fn select_ranges_of_nothing_fails() {
    let buffer = two_functions();
    assert_eq!(select_ranges(&buffer, &[]), "fail no selections remaining");
}

#[test]
fn ranges_outside_the_buffer_cannot_be_written() {
    let buffer = two_functions();
    assert!(is_encodable(&buffer, &span(0, 9, (0, 0), (0, 9))));
    assert!(is_encodable(&buffer, &span(0, 20, (0, 0), (2, 0))));
    assert!(is_encodable(&buffer, &span(0, 21, (0, 0), (3, 0))));
    assert!(!is_encodable(&buffer, &span(0, 0, (0, 0), (0, 0))));
    assert!(!is_encodable(&buffer, &span(0, 30, (0, 0), (3, 1))));
    assert!(!is_encodable(&buffer, &span(30, 31, (3, 0), (3, 1))));
    assert!(!is_encodable(&buffer, &span(0, 30, (0, 0), (4, 0))));
    assert!(are_encodable(&buffer, &[]));
    assert!(are_encodable(&buffer, &[span(0, 9, (0, 0), (0, 9)), span(0, 20, (0, 0), (2, 0))]));
    assert!(!are_encodable(&buffer, &[span(0, 9, (0, 0), (0, 9)), span(0, 0, (0, 0), (0, 0))]));
}

#[test]
fn writing_what_was_read_gives_the_descriptor_back() {
    let buffer = buffer_of("fn a() {}\nlet s = \"€uro\";\n");
    for desc in ["1.1,1.1", "1.1,1.9 2.1,2.3", "2.10,2.12 1.4,2.15 2.16,3.1", ""] {
        let ranges: Vec<Range> = selections_desc_to_ranges(&buffer, desc)
            .into_iter()
            .map(|r| {
                Range::new(
                    r.start_byte,
                    r.end_byte,
                    r.start_point,
                    Point::new(r.end_point.row, r.end_point.column + 1),
                )
            })
            .collect();
        assert_eq!(ranges_to_selections_desc(&buffer, &ranges), desc);
    }
}

#[test]
fn byte_columns_become_codepoint_columns() {
    let buffer = buffer_of("a€b\nplain\n");
    assert_eq!(point_in_codepoints(&buffer, Point::new(0, 0)), Point::new(0, 0));
    assert_eq!(point_in_codepoints(&buffer, Point::new(0, 1)), Point::new(0, 1));
    assert_eq!(point_in_codepoints(&buffer, Point::new(0, 2)), Point::new(0, 1));
    assert_eq!(point_in_codepoints(&buffer, Point::new(0, 4)), Point::new(0, 2));
    assert_eq!(point_in_codepoints(&buffer, Point::new(0, 5)), Point::new(0, 3));
    assert_eq!(point_in_codepoints(&buffer, Point::new(0, 6)), Point::new(0, 4));
    assert_eq!(point_in_codepoints(&buffer, Point::new(0, 60)), Point::new(0, 4));
    assert_eq!(point_in_codepoints(&buffer, Point::new(1, 3)), Point::new(1, 3));
    assert_eq!(point_in_codepoints(&buffer, Point::new(1, 9)), Point::new(1, 6));
    assert_eq!(point_in_codepoints(&buffer, Point::new(7, 9)), Point::new(7, 9));
    assert_eq!(
        range_in_codepoints(&buffer, span(4, 8, (0, 4), (1, 2))),
        span(4, 8, (0, 2), (1, 2))
    );
}
