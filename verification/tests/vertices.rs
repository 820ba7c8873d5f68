use go_webui::coords::{from_vertex, to_vertex};

#[test]
fn converts_corners_19() {
    assert_eq!(to_vertex(0, 0, 19), "A19");
    assert_eq!(to_vertex(18, 18, 19), "T1");
    assert_eq!(to_vertex(8, 3, 19), "J16");
}

#[test]
fn roundtrips_full_board() {
    for x in 0..19 {
        for y in 0..19 {
            let v = to_vertex(x, y, 19);
            assert_eq!(from_vertex(&v, 19), Some((x, y)));
        }
    }
}

#[test]
fn parses_lowercase() {
    assert_eq!(from_vertex("q16", 19), from_vertex("Q16", 19));
}

#[test]
fn rejects_out_of_range_or_malformed() {
    assert_eq!(from_vertex("Z1", 19), None);
    assert_eq!(from_vertex("A20", 19), None);
    assert_eq!(from_vertex("A0", 19), None);
    assert_eq!(from_vertex("", 19), None);
    assert_eq!(from_vertex("pass", 19), None);
}

// Tests of this library's own.

#[test]
fn small_board_rows_count_from_the_bottom() {
    assert_eq!(to_vertex(0, 0, 9), "A9");
    assert_eq!(to_vertex(8, 8, 9), "J1");
    assert_eq!(from_vertex("J1", 9), Some((8, 8)));
    assert_eq!(from_vertex("E5", 9), Some((4, 4)));
}

#[test]
fn vertex_text_is_trimmed_and_signed_rows_follow_str_parse() {
    assert_eq!(from_vertex("  d4 \n", 19), Some((3, 15)));
    assert_eq!(from_vertex("D+4", 19), Some((3, 15)));
    assert_eq!(from_vertex("D-4", 19), None);
    assert_eq!(from_vertex("D4x", 19), None);
    assert_eq!(from_vertex("I5", 19), None);
    assert_eq!(from_vertex("K1", 9), None);
    assert_eq!(from_vertex("D99999999999999999999999", 19), None);
}
