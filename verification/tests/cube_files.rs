use lut_rs::cube::{parse_cube_file, CubeFileError};

fn identity_rows() -> &'static str {
    "0 0 0\n1 0 0\n0 1 0\n1 1 0\n0 0 1\n1 0 1\n0 1 1\n1 1 1\n"
}

#[test]
fn parses_a_cube_of_edge_two() {
    let text = format!("LUT_3D_SIZE 2\n{}", identity_rows());
    let (table, size) = parse_cube_file(&text).unwrap();
    assert_eq!(size, 2);
    assert_eq!(
        table,
        vec![
            [0, 0, 0],
            [255, 0, 0],
            [0, 255, 0],
            [255, 255, 0],
            [0, 0, 255],
            [255, 0, 255],
            [0, 255, 255],
            [255, 255, 255],
        ]
    );
}

#[test]
fn seven_rows_do_not_fill_a_cube_of_edge_two() {
    let text = "LUT_3D_SIZE 2\n0 0 0\n1 0 0\n0 1 0\n1 1 0\n0 0 1\n1 0 1\n0 1 1\n";
    assert_eq!(parse_cube_file(text), Err(CubeFileError::SizeMismatch));
}

#[test]
fn nine_rows_overfill_a_cube_of_edge_two() {
    let text = format!("LUT_3D_SIZE 2\n{}0.5 0.5 0.5\n", identity_rows());
    assert_eq!(parse_cube_file(&text), Err(CubeFileError::SizeMismatch));
}

#[test]
fn rows_without_a_size_are_rejected() {
    assert_eq!(
        parse_cube_file(identity_rows()),
        Err(CubeFileError::MissingSizeDirective)
    );
}

#[test]
fn an_empty_file_has_no_size() {
    assert_eq!(parse_cube_file(""), Err(CubeFileError::MissingSizeDirective));
    assert_eq!(parse_cube_file("\n\n"), Err(CubeFileError::MissingSizeDirective));
}

#[test]
fn comments_and_blank_lines_change_nothing() {
    let plain = format!("LUT_3D_SIZE 2\n{}", identity_rows());
    let noisy = "# a title\n\nLUT_3D_SIZE 2\n# rows follow\n0 0 0\n\n1 0 0\n   \n0 1 0\n#x\n1 1 0\n\
                 \t\n0 0 1\n1 0 1\n# almost there\n0 1 1\n1 1 1\n\n# done";
    assert_eq!(parse_cube_file(noisy), parse_cube_file(&plain));
    assert!(parse_cube_file(noisy).is_ok());
}

#[test]
fn a_comment_starts_in_the_first_column_only() {
    // An indented '#' is a token like any other: this line has three tokens,
    // and the first is not a number.
    let text = "LUT_3D_SIZE 1\n  # 0 0\n0 0 0\n";
    assert_eq!(
        parse_cube_file(text),
        Err(CubeFileError::MalformedNumber { line: 2, token: "#".to_string() })
    );
    // With a fourth token the line is passed over.
    let text = "LUT_3D_SIZE 1\n  # 0 0 0\n0 0 0\n";
    assert_eq!(parse_cube_file(text), Ok((vec![[0, 0, 0]], 1)));
}

#[test]
fn the_last_size_counts() {
    let text = format!("LUT_3D_SIZE 3\n{}LUT_3D_SIZE 2\n", identity_rows());
    let (table, size) = parse_cube_file(&text).unwrap();
    assert_eq!(size, 2);
    assert_eq!(table.len(), 8);
}

#[test]
fn lines_of_other_shapes_are_passed_over() {
    let text = "TITLE \"warm\"\nDOMAIN_MIN 0.0 0.0 0.0 0.0\nLUT_3D_SIZE 1\nLUT_3D_SIZE\n\
                LUT_1D_SIZE 4\n1 2 3 4\n0.5\n0.25 0.5 0.75\n";
    assert_eq!(parse_cube_file(text), Ok((vec![[64, 128, 191]], 1)));
}

#[test]
fn a_line_of_three_tokens_is_a_row_whatever_it_starts_with() {
    let text = "LUT_3D_SIZE 1\nDOMAIN_MIN 0.0 0.0\n0 0 0\n";
    assert_eq!(
        parse_cube_file(text),
        Err(CubeFileError::MalformedNumber { line: 2, token: "DOMAIN_MIN".to_string() })
    );
}

#[test]
fn a_malformed_size_is_reported_with_its_line() {
    let text = "# header\nLUT_3D_SIZE two\n";
    assert_eq!(
        parse_cube_file(text),
        Err(CubeFileError::MalformedNumber { line: 2, token: "two".to_string() })
    );
    let text = "LUT_3D_SIZE -2\n";
    assert_eq!(
        parse_cube_file(text),
        Err(CubeFileError::MalformedNumber { line: 1, token: "-2".to_string() })
    );
    let text = "LUT_3D_SIZE 2.0\n";
    assert_eq!(
        parse_cube_file(text),
        Err(CubeFileError::MalformedNumber { line: 1, token: "2.0".to_string() })
    );
}

#[test]
fn a_malformed_channel_is_reported_with_its_line() {
    let text = "LUT_3D_SIZE 1\n\n0.5 0.5x 0.5\n";
    assert_eq!(
        parse_cube_file(text),
        Err(CubeFileError::MalformedNumber { line: 3, token: "0.5x".to_string() })
    );
    let text = "LUT_3D_SIZE 1\n0.5 0.5 1,0";
    assert_eq!(
        parse_cube_file(text),
        Err(CubeFileError::MalformedNumber { line: 2, token: "1,0".to_string() })
    );
}

#[test]
fn the_first_malformed_number_wins() {
    let text = "0 0 zero\nLUT_3D_SIZE many\n";
    assert_eq!(
        parse_cube_file(text),
        Err(CubeFileError::MalformedNumber { line: 1, token: "zero".to_string() })
    );
    let text = "a b c\n";
    assert_eq!(
        parse_cube_file(text),
        Err(CubeFileError::MalformedNumber { line: 1, token: "a".to_string() })
    );
}

#[test]
fn a_malformed_number_fails_before_the_size_is_missed() {
    let text = "0 0 0\n0 0 nope\n";
    assert_eq!(
        parse_cube_file(text),
        Err(CubeFileError::MalformedNumber { line: 2, token: "nope".to_string() })
    );
}

#[test]
fn any_line_ending_and_any_whitespace_will_do() {
    let text = "LUT_3D_SIZE\t1\r\n \u{a0}0.0\u{2003}0.5   1.0\u{3000}\r\n";
    assert_eq!(parse_cube_file(text), Ok((vec![[0, 128, 255]], 1)));
}

#[test]
fn a_token_outside_ascii_is_reported_whole() {
    let text = "LUT_3D_SIZE 1\n0 0 \u{e9}t\u{e9}\n";
    assert_eq!(
        parse_cube_file(text),
        Err(CubeFileError::MalformedNumber { line: 2, token: "\u{e9}t\u{e9}".to_string() })
    );
}

#[test]
fn channels_are_scaled_rounded_and_clamped() {
    let text = "LUT_3D_SIZE 1\n0.5 0.002 1.5\n";
    assert_eq!(parse_cube_file(text), Ok((vec![[128, 1, 255]], 1)));
    let text = "LUT_3D_SIZE 1\n-0.5 0.0019 1e3\n";
    assert_eq!(parse_cube_file(text), Ok((vec![[0, 0, 255]], 1)));
}

#[test]
fn a_size_of_zero_goes_with_an_empty_table() {
    assert_eq!(parse_cube_file("LUT_3D_SIZE 0\n"), Ok((vec![], 0)));
    assert_eq!(
        parse_cube_file("LUT_3D_SIZE 0\n0 0 0\n"),
        Err(CubeFileError::SizeMismatch)
    );
}

#[test]
fn a_size_with_a_plus_sign_and_leading_zeros_is_read() {
    assert_eq!(parse_cube_file("LUT_3D_SIZE +001\n1 1 1\n"), Ok((vec![[255, 255, 255]], 1)));
}

#[test]
fn a_size_whose_cube_is_out_of_reach_is_a_mismatch() {
    assert_eq!(
        parse_cube_file("LUT_3D_SIZE 4294967296\n0 0 0\n"),
        Err(CubeFileError::SizeMismatch)
    );
}

#[test]
fn a_size_beyond_the_machine_is_malformed() {
    let text = "LUT_3D_SIZE 340282366920938463463374607431768211456\n";
    assert_eq!(
        parse_cube_file(text),
        Err(CubeFileError::MalformedNumber {
            line: 1,
            token: "340282366920938463463374607431768211456".to_string()
        })
    );
}

#[test]
fn a_larger_cube_keeps_the_order_of_its_rows() {
    let mut text = String::from("LUT_3D_SIZE 3\n");
    for blue in 0..3 {
        for green in 0..3 {
            for red in 0..3 {
                text.push_str(&format!("{}.0 {}.5 {}.0\n", red / 2, green / 2, blue / 2));
            }
        }
    }
    let (table, size) = parse_cube_file(&text).unwrap();
    assert_eq!(size, 3);
    assert_eq!(table.len(), 27);
    assert_eq!(table[0], [0, 128, 0]);
    assert_eq!(table[2], [255, 128, 0]);
    assert_eq!(table[2 + 2 * 3], [255, 255, 0]);
    assert_eq!(table[26], [255, 255, 255]);
}
