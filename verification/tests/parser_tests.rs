use gomoku::board::Board;
use gomoku::index_parser::{Index, IndexParser};

#[test]
fn test_parse_single_alpha_single_digit() {
    let board_size = 15;
    let test_cases = vec![
        ("a1", Index { row: 0, column: 0 }),
        ("A1", Index { row: 0, column: 0 }),
        ("b1", Index { row: 0, column: 1 }),
        ("B1", Index { row: 0, column: 1 }),
        ("a15", Index { row: 14, column: 0 }),
        ("b15", Index { row: 14, column: 1 }),
        ("B15", Index { row: 14, column: 1 }),
        ("b2", Index { row: 1, column: 1 }),
        ("B2", Index { row: 1, column: 1 }),
        (
            "o15",
            Index {
                row: 14,
                column: 14,
            },
        ),
        (
            "O15",
            Index {
                row: 14,
                column: 14,
            },
        ),
        ("1a", Index { row: 0, column: 0 }),
        ("1A", Index { row: 0, column: 0 }),
        ("2b", Index { row: 1, column: 1 }),
        ("2B", Index { row: 1, column: 1 }),
        (
            "15o",
            Index {
                row: 14,
                column: 14,
            },
        ),
        (
            "15O",
            Index {
                row: 14,
                column: 14,
            },
        ),
    ];

    for (input, expected) in test_cases {
        let mut parser = IndexParser::new(board_size, input);
        assert_eq!(parser.parse(), Some(expected));
    }
}

#[test]
fn test_parse_numeric_coordinates() {
    let board_size = 15;
    let test_cases = vec![
        ("1 1", Index { row: 0, column: 0 }),
        ("2 2", Index { row: 1, column: 1 }),
        (
            "15 15",
            Index {
                row: 14,
                column: 14,
            },
        ),
        ("8 8", Index { row: 7, column: 7 }),
    ];

    for (input, expected) in test_cases {
        let mut parser = IndexParser::new(board_size, input);
        assert_eq!(parser.parse(), Some(expected));
    }
}

#[test]
fn test_parse_single_digit() {
    let board_size = 15;
    let test_cases = vec![
        ("1", Index { row: 0, column: 0 }),
        ("15", Index { row: 0, column: 14 }),
        (
            "225",
            Index {
                row: 14,
                column: 14,
            },
        ),
    ];

    for (input, expected) in test_cases {
        let mut parser = IndexParser::new(board_size, input);
        assert_eq!(parser.parse(), Some(expected));
    }
}

#[test]
fn test_parse_with_extra_whitespace() {
    let board_size = 15;
    let test_cases = vec![
        ("  a1  ", Index { row: 0, column: 0 }),
        ("  1  1  ", Index { row: 0, column: 0 }),
        ("B2\t", Index { row: 1, column: 1 }),
        (
            "\t15\t15\t",
            Index {
                row: 14,
                column: 14,
            },
        ),
    ];

    for (input, expected) in test_cases {
        let mut parser = IndexParser::new(board_size, input);
        assert_eq!(parser.parse(), Some(expected));
    }
}

#[test]
fn test_parse_invalid_inputs() {
    let board_size = 15;
    let test_cases = vec![
        "",                  // Empty string
        " ",                 // Only whitespace
        "a",                 // Missing number
        "hello, world! 15a", // Invalid format
        "15 1 15",           // Invalid format
    ];

    for input in test_cases {
        let mut parser = IndexParser::new(board_size, input);
        assert_eq!(parser.parse(), None);
    }
}

#[test]
fn test_parse_edge_cases() {
    let board_size = 15;
    let test_cases = vec![
        ("a15", Index { row: 14, column: 0 }),  // Max row
        ("o1", Index { row: 0, column: 14 }),   // Max column
        ("O1", Index { row: 0, column: 14 }),   // Max column uppercase
        ("1 15", Index { row: 14, column: 0 }), // Max row numeric
        ("15 1", Index { row: 0, column: 14 }), // Max column numeric
    ];

    for (input, expected) in test_cases {
        let mut parser = IndexParser::new(board_size, input);
        assert_eq!(parser.parse(), Some(expected));
    }
}

#[test]
fn test_parse_rejects_zero_and_out_of_range() {
    for input in ["0", "b0", "0b", "16 1", "1 16", "p1", "226", "a16"] {
        let mut parser = IndexParser::new(15, input);
        assert_eq!(parser.parse(), None, "{input:?} should not parse");
    }
}

#[test]
fn test_parse_rejects_huge_numbers() {
    // values far beyond any machine integer must fail cleanly
    for input in ["99999999999999999999999999999999", "zzzzzzzzzzzzzzzzzzzzzz9"] {
        let mut parser = IndexParser::new(15, input);
        assert_eq!(parser.parse(), None);
    }
}

#[test]
fn test_index_validity() {
    assert!(Index { row: 14, column: 14 }.is_valid(15));
    assert!(!Index { row: 15, column: 0 }.is_valid(15));
    assert!(!Index { row: 0, column: 15 }.is_valid(15));
    assert_eq!(Index { row: 2, column: 3 }.to_index(15), 33);
}

#[test]
fn test_index_to_position_formats() {
    let board = Board::new(15);
    assert_eq!(board.index_to_position(0).unwrap(), "A1");
    assert_eq!(board.index_to_position(1).unwrap(), "B1");
    assert_eq!(board.index_to_position(14).unwrap(), "O1");
    assert_eq!(board.index_to_position(15).unwrap(), "A2");
    assert_eq!(board.index_to_position(224).unwrap(), "O15");
    assert_eq!(board.index_to_position(225), None);
}

#[test]
fn test_parse_format_round_trip() {
    // every cell index survives formatting and parsing back
    let board = Board::new(15);
    for i in 0..225 {
        let text = board.index_to_position(i).unwrap();
        assert_eq!(board.parse_index(&text), Some(i), "index {i} via {text:?}");
    }
}

#[test]
fn test_parse_index_linear() {
    let board = Board::new(15);
    assert_eq!(board.parse_index("a1"), Some(0));
    assert_eq!(board.parse_index("15 3"), Some(44));
    assert_eq!(board.parse_index("37"), Some(36));
    assert_eq!(board.parse_index("A 10"), Some(135));
    assert_eq!(board.parse_index("nonsense"), None);
}

#[test]
fn test_index_to_position_wide_board() {
    // columns beyond Z continue with a second letter, most significant first
    let board = Board::new(30);
    assert_eq!(board.index_to_position(25).unwrap(), "Z1");
    assert_eq!(board.index_to_position(26).unwrap(), "BA1");
    assert_eq!(board.index_to_position(29).unwrap(), "BD1");
    assert_eq!(board.index_to_position(30).unwrap(), "A2");
}

#[test]
fn test_parse_format_round_trip_wide_board() {
    // the round trip also holds when columns take more than one letter
    let board = Board::new(30);
    for i in 0..900 {
        let text = board.index_to_position(i).unwrap();
        assert_eq!(board.parse_index(&text), Some(i), "index {i} via {text:?}");
    }
}

#[test]
fn test_parse_unicode_whitespace() {
    // any Unicode white-space is skipped around and between tokens
    let test_cases = vec![
        ("\u{a0}a1\u{a0}", Index { row: 0, column: 0 }),
        ("\u{3000}15\u{2003}15\u{3000}", Index { row: 14, column: 14 }),
    ];
    for (input, expected) in test_cases {
        let mut parser = IndexParser::new(15, input);
        assert_eq!(parser.parse(), Some(expected));
    }
}
