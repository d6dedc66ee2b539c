use shortest_paths::graph::{GraphError, Neighbor};
use shortest_paths::test_case::{render, InputError, TestCase};
use shortest_paths::text::{
    chars_of, is_space_char, parse_i32, parse_u16, push_decimal, split_fields,
};

fn lines(text: &str) -> Vec<String> {
    text.lines().map(String::from).collect()
}

fn word(s: &str) -> Vec<char> {
    s.chars().collect()
}

#[test]
fn fields_are_split_at_white_space() {
    assert_eq!(
        split_fields("  4 3\t10   0 "),
        vec![word("4"), word("3"), word("10"), word("0")]
    );
    assert_eq!(split_fields(""), Vec::<Vec<char>>::new());
    assert_eq!(split_fields(" \t "), Vec::<Vec<char>>::new());
    assert_eq!(split_fields("abc"), vec![word("abc")]);
    assert_eq!(
        split_fields("a\u{00A0}b\u{2003}c\u{3000}d"),
        vec![word("a"), word("b"), word("c"), word("d")]
    );
    assert_eq!(split_fields("a\u{200B}b"), vec![word("a\u{200B}b")]);
}

#[test]
fn fields_agree_with_the_standard_split() {
    for text in ["1 2 3", "  x\ty\r\nz ", "\u{0085}q\u{1680}r", "no-space", " lead", "trail "] {
        let expected: Vec<Vec<char>> = text.split_whitespace().map(word).collect();
        assert_eq!(split_fields(text), expected);
    }
}

#[test]
fn chars_of_gives_every_character() {
    assert_eq!(chars_of("a\u{e9}z"), vec!['a', '\u{e9}', 'z']);
    assert_eq!(chars_of(""), Vec::<char>::new());
}

#[test]
fn u16_is_read_as_the_standard_library_reads_it() {
    for text in [
        "0", "7", "007", "65535", "65536", "+5", "+", "", "-0", "-1", "12a", " 5", "5 ", "99999999999999999999",
        "++5", "0x10",
    ] {
        assert_eq!(parse_u16(&word(text)), text.parse::<u16>().ok(), "{:?}", text);
    }
    assert_eq!(parse_u16(&word("65535")), Some(65535));
    assert_eq!(parse_u16(&word("+42")), Some(42));
    assert_eq!(parse_u16(&word("65536")), None);
    assert_eq!(parse_u16(&word("-0")), None);
}

#[test]
fn i32_is_read_as_the_standard_library_reads_it() {
    for text in [
        "0", "-0", "+0", "17", "-17", "2147483647", "2147483648", "-2147483648", "-2147483649", "-",
        "+", "", "--1", "+-1", "1-", "00012", "-00012", "4294967296",
    ] {
        assert_eq!(parse_i32(&word(text)), text.parse::<i32>().ok(), "{:?}", text);
    }
    assert_eq!(parse_i32(&word("-2147483648")), Some(i32::MIN));
    assert_eq!(parse_i32(&word("2147483647")), Some(i32::MAX));
    assert_eq!(parse_i32(&word("2147483648")), None);
}

#[test]
fn distances_are_written_in_decimal() {
    for n in [0u32, 7, 9, 10, 11, 99, 100, 4711, 65535, 4294836225, u32::MAX] {
        let mut out = String::from("d=");
        push_decimal(&mut out, n);
        assert_eq!(out, format!("d={}", n));
    }
}

#[test]
fn answers_are_written_one_per_line() {
    assert_eq!(render(&vec![]), "");
    assert_eq!(
        render(&vec![Some(0), None, Some(120), Some(7)]),
        "0\nImpossible\n120\n7\n"
    );
}

const SAMPLE: &str = "4 3 4 0\n0 1 2\n1 2 2\n3 0 2\n0\n1\n2\n3\n2 1 1 1\n1 0 9\n0\n0 0 0 0\n";

#[test]
fn a_test_case_is_read_from_its_lines() {
    let input = lines(SAMPLE);
    let (case, next) = TestCase::from_lines(&input, 0).unwrap().unwrap();
    assert_eq!(next, 8);
    assert_eq!(case.start_node, 0);
    assert_eq!(case.queries, vec![0, 1, 2, 3]);
    assert_eq!(case.graph.num_nodes(), 4);
    assert_eq!(case.graph.neighbors(0), Ok(&vec![Neighbor { node: 1, weight: 2 }]));
    assert_eq!(case.graph.neighbors(1), Ok(&vec![Neighbor { node: 2, weight: 2 }]));
    assert!(case.graph.neighbors(2).unwrap().is_empty());
    assert_eq!(case.graph.neighbors(3), Ok(&vec![Neighbor { node: 0, weight: 2 }]));

    let (second, next) = TestCase::from_lines(&input, next).unwrap().unwrap();
    assert_eq!(next, 11);
    assert_eq!(second.start_node, 1);
    assert_eq!(second.queries, vec![0]);
    assert_eq!(second.graph.num_nodes(), 2);

    assert!(TestCase::from_lines(&input, next).unwrap().is_none());
    assert!(TestCase::from_lines(&input, 12).unwrap().is_none());
    assert!(TestCase::from_lines(&input, 500).unwrap().is_none());
}

#[test]
fn the_answers_are_written_in_the_order_of_the_queries() {
    let input = lines(SAMPLE);
    let (case, next) = TestCase::from_lines(&input, 0).unwrap().unwrap();
    assert_eq!(case.solve(), Ok(vec![Some(0), Some(2), Some(4), None]));
    assert_eq!(case.output_format(), Ok(String::from("0\n2\n4\nImpossible\n")));
    let (second, _) = TestCase::from_lines(&input, next).unwrap().unwrap();
    assert_eq!(second.output_format(), Ok(String::from("9\n")));
}

#[test]
fn new_keeps_its_parts() {
    let input = lines("2 1 0 1\n0 1 5\n");
    let (case, _) = TestCase::from_lines(&input, 0).unwrap().unwrap();
    let case = TestCase::new(case.graph, 0, vec![1, 0, 1]);
    assert_eq!(case.start_node, 0);
    assert_eq!(case.queries, vec![1, 0, 1]);
    assert_eq!(case.output_format(), Ok(String::from("5\n0\n5\n")));
}

#[test]
fn input_that_ends_early_gives_no_test_case() {
    assert!(TestCase::from_lines(&lines(""), 0).unwrap().is_none());
    assert!(TestCase::from_lines(&lines("3 1 1"), 0).unwrap().is_none());
    assert!(TestCase::from_lines(&lines("3 1 1 0\n"), 0).unwrap().is_none());
    assert!(TestCase::from_lines(&lines("3 1 1 0\n0 1\n2\n"), 0).unwrap().is_none());
    assert!(TestCase::from_lines(&lines("3 1 2 0\n0 1 5\n2\n"), 0).unwrap().is_none());
}

#[test]
fn a_field_that_is_no_number_is_an_error() {
    for text in [
        "x 1 1 0\n",
        "3 x 1 0\n",
        "3 1 x 0\n",
        "3 1 1 x\n",
        "3 1 1 0\n0 y 5\n1\n",
        "3 1 1 0\n0 1 -5\n1\n",
        "3 1 1 0\n0 1 5\n 1\n",
        "3 1 1 0\n0 1 5\n1 \n",
        "3 1 1 0\n0 1 5\n\n",
        "70000 0 0 0\n",
    ] {
        assert_eq!(
            TestCase::from_lines(&lines(text), 0).err(),
            Some(InputError::InvalidNumber),
            "{:?}",
            text
        );
    }
}

#[test]
fn the_first_fault_in_reading_order_decides() {
    // The bad number stands before the missing field.
    assert_eq!(
        TestCase::from_lines(&lines("x 1\n"), 0).err(),
        Some(InputError::InvalidNumber)
    );
    // The missing field stands before the bad number.
    assert!(TestCase::from_lines(&lines("3 1 1 0\n0 1\nx\n"), 0).unwrap().is_none());
    // The edges are checked before the queries are read.
    assert_eq!(
        TestCase::from_lines(&lines("3 1 1 0\n0 3 1\n"), 0).err(),
        Some(InputError::InvalidNodeIndex)
    );
}

#[test]
fn an_edge_to_a_missing_node_is_an_error() {
    assert_eq!(
        TestCase::from_lines(&lines("3 1 1 0\n0 3 5\n1\n"), 0).err(),
        Some(InputError::InvalidNodeIndex)
    );
    assert_eq!(
        TestCase::from_lines(&lines("3 1 1 0\n3 0 5\n1\n"), 0).err(),
        Some(InputError::InvalidNodeIndex)
    );
}

#[test]
fn negative_counts_read_as_none() {
    let (case, next) = TestCase::from_lines(&lines("2 -1 -7 1\n"), 0).unwrap().unwrap();
    assert_eq!(next, 1);
    assert_eq!(case.graph.num_nodes(), 2);
    assert!(case.queries.is_empty());
    assert_eq!(case.output_format(), Ok(String::new()));
}

#[test]
fn extra_fields_are_ignored() {
    let (case, next) = TestCase::from_lines(&lines("2 1 1 0 junk\n0 1 5 junk\n1\n"), 0)
        .unwrap()
        .unwrap();
    assert_eq!(next, 3);
    assert_eq!(case.output_format(), Ok(String::from("5\n")));
}

#[test]
fn a_query_out_of_range_fails_the_whole_batch() {
    let (case, _) = TestCase::from_lines(&lines("2 1 2 0\n0 1 5\n1\n2\n"), 0)
        .unwrap()
        .unwrap();
    assert_eq!(case.solve(), Err(GraphError::InvalidNodeIndex));
    assert_eq!(case.output_format(), Err(GraphError::InvalidNodeIndex));
    let (case, _) = TestCase::from_lines(&lines("2 1 1 2\n0 1 5\n1\n"), 0)
        .unwrap()
        .unwrap();
    assert_eq!(case.output_format(), Err(GraphError::InvalidNodeIndex));
    // Nothing asked, nothing wrong.
    let (case, _) = TestCase::from_lines(&lines("2 1 0 2\n0 1 5\n"), 0)
        .unwrap()
        .unwrap();
    assert_eq!(case.output_format(), Ok(String::new()));
}

#[test]
fn a_graph_is_shown_node_by_node() {
    let input = lines(SAMPLE);
    let (case, _) = TestCase::from_lines(&input, 0).unwrap().unwrap();
    assert_eq!(
        case.graph.to_text(),
        "Graph with 4 nodes:\n  Node 0: 1 (weight: 2)\n  Node 1: 2 (weight: 2)\n  Node 3: 0 (weight: 2)\n"
    );
    let (case, _) = TestCase::from_lines(&lines("3 3 0 0\n1 0 5\n1 2 6\n1 1 70\n"), 0)
        .unwrap()
        .unwrap();
    assert_eq!(
        case.graph.to_text(),
        "Graph with 3 nodes:\n  Node 1: 0 (weight: 5), 2 (weight: 6), 1 (weight: 70)\n"
    );
    let (case, _) = TestCase::from_lines(&lines("12 0 0 0\n"), 0).unwrap().unwrap();
    assert_eq!(case.graph.to_text(), "Graph with 12 nodes:\n");
}

#[test]
fn a_test_case_is_shown_with_its_start_and_queries() {
    let input = lines(SAMPLE);
    let (case, next) = TestCase::from_lines(&input, 0).unwrap().unwrap();
    assert_eq!(
        case.to_text(),
        format!(
            "Test Case:\n{}  Start node: 0\n  Queries: {:?}\n",
            case.graph.to_text(),
            vec![0u16, 1, 2, 3]
        )
    );
    let (second, _) = TestCase::from_lines(&input, next).unwrap().unwrap();
    assert_eq!(
        second.to_text(),
        "Test Case:\nGraph with 2 nodes:\n  Node 1: 0 (weight: 9)\n  Start node: 1\n  Queries: [0]\n"
    );
    let (none, _) = TestCase::from_lines(&lines("1 0 0 0\n"), 0).unwrap().unwrap();
    assert_eq!(
        none.to_text(),
        "Test Case:\nGraph with 1 nodes:\n  Start node: 0\n  Queries: []\n"
    );
}

#[test]
fn white_space_is_what_the_standard_library_takes_for_it() {
    for code in 0..=0x10FFFFu32 {
        if let Some(c) = char::from_u32(code) {
            assert_eq!(is_space_char(c), c.is_whitespace(), "{:#x}", code);
        }
    }
}

#[test]
fn input_errors_say_what_went_wrong() {
    assert_eq!(InputError::InvalidNumber.message(), "invalid number");
    assert_eq!(InputError::InvalidNodeIndex.message(), "invalid node index");
}
