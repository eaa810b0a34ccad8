use cave_validator::{find_dangerous_number, parse_numbers, parse_window_size};

fn by_std(text: &str) -> Option<Vec<u128>> {
    text.split_whitespace().map(|token| token.parse::<u128>().ok()).collect()
}

/// Every character of the basic plane, and one in seventeen of the others.
fn sample_characters() -> Vec<char> {
    let basic = 0..=0xffffu32;
    let others = (0x1_0000..=0x10_ffffu32).step_by(17);
    basic.chain(others).filter_map(char::from_u32).collect()
}

#[test]
fn numbers_one_per_line() {
    assert_eq!(parse_numbers("35\n20\n15\n25\n"), Some(vec![35, 20, 15, 25]));
}

#[test]
fn numbers_separated_by_any_white_space() {
    assert_eq!(parse_numbers("1 2\t3\r\n4  \n\n5"), Some(vec![1, 2, 3, 4, 5]));
    assert_eq!(parse_numbers("  \n 7 8 \n"), Some(vec![7, 8]));
    assert_eq!(parse_numbers("9"), Some(vec![9]));
    assert_eq!(parse_numbers("1\u{b}2\u{c}3"), Some(vec![1, 2, 3]));
}

#[test]
fn numbers_separated_by_white_space_beyond_ascii() {
    assert_eq!(
        parse_numbers("1\u{a0}2\u{2003}3\u{3000}4\u{85}5\u{1680}6\u{2028}7\u{2029}8\u{202f}9\u{205f}10"),
        Some(vec![1, 2, 3, 4, 5, 6, 7, 8, 9, 10])
    );
}

#[test]
fn text_without_tokens_holds_no_numbers() {
    assert_eq!(parse_numbers(""), Some(Vec::new()));
    assert_eq!(parse_numbers(" \n\t \r\n"), Some(Vec::new()));
}

#[test]
fn numbers_keep_the_order_of_the_text() {
    assert_eq!(parse_numbers("3 1 2 1 3"), Some(vec![3, 1, 2, 1, 3]));
}

#[test]
fn plus_sign_and_leading_zeros_are_read() {
    assert_eq!(parse_numbers("+7 007 +0 0"), Some(vec![7, 7, 0, 0]));
    let zeros = format!("{}1", "0".repeat(60));
    assert_eq!(parse_numbers(&zeros), Some(vec![1]));
}

#[test]
fn malformed_token_gives_nothing() {
    for text in [
        "x", "1 x 2", "12a", "a12", "-7", "++7", "+", "+-7", "7+", "1_000", "1.5", "0x10", "1e3",
        "1,2", "٣", "１２", "1\u{200b}2", "7 -", "1 2 3 four",
    ] {
        assert_eq!(parse_numbers(text), None, "{:?}", text);
    }
}

#[test]
fn largest_number_is_read_and_larger_ones_are_not() {
    assert_eq!(
        parse_numbers("340282366920938463463374607431768211455"),
        Some(vec![u128::MAX])
    );
    assert_eq!(parse_numbers("340282366920938463463374607431768211456"), None);
    assert_eq!(parse_numbers("340282366920938463463374607431768211460"), None);
    assert_eq!(parse_numbers("3402823669209384634633746074317682114550"), None);
    assert_eq!(parse_numbers(&"9".repeat(50)), None);
    assert_eq!(parse_numbers("1 340282366920938463463374607431768211456 2"), None);
}

#[test]
fn numbers_agree_with_std_on_sample_texts() {
    for text in [
        "",
        " ",
        "1",
        "1 2 3",
        "35\n20\n15\n",
        "\u{feff}1",
        "+1 +2",
        "1\u{a0}2",
        "1\u{180e}2",
        "1\u{200a}2",
        "1\u{200b}2",
        "1\u{2060}2",
        "00 01 002",
        "340282366920938463463374607431768211455 0",
        "340282366920938463463374607431768211456",
        "12 34x",
        "- 1",
        "٣ 4",
    ] {
        assert_eq!(parse_numbers(text), by_std(text), "{:?}", text);
    }
}

#[test]
fn every_character_separates_as_std_says() {
    for c in sample_characters() {
        let text = format!("1{}2", c);
        let expected = if c.is_whitespace() {
            Some(vec![1, 2])
        } else if c.is_ascii_digit() {
            Some(vec![100 + 10 * u128::from(c.to_digit(10).unwrap()) + 2])
        } else {
            None
        };
        assert_eq!(parse_numbers(&text), expected, "U+{:04X}", u32::from(c));
    }
}

#[test]
fn every_character_is_a_digit_as_std_says() {
    for c in sample_characters() {
        if c.is_whitespace() || c == '+' {
            continue;
        }
        let text = c.to_string();
        assert_eq!(parse_numbers(&text), by_std(&text), "U+{:04X}", u32::from(c));
    }
}

#[test]
fn window_size_is_read() {
    assert_eq!(parse_window_size("5"), Some(5));
    assert_eq!(parse_window_size("25"), Some(25));
    assert_eq!(parse_window_size("1"), Some(1));
    assert_eq!(parse_window_size("+12"), Some(12));
    assert_eq!(parse_window_size("0012"), Some(12));
}

#[test]
fn window_size_of_zero_gives_nothing() {
    for arg in ["0", "+0", "000", " 0\n"] {
        assert_eq!(parse_window_size(arg), None, "{:?}", arg);
    }
}

#[test]
fn window_size_may_stand_in_white_space() {
    assert_eq!(parse_window_size(" 5"), Some(5));
    assert_eq!(parse_window_size("5\n"), Some(5));
    assert_eq!(parse_window_size("\t 5 \r\n"), Some(5));
    assert_eq!(parse_window_size("\u{a0}5\u{3000}"), Some(5));
}

#[test]
fn window_size_that_is_no_number_gives_nothing() {
    for arg in ["", " ", "five", "5 5", "-1", "5.0", "+", "+ 5", "5k", "0x5", "\u{200b}5"] {
        assert_eq!(parse_window_size(arg), None, "{:?}", arg);
    }
}

#[test]
fn window_size_is_bounded_by_usize() {
    let largest = usize::MAX.to_string();
    assert_eq!(parse_window_size(&largest), Some(usize::MAX));
    let beyond = (usize::MAX as u128 + 1).to_string();
    assert_eq!(parse_window_size(&beyond), None);
    assert_eq!(parse_window_size("340282366920938463463374607431768211456"), None);
}

#[test]
fn window_size_agrees_with_std_on_sample_arguments() {
    for arg in [
        "", "5", " 5 ", "+5", "-5", "5 6", "\n5\n", "18446744073709551615", "18446744073709551616",
        "4294967295", "4294967296", "00", "a", "\u{2003}7\u{2003}", "\u{200b}7",
    ] {
        let expected = arg.trim().parse::<usize>().ok().filter(|size| *size >= 1);
        assert_eq!(parse_window_size(arg), expected, "{:?}", arg);
    }
}

#[test]
fn text_of_the_known_cave_is_scanned() {
    let text = "35\n20\n15\n25\n47\n40\n62\n55\n65\n95\n102\n117\n150\n182\n127\n219\n299\n277\n309\n576\n";
    let cave = parse_numbers(text).unwrap();
    let size = parse_window_size("5").unwrap();
    assert_eq!(cave.len(), 20);
    assert_eq!(find_dangerous_number(&cave, size), Some((14, 127)));
}
