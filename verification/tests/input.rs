use process_scheduling::input::{
    chars_of, get_process_from_user, is_exit_line, is_space_char, next_token, parse_decimal,
    select_algorithm, tokenize, InputError,
};
use process_scheduling::policy::Algorithm;
use process_scheduling::process::ProcessState;

#[test]
fn a_line_of_three_fields_is_a_process() {
    let p = get_process_from_user("editor 12 3\n".to_string()).unwrap();
    assert_eq!(p.name, "editor");
    assert_eq!(p.total_time, 12);
    assert_eq!(p.remain_time, 12);
    assert_eq!(p.entry_time, 3);
    assert_eq!(p.state, ProcessState::Waiting);
}

#[test]
fn fields_may_be_separated_by_any_white_space() {
    let p = get_process_from_user("  \tA\t 3   0 \r\n".to_string()).unwrap();
    assert_eq!(p.name, "A");
    assert_eq!(p.total_time, 3);
    assert_eq!(p.entry_time, 0);
    let q = get_process_from_user("B\u{a0}+7\u{3000}009".to_string()).unwrap();
    assert_eq!(q.name, "B");
    assert_eq!(q.total_time, 7);
    assert_eq!(q.entry_time, 9);
}

#[test]
fn a_name_may_hold_any_character_but_white_space() {
    let p = get_process_from_user("żółw-1 4 2".to_string()).unwrap();
    assert_eq!(p.name, "żółw-1");
    assert_eq!(p.total_time, 4);
    assert_eq!(p.entry_time, 2);
}

#[test]
fn a_wrong_number_of_fields_is_refused() {
    for line in ["", "   ", "A", "A 1", "A 1 2 3", "exit"] {
        assert_eq!(
            get_process_from_user(line.to_string()).err(),
            Some(InputError::TokenCount),
            "{:?}",
            line
        );
    }
}

#[test]
fn a_field_that_is_no_number_is_refused() {
    for line in ["A x 1", "A -1 1", "A 1.5 1", "A + 1", "A 1a 1", "A ١ 1"] {
        assert_eq!(
            get_process_from_user(line.to_string()).err(),
            Some(InputError::TotalTime),
            "{:?}",
            line
        );
    }
    for line in ["A 1 x", "A 1 -0", "A 1 2+", "A 1 ++2"] {
        assert_eq!(
            get_process_from_user(line.to_string()).err(),
            Some(InputError::EntryTime),
            "{:?}",
            line
        );
    }
}

#[test]
fn a_number_that_does_not_fit_is_refused() {
    let max = usize::MAX;
    let p = get_process_from_user(format!("A {} {}", max, max)).unwrap();
    assert_eq!(p.total_time, max);
    assert_eq!(p.entry_time, max);
    let too_big = format!("{}0", max);
    assert_eq!(
        get_process_from_user(format!("A {} 1", too_big)).err(),
        Some(InputError::TotalTime)
    );
    let one_more = (max as u128 + 1).to_string();
    assert_eq!(
        get_process_from_user(format!("A 1 {}", one_more)).err(),
        Some(InputError::EntryTime)
    );
}

#[test]
fn decimal_agrees_with_the_standard_parser() {
    for text in ["0", "7", "+7", "007", "123456789", "", "+", "-", "-3", "12 ", "1_0", "0x10"] {
        let chars = chars_of(text);
        let expected: Option<usize> = text.parse().ok();
        assert_eq!(parse_decimal(&chars, 0, chars.len()), expected, "{:?}", text);
    }
}

#[test]
fn white_space_agrees_with_the_standard_library() {
    for code in 0u32..0x11_0000 {
        if let Some(c) = char::from_u32(code) {
            assert_eq!(is_space_char(c), c.is_whitespace(), "{:x}", code);
        }
    }
}

#[test]
fn tokens_are_the_runs_between_white_space() {
    let chars = chars_of("  ab  c\td ");
    assert_eq!(tokenize(&chars), vec![(2, 4), (6, 7), (8, 9)]);
    assert_eq!(next_token(&chars, 0), (2, 4));
    assert_eq!(next_token(&chars, 4), (6, 7));
    assert_eq!(next_token(&chars, 9), (10, 10));
    assert_eq!(tokenize(&chars_of("")), Vec::new());
    assert_eq!(chars_of("añb"), vec!['a', 'ñ', 'b']);
}

#[test]
fn exit_ends_the_list() {
    for line in ["exit", "exit\n", "  exit \r\n", "\texit"] {
        assert!(is_exit_line(line), "{:?}", line);
    }
    for line in ["", "exi", "exits", "Exit", "exit now", "ex it", "quit", "e x i t"] {
        assert!(!is_exit_line(line), "{:?}", line);
    }
}

#[test]
fn the_choice_of_algorithm() {
    for choice in ["1", "1\n", " 1 ", "+1", "01"] {
        assert_eq!(select_algorithm(choice), Algorithm::RoundRobin, "{:?}", choice);
    }
    for choice in ["2", "2\n", "  2\t", "+2", "002"] {
        assert_eq!(select_algorithm(choice), Algorithm::Fcfs, "{:?}", choice);
    }
    for choice in ["", "0", "3", "255", "256", "two", "-2", "2 2", "1 2", "2.0"] {
        assert_eq!(select_algorithm(choice), Algorithm::RoundRobin, "{:?}", choice);
    }
}
