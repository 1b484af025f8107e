use container_ci::progress::{get_closing_text, Progress, State};
use container_ci::text::{push_decimal, push_decimal_aligned};

fn stats(received: usize, indexed: usize, total: usize, bytes: usize) -> Progress {
    Progress {
        received_objects: received,
        indexed_objects: indexed,
        total_objects: total,
        received_bytes: bytes,
        indexed_deltas: 3,
        total_deltas: 12,
    }
}

#[test]
fn numbers_are_written_in_decimal() {
    for n in [0, 7, 9, 10, 99, 100, 12345, usize::MAX] {
        let mut text = "x".to_string();
        push_decimal(&mut text, n);
        assert_eq!(text, format!("x{}", n));
        for width in [0, 1, 3, 5, 30] {
            let mut text = "x".to_string();
            push_decimal_aligned(&mut text, n, width);
            assert_eq!(text, format!("x{:width$}", n, width = width));
        }
    }
}

#[test]
fn receiving_is_reported() {
    let mut state = State::new();
    let text = state.transfer(stats(50, 25, 200, 10 * 1024 + 1023));
    assert_eq!(text, "\r 25% (  10 kb,    50/  200) idx  12% (   25/  200)");
    assert_eq!(state.progress, Some(stats(50, 25, 200, 10 * 1024 + 1023)));
    assert!(!state.newline);
}

#[test]
fn wide_numbers_are_reported_whole() {
    let mut state = State::new();
    let text = state.transfer(stats(123456, 654321, 1234567, 99999999));
    assert_eq!(
        text,
        format!(
            "\r{:3}% ({:4} kb, {:5}/{:5}) idx {:3}% ({:5}/{:5})",
            9, 97656, 123456, 1234567, 53, 654321, 1234567
        )
    );
}

#[test]
fn resolving_begins_one_new_line() {
    let mut state = State::new();
    assert_eq!(state.transfer(stats(5, 5, 5, 0)), "\nResolving deltas 3/12\r");
    assert!(state.newline);
    assert_eq!(state.transfer(stats(5, 5, 5, 0)), "Resolving deltas 3/12\r");
    assert_eq!(state.print_clone_status(), "Resolving deltas 3/12\r");
    assert!(state.newline);
}

#[test]
fn a_report_without_all_objects_keeps_the_new_line() {
    let mut state = State::new();
    state.newline = true;
    assert_eq!(
        state.transfer(stats(1, 0, 2, 0)),
        "\r 50% (   0 kb,     1/    2) idx   0% (    0/    2)"
    );
    assert!(state.newline);
}

#[test]
fn checking_out_reports_the_transfer() {
    let mut state = State::new();
    state.transfer(stats(4, 4, 4, 0));
    let text = state.checkout(Some("src/main.rs".to_string()), 2, 9);
    assert_eq!(text, "Resolving deltas 3/12\r");
    assert_eq!(state.path, Some("src/main.rs".to_string()));
    assert_eq!(state.current, 2);
    assert_eq!(state.total, 9);
}

#[test]
fn nothing_to_report_without_objects() {
    assert!(!stats(0, 0, 0, 0).is_printable());
    assert!(stats(0, 0, 1, 0).is_printable());
    assert!(stats(usize::MAX / 100, 0, 1, 0).is_printable());
    assert!(!stats(usize::MAX / 100 + 1, 0, 1, 0).is_printable());
    assert!(!stats(0, usize::MAX / 100 + 1, 1, 0).is_printable());
}

#[test]
fn many_reports_hold_one_line_feed() {
    let mut state = State::new();
    let mut all = String::new();
    for received in [0, 1, 2, 3, 3, 3] {
        all.push_str(&state.transfer(stats(received, received, 3, 0)));
    }
    assert_eq!(all.matches('\n').count(), 1);
}

#[test]
fn only_the_whole_is_a_hundred_percent() {
    let mut state = State::new();
    let text = state.transfer(stats(999, 1000, 1000, 0));
    assert_eq!(text, "\r 99% (   0 kb,   999/ 1000) idx 100% ( 1000/ 1000)");
}

#[test]
fn a_clone_is_closed_with_a_line_break() {
    assert_eq!(get_closing_text(true), "\n");
    assert_eq!(get_closing_text(false), "");
}

#[test]
fn line_breaks_of_a_whole_clone() {
    for (last, breaks) in [(2, 0), (3, 1)] {
        for cloned in [true, false] {
            let mut state = State::new();
            let mut all = String::new();
            for received in [1, last] {
                all.push_str(&state.transfer(stats(received, 0, 3, 0)));
            }
            for step in 0..4 {
                all.push_str(&state.checkout(None, step, 4));
            }
            all.push_str(&get_closing_text(cloned));
            let closing = if cloned { 1 } else { 0 };
            assert_eq!(all.matches('\n').count(), breaks + closing);
        }
    }
}
