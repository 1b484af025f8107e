use container_ci::script::{check_white_space, parse};

/// The commands of a script, by the text functions of the standard library.
fn expected(text: &str) -> Vec<Vec<String>> {
    text.lines()
        .filter(|line| !line.starts_with('#'))
        .map(|line| line.split_whitespace().map(|word| word.to_string()).collect())
        .filter(|words: &Vec<String>| !words.is_empty())
        .collect()
}

#[test]
fn white_space_is_that_of_unicode() {
    for code in 0..0x110000 {
        if let Some(c) = char::from_u32(code) {
            assert_eq!(check_white_space(c), c.is_whitespace(), "{:x}", code);
        }
    }
}

#[test]
fn a_script_is_parsed() {
    let text = "# set up\nnpm install --global  yarn\n\n   \n\tmake\tall\r\n #not a comment\n";
    assert_eq!(
        parse(text),
        vec![
            vec!["npm", "install", "--global", "yarn"],
            vec!["make", "all"],
            vec!["#not", "a", "comment"],
        ]
    );
}

#[test]
fn an_empty_script_has_no_commands() {
    assert_eq!(parse(""), Vec::<Vec<String>>::new());
    assert_eq!(parse("\n\r\n \n#"), Vec::<Vec<String>>::new());
}

#[test]
fn the_last_line_needs_no_end() {
    assert_eq!(parse("a b\nc"), vec![vec!["a", "b"], vec!["c"]]);
    assert_eq!(parse("a b\nc\n"), vec![vec!["a", "b"], vec!["c"]]);
}

#[test]
fn scripts_agree_with_the_standard_library() {
    let pieces = ["a", "#", "\n", "\r", " ", "\t", "\u{85}", "\u{3000}", "\u{e9}", "bc"];
    let mut seed: u64 = 3;
    for _ in 0..5000 {
        let mut text = String::new();
        for _ in 0..12 {
            seed = seed.wrapping_mul(6364136223846793005).wrapping_add(1442695040888963407);
            text.push_str(pieces[usize::try_from(seed >> 40).unwrap() % pieces.len()]);
        }
        assert_eq!(parse(&text), expected(&text), "{:?}", text);
    }
}

#[test]
fn scripts_follow_each_other() {
    let first = "a b\n#c\n";
    let second = "d\n\ne f";
    let mut both = parse(first);
    both.extend(parse(second));
    assert_eq!(parse(&format!("{}{}", first, second)), both);
}

#[test]
fn a_comment_in_front_changes_nothing() {
    assert_eq!(parse("# a b\nc d\n"), parse("c d\n"));
    assert_eq!(parse("#\r\nc d\n"), parse("c d\n"));
}

#[test]
fn blank_lines_change_nothing() {
    for blank in ["", " ", "\t\r", "\u{3000} \u{85}"] {
        assert_eq!(parse(&format!("{}\n{}", blank, "c d\n")), parse("c d\n"));
    }
}

#[test]
fn scripts_stand_on_lines_of_their_own() {
    let scripts = ["", "a b", "a b\r", "a\n", "#c", "#c\r", "\r", "a\n\n", "a\nb #c"];
    for first in scripts {
        for second in scripts {
            let mut both = parse(first);
            both.extend(parse(second));
            assert_eq!(parse(&format!("{}\n{}", first, second)), both);
        }
    }
}
