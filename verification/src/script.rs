//! Setup scripts: one command per line, its words parted by white space.
//! A line whose first character is `#` is a comment.

use vstd::prelude::*;

use crate::text::texts;

verus! {

/// The characters of Unicode's property White_Space.
pub open spec fn is_white_space(c: char) -> bool {
    ||| '\u{9}' <= c <= '\u{d}'
    ||| c == ' '
    ||| c == '\u{85}'
    ||| c == '\u{a0}'
    ||| c == '\u{1680}'
    ||| '\u{2000}' <= c <= '\u{200a}'
    ||| c == '\u{2028}'
    ||| c == '\u{2029}'
    ||| c == '\u{202f}'
    ||| c == '\u{205f}'
    ||| c == '\u{3000}'
}

/// The text without a carriage return at its end.
pub open spec fn without_return(line: Seq<char>) -> Seq<char> {
    if line.len() > 0 && line.last() == '\r' {
        line.drop_last()
    } else {
        line
    }
}

/// The lines of a text. A line ends with a line feed, or a carriage return and
/// a line feed, which are no part of it. The end of the text ends the last
/// line, unless that is empty.
pub open spec fn lines(text: Seq<char>) -> Seq<Seq<char>>
    decreases text.len(),
{
    match text.index_of_first('\n') {
        Some(end) => {
            proof {
                text.index_of_first_ensures('\n');
            }
            seq![without_return(text.take(end))] + lines(text.skip(end + 1))
        },
        None => if text.len() == 0 {
            Seq::empty()
        } else {
            seq![text]
        },
    }
}

/// How many characters at the start of a text are no white space.
pub open spec fn word_length(text: Seq<char>) -> nat
    decreases text.len(),
{
    if text.len() == 0 || is_white_space(text[0]) {
        0
    } else {
        1 + word_length(text.skip(1))
    }
}

/// The words of a line: its longest runs of characters that are no white
/// space.
pub open spec fn words(line: Seq<char>) -> Seq<Seq<char>>
    decreases line.len(),
{
    if line.len() == 0 {
        Seq::empty()
    } else if is_white_space(line[0]) {
        words(line.skip(1))
    } else {
        proof {
            lemma_word_length(line);
        }
        let length = word_length(line) as int;
        seq![line.take(length)] + words(line.skip(length))
    }
}

/// A run ends at white space or at the end of the text.
pub proof fn lemma_word_length(text: Seq<char>)
    ensures
        word_length(text) <= text.len(),
        forall|i: int| 0 <= i < word_length(text) ==> !is_white_space(#[trigger] text[i]),
        word_length(text) < text.len() ==> is_white_space(text[word_length(text) as int]),
    decreases text.len(),
{
    if text.len() > 0 && !is_white_space(text[0]) {
        let rest = text.skip(1);
        lemma_word_length(rest);
        assert forall|i: int| 0 <= i < word_length(text) implies !is_white_space(
            #[trigger] text[i],
        ) by {
            if i > 0 {
                assert(text[i] == rest[i - 1]);
            }
        }
    }
}

/// Whether a line is a comment.
pub open spec fn is_comment(line: Seq<char>) -> bool {
    line.len() > 0 && line[0] == '#'
}

/// The commands that a list of lines gives, each as its words: the lines that
/// are no comments and have words at all.
pub open spec fn line_commands(lines: Seq<Seq<char>>) -> Seq<Seq<Seq<char>>> {
    lines.filter(|line: Seq<char>| !is_comment(line)).map_values(
        |line: Seq<char>| words(line),
    ).filter(|command: Seq<Seq<char>>| command.len() > 0)
}

/// The commands of a script.
pub open spec fn commands(text: Seq<char>) -> Seq<Seq<Seq<char>>> {
    line_commands(lines(text))
}

/// What the words of each command read.
pub open spec fn command_texts(list: Seq<Vec<String>>) -> Seq<Seq<Seq<char>>> {
    list.map_values(|command: Vec<String>| texts(command@))
}

/// Whether a character is white space.
pub fn check_white_space(c: char) -> (white: bool)
    ensures
        white == is_white_space(c),
{
    ('\u{9}' <= c && c <= '\u{d}') || c == ' ' || c == '\u{85}' || c == '\u{a0}' || c == '\u{1680}'
        || ('\u{2000}' <= c && c <= '\u{200a}') || c == '\u{2028}' || c == '\u{2029}' || c
        == '\u{202f}' || c == '\u{205f}' || c == '\u{3000}'
}

/// The characters of a text.
fn characters(text: &str) -> (chars: Vec<char>)
    ensures
        chars@ == text@,
{
    let mut chars: Vec<char> = Vec::new();
    for c in it: text.chars()
        invariant
            chars@ == it.seq().take(it.index()),
            it.seq() == text@,
    {
        chars.push(c);
        assert(it.seq().take(it.index() + 1) =~= it.seq().take(it.index()).push(c));
    }
    assert(text@.take(text@.len() as int) =~= text@);
    chars
}

/// A part of a text.
fn part(chars: &Vec<char>, from: usize, to: usize) -> (text: String)
    requires
        from <= to <= chars.len(),
    ensures
        text@ == chars@.subrange(from as int, to as int),
{
    let mut text = String::new();
    let mut i: usize = from;
    while i < to
        invariant
            from <= i <= to <= chars.len(),
            text@ =~= chars@.subrange(from as int, i as int),
        decreases to - i,
    {
        text.push(chars[i]);
        i = i + 1;
    }
    text
}

/// The words of a line, which is given as a part of a text.
fn part_words(chars: &Vec<char>, from: usize, to: usize) -> (found: Vec<String>)
    requires
        from <= to <= chars.len(),
    ensures
        texts(found@) == words(chars@.subrange(from as int, to as int)),
{
    let ghost line = chars@.subrange(from as int, to as int);
    let mut found: Vec<String> = Vec::new();
    let mut i: usize = from;
    assert(line.skip(0) =~= line);
    assert(texts(found@) + words(line.skip(0)) =~= words(line));
    while i < to
        invariant
            from <= i <= to <= chars.len(),
            line == chars@.subrange(from as int, to as int),
            texts(found@) + words(line.skip(i - from)) == words(line),
        decreases to - i,
    {
        let ghost rest = line.skip(i - from);
        assert(rest[0] == chars@[i as int]);
        if check_white_space(chars[i]) {
            i = i + 1;
            assert(rest.skip(1) =~= line.skip(i - from));
        } else {
            let start: usize = i;
            proof {
                lemma_word_length(rest);
            }
            while i < to && !check_white_space(chars[i])
                invariant
                    from <= start <= i <= to <= chars.len(),
                    line == chars@.subrange(from as int, to as int),
                    rest == line.skip(start - from),
                    i - start <= word_length(rest) <= rest.len(),
                    forall|j: int|
                        0 <= j < word_length(rest) ==> !is_white_space(#[trigger] rest[j]),
                    word_length(rest) < rest.len() ==> is_white_space(
                        rest[word_length(rest) as int],
                    ),
                decreases to - i,
            {
                assert(rest[i - start] == chars@[i as int]);
                i = i + 1;
            }
            assert(i - start == word_length(rest)) by {
                if i - start < word_length(rest) {
                    assert(rest[i - start] == chars@[i as int]);
                }
            }
            assert(word_length(rest) > 0);
            let ghost before = found@;
            found.push(part(chars, start, i));
            proof {
                let word = rest.take(i - start);
                assert(chars@.subrange(start as int, i as int) =~= word);
                assert(texts(found@) =~= texts(before).push(word));
                assert(rest.skip(i - start) =~= line.skip(i - from));
                assert(words(rest) == seq![word] + words(line.skip(i - from)));
                assert(texts(found@) + words(line.skip(i - from)) =~= texts(before) + words(rest));
            }
        }
    }
    assert(line.skip(i - from) =~= Seq::empty());
    assert(texts(found@) + words(line.skip(i - from)) =~= texts(found@));
    found
}

/// One more line gives one more command, unless it is a comment or empty.
proof fn lemma_line_commands_push(lines: Seq<Seq<char>>, line: Seq<char>)
    ensures
        line_commands(lines.push(line)) == if is_comment(line) || words(line).len() == 0 {
            line_commands(lines)
        } else {
            line_commands(lines).push(words(line))
        },
{
    reveal(Seq::filter);
    let kept = |line: Seq<char>| !is_comment(line);
    let split = |line: Seq<char>| words(line);
    let some = |command: Seq<Seq<char>>| command.len() > 0;
    assert(lines.push(line).drop_last() =~= lines);
    if !is_comment(line) {
        let before = lines.filter(kept).map_values(split);
        assert(lines.push(line).filter(kept) == lines.filter(kept).push(line));
        assert(lines.filter(kept).push(line).map_values(split) =~= before.push(words(line)));
        assert(before.push(words(line)).drop_last() =~= before);
    }
}

/// The commands of a script, each as its words.
pub fn parse(text: &str) -> (list: Vec<Vec<String>>)
    ensures
        command_texts(list@) == commands(text@),
{
    let chars = characters(text);
    let mut list: Vec<Vec<String>> = Vec::new();
    let ghost mut done: Seq<Seq<char>> = Seq::empty();
    let mut start: usize = 0;
    proof {
        assert(text@.skip(0) =~= text@);
        assert(done + lines(text@.skip(0)) =~= lines(text@));
        reveal(Seq::filter);
        assert(command_texts(list@) =~= line_commands(done));
    }
    while start < chars.len()
        invariant
            start <= chars.len(),
            chars@ == text@,
            done + lines(text@.skip(start as int)) == lines(text@),
            command_texts(list@) == line_commands(done),
        decreases chars.len() - start,
    {
        let ghost rest = text@.skip(start as int);
        proof {
            rest.index_of_first_ensures('\n');
        }
        let mut feed: usize = start;
        while feed < chars.len() && chars[feed] != '\n'
            invariant
                start <= feed <= chars.len(),
                chars@ == text@,
                rest == text@.skip(start as int),
                forall|j: int| start <= j < feed ==> chars@[j] != '\n',
            decreases chars.len() - feed,
        {
            feed = feed + 1;
        }
        let mut end: usize = feed;
        let mut next: usize = feed;
        if feed < chars.len() {
            next = feed + 1;
            if feed > start && chars[feed - 1] == '\r' {
                end = feed - 1;
            }
        }
        let ghost line = text@.subrange(start as int, end as int);
        proof {
            if feed < chars.len() {
                assert(rest[feed - start] == '\n');
                assert(rest.contains('\n'));
                let first = rest.index_of_first('\n')->0;
                assert(rest[first] == chars@[start + first]);
                assert(first == feed - start) by {
                    if first < feed - start {
                        assert(chars@[start + first] != '\n');
                    }
                }
                assert(without_return(rest.take(first)) =~= line);
                assert(rest.skip(first + 1) =~= text@.skip(next as int));
                assert(lines(rest) == seq![line] + lines(text@.skip(next as int)));
            } else {
                assert(!rest.contains('\n')) by {
                    if rest.contains('\n') {
                        let j = choose|j: int| 0 <= j < rest.len() && rest[j] == '\n';
                        assert(chars@[start + j] == '\n');
                    }
                }
                assert(line =~= rest);
                assert(text@.skip(next as int) =~= Seq::empty());
                Seq::<char>::empty().index_of_first_ensures('\n');
                assert(lines(rest) =~= seq![line] + lines(text@.skip(next as int)));
            }
            assert(done.push(line) + lines(text@.skip(next as int)) =~= done + lines(rest));
            lemma_line_commands_push(done, line);
        }
        if end == start || chars[start] != '#' {
            let command = part_words(&chars, start, end);
            let ghost before = list@;
            if command.len() > 0 {
                list.push(command);
                assert(command_texts(list@) =~= command_texts(before).push(words(line)));
            }
        }
        proof {
            done = done.push(line);
        }
        start = next;
    }
    proof {
        assert(text@.skip(start as int) =~= Seq::empty());
        Seq::<char>::empty().index_of_first_ensures('\n');
        assert(done + lines(text@.skip(start as int)) =~= done);
    }
    list
}

/// No word is empty or holds white space, and the words of a line, one behind
/// the other, are the line without its white space.
pub proof fn law_words(line: Seq<char>)
    ensures
        forall|k: int| 0 <= k < words(line).len() ==> (#[trigger] words(line)[k]).len() > 0,
        forall|k: int, i: int|
            0 <= k < words(line).len() && 0 <= i < words(line)[k].len() ==> !is_white_space(
                #[trigger] words(line)[k][i],
            ),
        words(line).flatten() == line.filter(|c: char| !is_white_space(c)),
    decreases line.len(),
{
    let black = |c: char| !is_white_space(c);
    if line.len() == 0 {
        reveal(Seq::filter);
        assert(words(line).flatten() =~= Seq::empty());
    } else if is_white_space(line[0]) {
        law_words(line.skip(1));
        assert(line =~= seq![line[0]] + line.skip(1));
        line.skip(1).lemma_filter_prepend(line[0], black);
        assert(line.filter(black) =~= line.skip(1).filter(black));
    } else {
        lemma_word_length(line);
        let length = word_length(line) as int;
        let word = line.take(length);
        let rest = line.skip(length);
        law_words(rest);
        assert(words(line) == seq![word] + words(rest));
        assert forall|k: int, i: int|
            0 <= k < words(line).len() && 0 <= i < words(line)[k].len() implies !is_white_space(
            #[trigger] words(line)[k][i],
        ) by {
            if k > 0 {
                assert(words(line)[k] == words(rest)[k - 1]);
                assert(!is_white_space(words(rest)[k - 1][i]));
            } else {
                assert(word[i] == line[i]);
            }
        }
        assert forall|k: int| 0 <= k < words(line).len() implies (
        #[trigger] words(line)[k]).len() > 0 by {
            if k > 0 {
                assert(words(line)[k] == words(rest)[k - 1]);
            }
        }
        assert(line =~= word + rest);
        Seq::filter_distributes_over_add(word, rest, black);
        lemma_filter_all(word, black);
        assert(words(line).drop_first() =~= words(rest));
        assert(words(line).first() == word);
    }
}

/// A filter that every element passes changes nothing.
proof fn lemma_filter_all(text: Seq<char>, pass: spec_fn(char) -> bool)
    requires
        forall|i: int| 0 <= i < text.len() ==> pass(#[trigger] text[i]),
    ensures
        text.filter(pass) == text,
    decreases text.len(),
{
    reveal(Seq::filter);
    if text.len() > 0 {
        let shorter = text.drop_last();
        assert forall|i: int| 0 <= i < shorter.len() implies pass(#[trigger] shorter[i]) by {
            assert(shorter[i] == text[i]);
        }
        lemma_filter_all(shorter, pass);
        assert(text =~= shorter.push(text.last()));
    } else {
        assert(text.filter(pass) =~= text);
    }
}

/// Every command has a word to run.
pub proof fn law_commands_are_not_empty(text: Seq<char>)
    ensures
        forall|k: int| 0 <= k < commands(text).len() ==> (#[trigger] commands(text)[k]).len() > 0,
{
    let some = |command: Seq<Seq<char>>| command.len() > 0;
    let all = lines(text).filter(|line: Seq<char>| !is_comment(line)).map_values(
        |line: Seq<char>| words(line),
    );
    assert forall|k: int| 0 <= k < commands(text).len() implies (
    #[trigger] commands(text)[k]).len() > 0 by {
        all.lemma_filter_pred(some, k);
    }
}

/// A script that follows another one, which ends with a line feed, adds its
/// commands behind those of the first.
pub proof fn law_scripts_follow_each_other(first: Seq<char>, second: Seq<char>)
    requires
        first.len() > 0,
        first.last() == '\n',
    ensures
        commands(first + second) == commands(first) + commands(second),
{
    lemma_lines_add(first, second);
    lemma_line_commands_add(lines(first), lines(second));
}

proof fn lemma_lines_add(first: Seq<char>, second: Seq<char>)
    requires
        first.len() > 0 ==> first.last() == '\n',
    ensures
        lines(first + second) == lines(first) + lines(second),
    decreases first.len(),
{
    let both = first + second;
    if first.len() == 0 {
        first.index_of_first_ensures('\n');
        assert(both =~= second);
        assert(lines(first) + lines(second) =~= lines(second));
    } else {
        assert(first[first.len() - 1] == '\n');
        assert(first.contains('\n'));
        assert(both[first.len() - 1] == '\n');
        assert(both.contains('\n'));
        first.index_of_first_ensures('\n');
        both.index_of_first_ensures('\n');
        let end = first.index_of_first('\n')->0;
        let end_both = both.index_of_first('\n')->0;
        assert(both[end] == first[end]);
        assert(end_both <= end);
        assert(both[end_both] == first[end_both]);
        assert(end_both == end);
        let rest = first.skip(end + 1);
        assert(rest.len() > 0 ==> rest.last() == first.last());
        lemma_lines_add(rest, second);
        assert(both.skip(end + 1) =~= rest + second);
        assert(both.take(end) =~= first.take(end));
        assert(lines(both) =~= lines(first) + lines(second));
    }
}

proof fn lemma_line_commands_add(first: Seq<Seq<char>>, second: Seq<Seq<char>>)
    ensures
        line_commands(first + second) == line_commands(first) + line_commands(second),
    decreases second.len(),
{
    if second.len() == 0 {
        assert(first + second =~= first);
        reveal(Seq::filter);
        assert(line_commands(second) =~= Seq::empty());
        assert(line_commands(first) + line_commands(second) =~= line_commands(first));
    } else {
        let shorter = second.drop_last();
        let line = second.last();
        lemma_line_commands_add(first, shorter);
        assert(second =~= shorter.push(line));
        assert(first + second =~= (first + shorter).push(line));
        lemma_line_commands_push(shorter, line);
        lemma_line_commands_push(first + shorter, line);
        assert(line_commands(first + second) =~= line_commands(first) + line_commands(second));
    }
}

/// A line that starts with `#` gives no command.
pub proof fn law_comments_are_skipped(line: Seq<char>, text: Seq<char>)
    requires
        line.len() > 0,
        line[0] == '#',
        !line.contains('\n'),
    ensures
        commands(line.push('\n') + text) == commands(text),
{
    let first = line.push('\n');
    law_scripts_follow_each_other(first, text);
    lemma_one_line(line);
    lemma_no_lines();
    let only = without_return(line);
    assert(line[0] == '#');
    assert(is_comment(only));
    lemma_line_commands_push(Seq::empty(), only);
    assert(commands(first) + commands(text) =~= commands(text));
}

/// A line without words gives no command.
pub proof fn law_blank_lines_are_skipped(line: Seq<char>, text: Seq<char>)
    requires
        words(line).len() == 0,
        !line.contains('\n'),
    ensures
        commands(line.push('\n') + text) == commands(text),
{
    law_scripts_follow_each_other(line.push('\n'), text);
    lemma_one_line(line);
    lemma_words_without_return(line);
    lemma_line_commands_push(Seq::empty(), without_return(line));
    lemma_no_lines();
    assert(commands(line.push('\n')) + commands(text) =~= commands(text));
}

/// Two scripts with a line feed between them give the commands of the first
/// and then those of the second, however the first ends.
pub proof fn law_scripts_on_lines_of_their_own(first: Seq<char>, second: Seq<char>)
    ensures
        commands(first + seq!['\n'] + second) == commands(first) + commands(second),
{
    assert(first + seq!['\n'] =~= first.push('\n'));
    law_scripts_follow_each_other(first.push('\n'), second);
    lemma_line_feed_at_the_end(first);
}

/// No lines give no commands.
proof fn lemma_no_lines()
    ensures
        line_commands(Seq::empty()) == Seq::<Seq<Seq<char>>>::empty(),
        lines(Seq::empty()) == Seq::<Seq<char>>::empty(),
{
    reveal(Seq::filter);
    Seq::<char>::empty().index_of_first_ensures('\n');
    assert(line_commands(Seq::empty()) =~= Seq::empty());
    assert(lines(Seq::empty()) =~= Seq::empty());
}

/// A text that ends with its only line feed is one line.
proof fn lemma_one_line(line: Seq<char>)
    requires
        !line.contains('\n'),
    ensures
        lines(line.push('\n')) == Seq::empty().push(without_return(line)),
{
    let text = line.push('\n');
    text.index_of_first_ensures('\n');
    assert(text[line.len() as int] == '\n');
    assert(text.contains('\n'));
    let end = text.index_of_first('\n')->0;
    assert(end == line.len()) by {
        if end < line.len() {
            assert(line[end] == '\n');
        }
    }
    assert(text.take(end) =~= line);
    assert(text.skip(end + 1) =~= Seq::empty());
    lemma_no_lines();
    assert(lines(text) =~= Seq::empty().push(without_return(line)));
}

/// White space at the end of a line is no part of its words.
proof fn lemma_words_push_white_space(line: Seq<char>, c: char)
    requires
        is_white_space(c),
    ensures
        words(line.push(c)) == words(line),
    decreases line.len(),
{
    let longer = line.push(c);
    if line.len() == 0 {
        assert(longer.skip(1) =~= line);
    } else if is_white_space(line[0]) {
        assert(longer.skip(1) =~= line.skip(1).push(c));
        lemma_words_push_white_space(line.skip(1), c);
    } else {
        lemma_word_length(line);
        lemma_word_length(longer);
        let length = word_length(line) as int;
        assert(word_length(longer) == length) by {
            if word_length(longer) > length {
                assert(!is_white_space(longer[length]));
            } else if word_length(longer) < length {
                assert(!is_white_space(line[word_length(longer) as int]));
                assert(longer[word_length(longer) as int] == line[word_length(longer) as int]);
            }
        }
        assert(length > 0);
        assert(longer.take(length) =~= line.take(length));
        assert(longer.skip(length) =~= line.skip(length).push(c));
        lemma_words_push_white_space(line.skip(length), c);
    }
}

/// A carriage return at the end of a line is no part of its words.
proof fn lemma_words_without_return(line: Seq<char>)
    ensures
        words(without_return(line)) == words(line),
{
    if line.len() > 0 && line.last() == '\r' {
        lemma_words_push_white_space(line.drop_last(), '\r');
        assert(line =~= line.drop_last().push('\r'));
    }
}

/// A line feed at the end of a script changes nothing.
proof fn lemma_line_feed_at_the_end(text: Seq<char>)
    ensures
        commands(text.push('\n')) == commands(text),
    decreases text.len(),
{
    text.index_of_first_ensures('\n');
    if text.contains('\n') {
        let end = text.index_of_first('\n')->0;
        let first = text.take(end + 1);
        let rest = text.skip(end + 1);
        assert(first.last() == '\n');
        assert(text =~= first + rest);
        assert(text.push('\n') =~= first + rest.push('\n'));
        law_scripts_follow_each_other(first, rest);
        law_scripts_follow_each_other(first, rest.push('\n'));
        lemma_line_feed_at_the_end(rest);
    } else {
        let line = without_return(text);
        lemma_one_line(text);
        lemma_words_without_return(text);
        lemma_no_lines();
        lemma_line_commands_push(Seq::empty(), line);
        if text.len() == 0 {
            assert(words(text) =~= Seq::empty());
        } else {
            assert(lines(text) =~= Seq::empty().push(text));
            lemma_line_commands_push(Seq::empty(), text);
            assert(is_comment(line) == is_comment(text)) by {
                if text.last() == '\r' && text.len() > 1 {
                    assert(line[0] == text[0]);
                }
            }
        }
    }
}

/// The white space of Unicode is twenty-five characters: the five from the tab
/// to the carriage return, the space, the next line, the no-break space, the
/// Ogham space, the eleven from the en quad to the hair space, the separators
/// of lines and paragraphs, the narrow no-break space, the mathematical space
/// and the ideographic space.
pub proof fn law_white_space(c: char)
    ensures
        is_white_space(c) <==> seq![
            9int, 10, 11, 12, 13, 32, 133, 160, 5760, 8192, 8193, 8194, 8195, 8196, 8197, 8198,
            8199, 8200, 8201, 8202, 8232, 8233, 8239, 8287, 12288,
        ].contains(c as int),
{
    let codes = seq![
        9int, 10, 11, 12, 13, 32, 133, 160, 5760, 8192, 8193, 8194, 8195, 8196, 8197, 8198, 8199,
        8200, 8201, 8202, 8232, 8233, 8239, 8287, 12288,
    ];
    let code = c as int;
    if is_white_space(c) {
        if code <= 13 {
            assert(codes[code - 9] == code);
        } else if 8192 <= code <= 8202 {
            assert(codes[code - 8192 + 9] == code);
        } else {
            assert(codes[5] == 32 && codes[6] == 133 && codes[7] == 160 && codes[8] == 5760);
            assert(codes[20] == 8232 && codes[21] == 8233 && codes[22] == 8239);
            assert(codes[23] == 8287 && codes[24] == 12288);
        }
    }
    if codes.contains(code) {
        let i = choose|i: int| 0 <= i < codes.len() && codes[i] == code;
        assert(codes[i] == code);
    }
}

/// White space parts words, wherever it stands and however much there is of it:
/// the words of a line with white space in it are those before it and then
/// those behind it.
pub proof fn law_white_space_parts_words(before: Seq<char>, c: char, behind: Seq<char>)
    requires
        is_white_space(c),
    ensures
        words(before + seq![c] + behind) == words(before) + words(behind),
    decreases before.len(),
{
    let line = before + seq![c] + behind;
    if before.len() == 0 {
        assert(line[0] == c);
        assert(line.skip(1) =~= behind);
        assert(words(before) + words(behind) =~= words(behind));
    } else if is_white_space(before[0]) {
        law_white_space_parts_words(before.skip(1), c, behind);
        assert(line[0] == before[0]);
        assert(line.skip(1) =~= before.skip(1) + seq![c] + behind);
    } else {
        lemma_word_length(before);
        lemma_word_length(line);
        let length = word_length(before) as int;
        assert(line[before.len() as int] == c);
        assert(word_length(line) == length) by {
            if word_length(line) > length {
                assert(!is_white_space(line[length]));
            } else if word_length(line) < length {
                assert(!is_white_space(before[word_length(line) as int]));
                assert(line[word_length(line) as int] == before[word_length(line) as int]);
            }
        }
        assert(length > 0);
        assert(line[0] == before[0]);
        assert(line.take(length) =~= before.take(length));
        law_white_space_parts_words(before.skip(length), c, behind);
        assert(line.skip(length) =~= before.skip(length) + seq![c] + behind);
        assert(words(line) =~= words(before) + words(behind));
    }
}

/// A text without white space is one word, and whole; only an empty one is
/// none.
pub proof fn law_one_word(text: Seq<char>)
    requires
        forall|i: int| 0 <= i < text.len() ==> !is_white_space(#[trigger] text[i]),
    ensures
        text.len() > 0 ==> words(text) == seq![text],
        text.len() == 0 ==> words(text).len() == 0,
{
    if text.len() > 0 {
        lemma_word_length(text);
        let length = word_length(text) as int;
        assert(length == text.len()) by {
            if length < text.len() {
                assert(!is_white_space(text[length]));
            }
        }
        assert(text.take(length) =~= text);
        assert(text.skip(length) =~= Seq::empty());
        assert(words(text.skip(length)) =~= Seq::empty());
        assert(words(text) =~= seq![text]);
    }
}

/// What a script does is what its first line does and then what the others do.
/// A line whose first character is `#` does nothing, whatever follows, and
/// neither does one without words; any other line is one command, with all of
/// the line's words. That holds of the last line, too, which need not end with
/// a line feed. An empty script does nothing.
pub proof fn law_first_line(line: Seq<char>, text: Seq<char>)
    requires
        !line.contains('\n'),
    ensures
        commands(Seq::empty()) == Seq::<Seq<Seq<char>>>::empty(),
        line.len() > 0 && line[0] == '#' ==> {
            &&& commands(line + seq!['\n'] + text) == commands(text)
            &&& commands(line).len() == 0
        },
        words(line).len() == 0 ==> {
            &&& commands(line + seq!['\n'] + text) == commands(text)
            &&& commands(line).len() == 0
        },
        line.len() > 0 && line[0] != '#' && words(line).len() > 0 ==> {
            &&& commands(line + seq!['\n'] + text) == seq![words(line)] + commands(text)
            &&& commands(line) == seq![words(line)]
        },
{
    let only = without_return(line);
    let none = Seq::<Seq<char>>::empty();
    law_scripts_on_lines_of_their_own(line, text);
    lemma_line_feed_at_the_end(line);
    lemma_one_line(line);
    lemma_no_lines();
    lemma_words_without_return(line);
    lemma_line_commands_push(none, only);
    if line.len() > 0 && line.last() == '\r' && line.len() > 1 {
        assert(only[0] == line[0]);
    }
    let no_commands = Seq::<Seq<Seq<char>>>::empty();
    assert(no_commands + commands(text) =~= commands(text));
    assert(no_commands.push(words(line)) =~= seq![words(line)]);
}

/// A list of commands reads as the words of each, one for one and in order.
pub proof fn law_commands_are_read(list: Seq<Vec<String>>)
    ensures
        command_texts(list).len() == list.len(),
        forall|i: int| #![trigger command_texts(list)[i]]
            0 <= i < list.len() ==> command_texts(list)[i].len() == list[i]@.len() && forall|k: int|
                0 <= k < list[i]@.len() ==> #[trigger] command_texts(list)[i][k] == list[i]@[k]@,
{
}

} // verus!
