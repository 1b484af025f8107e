//! The progress of a clone, as it is reported on the terminal.

use vstd::prelude::*;

use crate::text::{decimal, digit, push_decimal, push_decimal_aligned, right_aligned};

verus! {

/// How far a transfer has come.
#[derive(Debug, Clone, Copy, PartialEq, Eq, Structural)]
pub struct Progress {
    pub received_objects: usize,
    pub indexed_objects: usize,
    pub total_objects: usize,
    pub received_bytes: usize,
    pub indexed_deltas: usize,
    pub total_deltas: usize,
}

/// A share of a total in percent, rounded down.
pub open spec fn percent(part: nat, total: nat) -> nat {
    (100 * part) / total
}

impl Progress {
    /// Whether shares of the objects can be computed: there are objects, and a
    /// hundred times each number of them is a number.
    pub open spec fn printable(self) -> bool {
        &&& self.total_objects > 0
        &&& 100 * self.received_objects <= usize::MAX
        &&& 100 * self.indexed_objects <= usize::MAX
    }

    /// Whether all objects are there.
    pub open spec fn complete(self) -> bool {
        self.received_objects == self.total_objects
    }

    /// The report while objects are still on their way.
    pub open spec fn receiving_text(self) -> Seq<char> {
        let total = self.total_objects as nat;
        "\r"@ + right_aligned(decimal(percent(self.received_objects as nat, total)), 3) + "% ("@
            + right_aligned(decimal(self.received_bytes as nat / 1024), 4) + " kb, "@
            + right_aligned(decimal(self.received_objects as nat), 5) + "/"@ + right_aligned(
            decimal(total),
            5,
        ) + ") idx "@ + right_aligned(decimal(percent(self.indexed_objects as nat, total)), 3)
            + "% ("@ + right_aligned(decimal(self.indexed_objects as nat), 5) + "/"@
            + right_aligned(decimal(total), 5) + ")"@
    }

    /// The report when all objects are there.
    pub open spec fn resolving_text(self) -> Seq<char> {
        "Resolving deltas "@ + decimal(self.indexed_deltas as nat) + "/"@ + decimal(
            self.total_deltas as nat,
        ) + "\r"@
    }

    /// Whether shares of the objects can be computed.
    pub fn is_printable(&self) -> (yes: bool)
        ensures
            yes == self.printable(),
    {
        self.total_objects > 0 && self.received_objects <= usize::MAX / 100 && self.indexed_objects
            <= usize::MAX / 100
    }
}

/// What is known of a clone, and whether its reports have come to a new line.
#[derive(Debug, PartialEq)]
pub struct State {
    pub progress: Option<Progress>,
    pub total: usize,
    pub current: usize,
    /// The file that is checked out.
    pub path: Option<String>,
    pub newline: bool,
}

/// The report of a progress: once all objects are there it stands on a new
/// line, which is begun once.
pub open spec fn status_text(progress: Progress, newline: bool) -> Seq<char> {
    if !progress.complete() {
        progress.receiving_text()
    } else if newline {
        progress.resolving_text()
    } else {
        "\n"@ + progress.resolving_text()
    }
}

/// What is learned of a clone while it runs.
pub ghost enum Signal {
    /// How far the transfer has come.
    Transfer { stats: Progress },
    /// Which file is checked out, and how many of how many steps are done.
    Checkout { path: Option<String>, current: usize, total: usize },
}

/// What is printed behind the reports of a clone: a line break, if it
/// succeeded.
pub open spec fn closing_text(cloned: bool) -> Seq<char> {
    if cloned {
        "\n"@
    } else {
        Seq::empty()
    }
}

/// What is to be printed behind the reports of a clone.
pub fn get_closing_text(cloned: bool) -> (text: String)
    ensures
        text@ == closing_text(cloned),
{
    if cloned {
        "\n".to_owned()
    } else {
        String::new()
    }
}

impl State {
    /// A clone of which nothing is known.
    pub open spec fn unknown() -> State {
        State { progress: None, total: 0, current: 0, path: None, newline: false }
    }

    /// What is known with a signal.
    pub open spec fn with_signal(self, signal: Signal) -> State {
        match signal {
            Signal::Transfer { stats } => State { progress: Some(stats), ..self },
            Signal::Checkout { path, current, total } => State { path, current, total, ..self },
        }
    }

    /// The report of what is known.
    pub open spec fn text(self) -> Seq<char> {
        status_text(self.progress->0, self.newline)
    }

    /// Whether the progress of the clone is known and can be reported.
    pub open spec fn printable(self) -> bool {
        self.progress matches Some(progress) && progress.printable()
    }

    /// What is known after a report.
    pub open spec fn reported(self) -> State {
        State { newline: self.newline || self.progress->0.complete(), ..self }
    }

    /// A clone of which nothing is known.
    pub fn new() -> (state: State)
        ensures
            state == State::unknown(),
    {
        State { progress: None, total: 0, current: 0, path: None, newline: false }
    }

    /// Reports the progress: gives what is to be printed.
    pub fn print_clone_status(&mut self) -> (text: String)
        requires
            old(self).printable(),
        ensures
            text@ == old(self).text(),
            *final(self) == old(self).reported(),
            final(self).printable(),
    {
        let stats: Progress = self.progress.unwrap();
        let network_pct: usize = (100 * stats.received_objects) / stats.total_objects;
        let index_pct: usize = (100 * stats.indexed_objects) / stats.total_objects;
        let kbytes: usize = stats.received_bytes / 1024;
        if stats.received_objects == stats.total_objects {
            let mut text = "Resolving deltas ".to_owned();
            push_decimal(&mut text, stats.indexed_deltas);
            text.append("/");
            push_decimal(&mut text, stats.total_deltas);
            text.append("\r");
            if !self.newline {
                text = "\n".to_owned().concat(text.as_str());
                self.newline = true;
            }
            text
        } else {
            let mut text = "\r".to_owned();
            push_decimal_aligned(&mut text, network_pct, 3);
            text.append("% (");
            push_decimal_aligned(&mut text, kbytes, 4);
            text.append(" kb, ");
            push_decimal_aligned(&mut text, stats.received_objects, 5);
            text.append("/");
            push_decimal_aligned(&mut text, stats.total_objects, 5);
            text.append(") idx ");
            push_decimal_aligned(&mut text, index_pct, 3);
            text.append("% (");
            push_decimal_aligned(&mut text, stats.indexed_objects, 5);
            text.append("/");
            push_decimal_aligned(&mut text, stats.total_objects, 5);
            text.append(")");
            text
        }
    }

    /// Takes the progress of the transfer and reports it.
    pub fn transfer(&mut self, stats: Progress) -> (text: String)
        requires
            stats.printable(),
        ensures
            text@ == old(self).with_signal(Signal::Transfer { stats }).text(),
            *final(self) == old(self).with_signal(Signal::Transfer { stats }).reported(),
            final(self).printable(),
    {
        self.progress = Some(stats);
        self.print_clone_status()
    }

    /// Takes which file is checked out, and how many of how many steps are
    /// done, and reports the progress of the transfer.
    pub fn checkout(&mut self, path: Option<String>, current: usize, total: usize) -> (text: String)
        requires
            old(self).printable(),
        ensures
            text@ == old(self).with_signal(Signal::Checkout { path, current, total }).text(),
            *final(self) == old(self).with_signal(
                Signal::Checkout { path, current, total },
            ).reported(),
            final(self).printable(),
    {
        self.path = path;
        self.current = current;
        self.total = total;
        self.print_clone_status()
    }
}

/// A share of a total is at most a hundred percent, and a hundred percent is
/// reported for the whole only.
pub proof fn law_percentages(part: nat, total: nat)
    requires
        0 < total,
        part <= total,
    ensures
        percent(part, total) <= 100,
        percent(part, total) == 100 <==> part == total,
{
    assert(100 * part <= 100 * total);
    assert((100 * part) / total <= 100) by (nonlinear_arith)
        requires
            100 * part <= 100 * total,
            0 < total,
    ;
    if part < total {
        assert((100 * part) / total < 100) by (nonlinear_arith)
            requires
                part < total,
                0 < total,
        ;
    } else {
        assert((100 * total) / total == 100) by (nonlinear_arith)
            requires
                0 < total,
        ;
    }
}

/// The text of the reports of a clone, one behind the other.
pub open spec fn reports(stats: Seq<Progress>, newline: bool) -> Seq<char>
    decreases stats.len(),
{
    if stats.len() == 0 {
        Seq::empty()
    } else {
        status_text(stats[0], newline) + reports(stats.skip(1), newline || stats[0].complete())
    }
}

/// How many line feeds there are in a text.
pub open spec fn line_feeds(text: Seq<char>) -> nat {
    text.filter(|c: char| c == '\n').len()
}

/// However many reports there are, they begin a new line once, and not at all
/// as long as objects are missing.
pub proof fn law_one_line_break(stats: Seq<Progress>, newline: bool)
    ensures
        line_feeds(reports(stats, newline)) == if !newline && (exists|i: int|
            0 <= i < stats.len() && (#[trigger] stats[i]).complete()) {
            1nat
        } else {
            0nat
        },
    decreases stats.len(),
{
    if stats.len() == 0 {
        reveal(Seq::filter);
    } else {
        let rest = stats.skip(1);
        let first = stats[0];
        law_one_line_break(rest, newline || first.complete());
        lemma_line_feeds_add(
            status_text(first, newline),
            reports(rest, newline || first.complete()),
        );
        lemma_status_line_feeds(first, newline);
        assert forall|i: int| 0 <= i < rest.len() implies #[trigger] rest[i] == stats[i + 1] by {}
        if exists|i: int| 0 <= i < stats.len() && (#[trigger] stats[i]).complete() {
            let i = choose|i: int| 0 <= i < stats.len() && (#[trigger] stats[i]).complete();
            if i > 0 {
                assert(rest[i - 1].complete());
            }
        }
        if exists|i: int| 0 <= i < rest.len() && (#[trigger] rest[i]).complete() {
            let i = choose|i: int| 0 <= i < rest.len() && (#[trigger] rest[i]).complete();
            assert(stats[i + 1].complete());
        }
    }
}

proof fn lemma_line_feeds_add(first: Seq<char>, second: Seq<char>)
    ensures
        line_feeds(first + second) == line_feeds(first) + line_feeds(second),
{
    Seq::filter_distributes_over_add(first, second, |c: char| c == '\n');
}

/// A text without a line feed in it has none.
proof fn lemma_no_line_feed(text: Seq<char>)
    requires
        forall|i: int| 0 <= i < text.len() ==> #[trigger] text[i] != '\n',
    ensures
        line_feeds(text) == 0,
{
    let feed = |c: char| c == '\n';
    if text.filter(feed).len() > 0 {
        text.lemma_filter_pred(feed, 0);
        text.lemma_filter_contains_rev(feed, text.filter(feed)[0]);
        let i = choose|i: int| 0 <= i < text.len() && text[i] == '\n';
        assert(text[i] != '\n');
    }
}

proof fn lemma_one_line_feed()
    ensures
        line_feeds("\n"@) == 1,
{
    reveal_strlit("\n");
    reveal(Seq::filter);
    assert("\n"@ =~= seq!['\n']);
    assert(seq!['\n'].drop_last() =~= Seq::<char>::empty());
    assert(Seq::<char>::empty().filter(|c: char| c == '\n') =~= Seq::empty());
}

proof fn lemma_decimal_no_line_feed(n: nat)
    ensures
        forall|i: int| 0 <= i < decimal(n).len() ==> #[trigger] decimal(n)[i] != '\n',
    decreases n,
{
    if n >= 10 {
        lemma_decimal_no_line_feed(n / 10);
        assert(digit(n % 10) != '\n');
        assert(decimal(n) == decimal(n / 10).push(digit(n % 10)));
    } else {
        assert(digit(n) != '\n');
    }
}

proof fn lemma_status_line_feeds(progress: Progress, newline: bool)
    ensures
        line_feeds(status_text(progress, newline)) == if progress.complete() && !newline {
            1nat
        } else {
            0nat
        },
{
    reveal_strlit("\r");
    reveal_strlit("% (");
    reveal_strlit(" kb, ");
    reveal_strlit("/");
    reveal_strlit(") idx ");
    reveal_strlit(")");
    reveal_strlit("Resolving deltas ");
    reveal_strlit("\n");
    let total = progress.total_objects as nat;
    lemma_decimal_no_line_feed(percent(progress.received_objects as nat, total));
    lemma_decimal_no_line_feed(percent(progress.indexed_objects as nat, total));
    lemma_decimal_no_line_feed(progress.received_bytes as nat / 1024);
    lemma_decimal_no_line_feed(progress.received_objects as nat);
    lemma_decimal_no_line_feed(progress.indexed_objects as nat);
    lemma_decimal_no_line_feed(total);
    lemma_decimal_no_line_feed(progress.indexed_deltas as nat);
    lemma_decimal_no_line_feed(progress.total_deltas as nat);
    if progress.complete() {
        lemma_no_line_feed(progress.resolving_text());
        lemma_line_feeds_add("\n"@, progress.resolving_text());
        lemma_one_line_feed();
    } else {
        lemma_no_line_feed(progress.receiving_text());
    }
}

/// Whether every one of a sequence of signals can be reported when it comes.
pub open spec fn reportable(state: State, signals: Seq<Signal>) -> bool
    decreases signals.len(),
{
    signals.len() > 0 ==> {
        let known = state.with_signal(signals[0]);
        known.printable() && reportable(known.reported(), signals.skip(1))
    }
}

/// The text of the reports of a sequence of signals, one behind the other.
pub open spec fn signal_text(state: State, signals: Seq<Signal>) -> Seq<char>
    decreases signals.len(),
{
    if signals.len() == 0 {
        Seq::empty()
    } else {
        let known = state.with_signal(signals[0]);
        known.text() + signal_text(known.reported(), signals.skip(1))
    }
}

/// The progress of the latest transfer in a sequence of signals, or what was
/// known before if there is none.
pub open spec fn latest_stats(known: Option<Progress>, signals: Seq<Signal>) -> Option<Progress>
    decreases signals.len(),
{
    if signals.len() == 0 {
        known
    } else {
        match signals.last() {
            Signal::Transfer { stats } => Some(stats),
            Signal::Checkout { .. } => latest_stats(known, signals.drop_last()),
        }
    }
}

/// The progress that each of a sequence of signals finds: that of the latest
/// transfer, its own included.
pub open spec fn seen(known: Option<Progress>, signals: Seq<Signal>) -> Seq<Progress> {
    Seq::new(signals.len(), |k: int| latest_stats(known, signals.take(k + 1))->0)
}

/// All that a clone prints, however many signals come, holds one line break if
/// some signal came while all objects were there, and one more if the clone
/// succeeded.
pub proof fn law_line_breaks_of_a_clone(signals: Seq<Signal>, cloned: bool)
    requires
        reportable(State::unknown(), signals),
    ensures
        line_feeds(signal_text(State::unknown(), signals) + closing_text(cloned)) == (if exists|
            k: int,
        |
            0 <= k < signals.len() && (latest_stats(None, #[trigger] signals.take(k + 1)) matches
                Some(stats) && stats.complete()) {
            1nat
        } else {
            0nat
        }) + (if cloned {
            1nat
        } else {
            0nat
        }),
{
    let state = State::unknown();
    let all = seen(None, signals);
    lemma_signal_text(state, signals);
    law_one_line_break(all, false);
    lemma_line_feeds_add(signal_text(state, signals), closing_text(cloned));
    lemma_one_line_feed();
    assert(line_feeds(Seq::empty()) == 0) by {
        reveal(Seq::filter);
    }
    assert forall|k: int| 0 <= k < signals.len() implies (#[trigger] all[k]).complete() == (
    latest_stats(None, signals.take(k + 1)) matches Some(stats) && stats.complete()) by {
        lemma_stats_are_known(state, signals, k);
    }
    if exists|k: int|
        0 <= k < signals.len() && (latest_stats(None, #[trigger] signals.take(k + 1)) matches Some(
            stats,
        ) && stats.complete()) {
        let k = choose|k: int|
            0 <= k < signals.len() && (latest_stats(None, #[trigger] signals.take(k + 1)) matches
                Some(stats) && stats.complete());
        assert(all[k].complete());
    }
    if exists|k: int| 0 <= k < all.len() && (#[trigger] all[k]).complete() {
        let k = choose|k: int| 0 <= k < all.len() && (#[trigger] all[k]).complete();
        assert(latest_stats(None, signals.take(k + 1)) is Some);
    }
}

/// What is known after a first signal is what the others start from.
proof fn lemma_latest_after_first(state: State, signals: Seq<Signal>)
    requires
        signals.len() > 0,
    ensures
        latest_stats(state.progress, signals) == latest_stats(
            state.with_signal(signals[0]).progress,
            signals.skip(1),
        ),
    decreases signals.len(),
{
    let rest = signals.skip(1);
    if signals.len() == 1 {
        assert(signals.drop_last() =~= Seq::empty());
        assert(latest_stats(state.progress, signals.drop_last()) == state.progress);
    } else {
        let shorter = signals.drop_last();
        lemma_latest_after_first(state, shorter);
        assert(shorter[0] == signals[0]);
        assert(rest.drop_last() =~= shorter.skip(1));
        assert(rest.last() == signals.last());
    }
}

/// What can be reported is known.
proof fn lemma_stats_are_known(state: State, signals: Seq<Signal>, k: int)
    requires
        reportable(state, signals),
        0 <= k < signals.len(),
    ensures
        latest_stats(state.progress, signals.take(k + 1)) is Some,
    decreases signals.len(),
{
    let known = state.with_signal(signals[0]);
    let rest = signals.skip(1);
    let first = signals.take(k + 1);
    lemma_latest_after_first(state, first);
    assert(first[0] == signals[0]);
    if k == 0 {
        assert(first.skip(1) =~= Seq::empty());
    } else {
        lemma_stats_are_known(known.reported(), rest, k - 1);
        assert(first.skip(1) =~= rest.take(k));
    }
}

/// Signals are reported as the progress that each finds.
proof fn lemma_signal_text(state: State, signals: Seq<Signal>)
    requires
        reportable(state, signals),
    ensures
        signal_text(state, signals) == reports(seen(state.progress, signals), state.newline),
    decreases signals.len(),
{
    let all = seen(state.progress, signals);
    if signals.len() > 0 {
        let known = state.with_signal(signals[0]);
        let rest = signals.skip(1);
        lemma_signal_text(known.reported(), rest);
        assert(all[0] == known.progress->0) by {
            lemma_latest_after_first(state, signals.take(1));
            assert(signals.take(1).skip(1) =~= Seq::empty());
        }
        assert(all.skip(1) =~= seen(known.progress, rest)) by {
            assert forall|k: int| 0 <= k < rest.len() implies all[k + 1] == seen(
                known.progress,
                rest,
            )[k] by {
                let first = signals.take(k + 2);
                lemma_latest_after_first(state, first);
                assert(first[0] == signals[0]);
                assert(first.skip(1) =~= rest.take(k + 1));
            }
        }
    }
}

/// A percentage is the greatest whole number of hundredths of the total that
/// the part makes up.
pub proof fn law_percentages_are_rounded_down(part: nat, total: nat)
    requires
        0 < total,
    ensures
        percent(part, total) * total <= 100 * part,
        100 * part < (percent(part, total) + 1) * total,
{
    let share = percent(part, total);
    assert(share * total <= 100 * part && 100 * part < (share + 1) * total) by (nonlinear_arith)
        requires
            0 < total,
            share == (100 * part) / total,
    ;
}

/// While objects are missing, a report says on the line that it begins anew
/// what share of them has come, how many kilobytes these are, how many of how
/// many they are, and the same of those that are indexed. Whether a new line
/// has been begun makes no difference.
pub proof fn law_report_of_missing_objects(progress: Progress, newline: bool)
    requires
        progress.total_objects > 0,
        progress.received_objects != progress.total_objects,
    ensures
        ({
            let share = (100 * progress.received_objects) / progress.total_objects as int;
            let indexed = (100 * progress.indexed_objects) / progress.total_objects as int;
            let received = right_aligned(decimal(progress.received_objects as nat), 5);
            let total = right_aligned(decimal(progress.total_objects as nat), 5);
            status_text(progress, newline) == seq!['\r'] + right_aligned(decimal(share as nat), 3)
                + "% ("@ + right_aligned(decimal((progress.received_bytes / 1024) as nat), 4)
                + " kb, "@ + received + "/"@ + total + ") idx "@ + right_aligned(
                decimal(indexed as nat),
                3,
            ) + "% ("@ + right_aligned(decimal(progress.indexed_objects as nat), 5) + "/"@ + total
                + ")"@
        }),
{
    reveal_strlit("\r");
    assert("\r"@ =~= seq!['\r']);
}

/// When all objects are there, a report says how many of how many deltas are
/// resolved and goes back to the start of the line. The first such report
/// begins a new line.
pub proof fn law_report_of_resolved_deltas(progress: Progress)
    requires
        progress.received_objects == progress.total_objects,
    ensures
        status_text(progress, true) == "Resolving deltas "@ + decimal(
            progress.indexed_deltas as nat,
        ) + "/"@ + decimal(progress.total_deltas as nat) + "\r"@,
        status_text(progress, false) == seq!['\n'] + status_text(progress, true),
{
    reveal_strlit("\n");
    assert("\n"@ =~= seq!['\n']);
}

/// A signal replaces what it tells of and leaves the rest. A report leaves
/// everything but whether a new line has been begun: that it has been is never
/// forgotten, and comes about when all objects are there.
pub proof fn law_what_is_known(state: State, stats: Progress, path: Option<String>, n: usize, m: usize)
    ensures
        ({
            let moved = state.with_signal(Signal::Transfer { stats });
            &&& moved.progress == Some(stats)
            &&& moved.newline == state.newline
            &&& moved.path == state.path
            &&& moved.current == state.current
            &&& moved.total == state.total
        }),
        ({
            let moved = state.with_signal(Signal::Checkout { path, current: n, total: m });
            &&& moved.progress == state.progress
            &&& moved.newline == state.newline
            &&& moved.path == path
            &&& moved.current == n
            &&& moved.total == m
        }),
        state.progress == Some(stats) ==> {
            let after = state.reported();
            &&& after.progress == state.progress
            &&& after.path == state.path
            &&& after.current == state.current
            &&& after.total == state.total
            &&& after.newline <==> state.newline || stats.received_objects == stats.total_objects
            &&& state.text() == status_text(stats, state.newline)
        },
        State::unknown().progress is None,
        State::unknown().path is None,
        State::unknown().current == 0,
        State::unknown().total == 0,
        !State::unknown().newline,
{
}

/// A progress can be reported exactly when there are objects and a hundred
/// times those received, and those indexed, is still a number; and a clone's,
/// exactly when it is known besides.
pub proof fn law_what_can_be_reported(state: State, progress: Progress)
    ensures
        progress.printable() <==> progress.total_objects >= 1 && progress.received_objects * 100
            <= usize::MAX && progress.indexed_objects * 100 <= usize::MAX,
        state.progress is None ==> !state.printable(),
        state.progress == Some(progress) ==> state.printable() == progress.printable(),
{
}

/// A clone that succeeded is closed with a line feed, one that failed with
/// nothing.
pub proof fn law_closing(cloned: bool)
    ensures
        cloned ==> closing_text(cloned) == seq!['\n'],
        !cloned ==> closing_text(cloned).len() == 0,
{
    reveal_strlit("\n");
    assert("\n"@ =~= seq!['\n']);
}

} // verus!
