//! The session manager: reads log lines one by one and routes each event to
//! the summary of the match in progress.
use vstd::prelude::*;
use crate::error::ParseError;
use crate::event_type::{classify, EventType};
use crate::report::{empty_summary, kill_outcome, with_player, QuakeGameSummary, SummaryView};
use crate::tokens::{
    kill_fields, read_kill_fields, read_player_name, split_spaces, tokenize, trim, trim_str,
    userinfo_name, Tokens,
};

verus! {

/// The decimal digit for `d` (below 10).
pub open spec fn digit_char(d: nat) -> char {
    "0123456789"@[d as int]
}

/// The decimal digits of `n`, without leading zeros.
pub open spec fn decimal(n: nat) -> Seq<char>
    decreases n,
{
    if n < 10 {
        seq![digit_char(n)]
    } else {
        decimal(n / 10).push(digit_char(n % 10))
    }
}

/// The key of the `n`-th match: `game_<n>`.
pub open spec fn game_key(n: nat) -> Seq<char> {
    "game_"@ + decimal(n)
}

/// Appends the decimal digits of `n`.
fn push_decimal(out: &mut String, n: usize)
    ensures
        final(out)@ == old(out)@ + decimal(n as nat),
    decreases n,
{
    let digits = "0123456789";
    proof {
        reveal_strlit("0123456789");
    }
    let d = n % 10;
    if n >= 10 {
        push_decimal(out, n / 10);
    }
    out.append(digits.substring_char(d, d + 1));
    assert(digits@.subrange(d as int, d + 1) =~= seq![digit_char(d as nat)]);
}

/// The key of the `n`-th match.
pub fn game_id(n: usize) -> (r: String)
    ensures
        r@ == game_key(n as nat),
{
    let mut out = "game_".to_owned();
    push_decimal(&mut out, n);
    out
}

/// What a sequence of summaries holds.
pub open spec fn summary_views(v: Seq<QuakeGameSummary>) -> Seq<SummaryView> {
    v.map_values(|g: QuakeGameSummary| g@)
}

/// The summaries after one more line, and the line's result: the line is
/// trimmed of white space at both ends, then read as `trimmed_outcome` says.
pub open spec fn line_outcome(games: Seq<SummaryView>, line: Seq<char>) -> (
    Seq<SummaryView>,
    Result<(), ParseError>,
) {
    trimmed_outcome(games, trim(line))
}

/// The summaries after one more line, already trimmed, and its result. The
/// first token is the time and is ignored; the second names the event; the
/// rest are the event's fields. A match start opens a new summary; a roster
/// or kill event goes to the summary of the match in progress, the last one.
pub open spec fn trimmed_outcome(games: Seq<SummaryView>, text: Seq<char>) -> (
    Seq<SummaryView>,
    Result<(), ParseError>,
) {
    let toks = split_spaces(text);
    if toks.len() < 2 {
        (games, Err(ParseError::MalformedLine))
    } else {
        let fields = toks.skip(2);
        match classify(toks[1]) {
            EventType::InitGame => (games.push(empty_summary()), Ok(())),
            EventType::ClientUserinfoChanged => match userinfo_name(fields) {
                None => (games, Err(ParseError::MalformedEvent)),
                Some(name) => if games.len() == 0 {
                    (games, Err(ParseError::SessionNotFound))
                } else {
                    (games.update(games.len() - 1, with_player(games.last(), name)), Ok(()))
                },
            },
            EventType::Kill => match kill_fields(fields) {
                None => (games, Err(ParseError::MalformedEvent)),
                Some((attacker, victim, cause)) => if games.len() == 0 {
                    (games, Err(ParseError::SessionNotFound))
                } else {
                    let (g, r) = kill_outcome(games.last(), attacker, victim, cause);
                    (games.update(games.len() - 1, g), r)
                },
            },
            EventType::Unknown => (games, Ok(())),
        }
    }
}

/// Whether one more kill can be counted in the match in progress without
/// its counters overflowing.
pub open spec fn has_room_spec(games: Seq<SummaryView>) -> bool {
    games.len() > 0 ==> games.last().total_kills < usize::MAX
}

/// Reads a log line by line; owns the summary of every match seen.
pub struct QuakeLogParser {
    game_summaries: Vec<QuakeGameSummary>,
}

impl View for QuakeLogParser {
    type V = Seq<SummaryView>;

    /// The summaries in order: the one at index `k` is the match `game_<k+1>`.
    closed spec fn view(&self) -> Seq<SummaryView> {
        summary_views(self.game_summaries@)
    }
}

impl QuakeLogParser {
    /// Every summary is well formed.
    pub closed spec fn wf(&self) -> bool {
        forall|k: int| 0 <= k < self.game_summaries@.len() ==> #[trigger] self.game_summaries@[k].wf()
    }

    pub fn new() -> (r: QuakeLogParser)
        ensures
            r.wf(),
            r@ == Seq::<SummaryView>::empty(),
    {
        let r = QuakeLogParser { game_summaries: Vec::new() };
        assert(r@ =~= Seq::<SummaryView>::empty());
        r
    }

    /// Whether the next line can be read without a counter overflowing.
    pub fn has_room(&self) -> (r: bool)
        ensures
            r == has_room_spec(self@),
    {
        let n = self.game_summaries.len();
        n == 0 || self.game_summaries[n - 1].total_kills() < usize::MAX
    }

    /// The key of the match in progress (`game_0` before any has started).
    pub fn current_game_id(&self) -> (r: String)
        ensures
            r@ == game_key(self@.len()),
    {
        game_id(self.game_summaries.len())
    }

    /// The summaries, in the order in which the matches started.
    pub fn summaries(&self) -> (r: &Vec<QuakeGameSummary>)
        requires
            self.wf(),
        ensures
            summary_views(r@) == self@,
            forall|k: int| 0 <= k < r@.len() ==> #[trigger] r@[k].wf(),
    {
        &self.game_summaries
    }

    fn process_player_connected_event(&mut self, tokens: &mut Tokens) -> (r: Result<(), ParseError>)
        requires
            old(self).wf(),
            old(tokens).wf(),
        ensures
            final(self).wf(),
            final(tokens).wf(),
            (final(self)@, r) == (match userinfo_name(old(tokens).rest()) {
                None => (old(self)@, Err(ParseError::MalformedEvent)),
                Some(name) => if old(self)@.len() == 0 {
                    (old(self)@, Err(ParseError::SessionNotFound))
                } else {
                    (
                        old(self)@.update(old(self)@.len() - 1, with_player(old(self)@.last(), name)),
                        Ok(()),
                    )
                },
            }),
    {
        let player_name = match read_player_name(tokens) {
            Ok(n) => n,
            Err(e) => return Err(e),
        };
        let ghost games = self@;
        match self.game_summaries.pop() {
            None => Err(ParseError::SessionNotFound),
            Some(mut game) => {
                assert(game.wf());
                game.add_player(player_name);
                self.game_summaries.push(game);
                assert(self@ =~= games.update(games.len() - 1, with_player(games.last(), player_name@)));
                Ok(())
            },
        }
    }

    fn process_kill_event(&mut self, tokens: &mut Tokens) -> (r: Result<(), ParseError>)
        requires
            old(self).wf(),
            old(tokens).wf(),
            has_room_spec(old(self)@),
        ensures
            final(self).wf(),
            final(tokens).wf(),
            (final(self)@, r) == (match kill_fields(old(tokens).rest()) {
                None => (old(self)@, Err(ParseError::MalformedEvent)),
                Some((attacker, victim, cause)) => if old(self)@.len() == 0 {
                    (old(self)@, Err(ParseError::SessionNotFound))
                } else {
                    let (g, r) = kill_outcome(old(self)@.last(), attacker, victim, cause);
                    (old(self)@.update(old(self)@.len() - 1, g), r)
                },
            }),
    {
        let (killer_name, killed_name, death_cause) = match read_kill_fields(tokens) {
            Ok(f) => f,
            Err(e) => return Err(e),
        };
        let ghost games = self@;
        match self.game_summaries.pop() {
            None => Err(ParseError::SessionNotFound),
            Some(mut game) => {
                assert(game.wf());
                let r = game.process_kill(killer_name, killed_name, death_cause);
                self.game_summaries.push(game);
                assert(self@ =~= games.update(games.len() - 1, game@));
                r
            },
        }
    }

    /// Reads one log line and applies its event.
    pub fn read_line(&mut self, line: String) -> (r: Result<(), ParseError>)
        requires
            old(self).wf(),
            has_room_spec(old(self)@),
        ensures
            final(self).wf(),
            (final(self)@, r) == line_outcome(old(self)@, line@),
    {
        self.read_trimmed_line(trim_str(line.as_str()))
    }

    /// Reads one log line that has no white space at either end and applies
    /// its event.
    pub fn read_trimmed_line(&mut self, text: &str) -> (r: Result<(), ParseError>)
        requires
            old(self).wf(),
            has_room_spec(old(self)@),
        ensures
            final(self).wf(),
            (final(self)@, r) == trimmed_outcome(old(self)@, text@),
    {
        let mut tokens = Tokens::split(text);
        let ghost toks = tokens.rest();
        tokens.next();
        let event_type = match tokens.next() {
            Some(token) => EventType::parse_from_string(token.as_str()),
            None => return Err(ParseError::MalformedLine),
        };
        assert(tokens.rest() =~= toks.skip(2));
        match event_type {
            EventType::InitGame => {
                let ghost games = self@;
                self.game_summaries.push(QuakeGameSummary::new());
                assert(self@ =~= games.push(empty_summary()));
                Ok(())
            },
            EventType::ClientUserinfoChanged => self.process_player_connected_event(&mut tokens),
            EventType::Kill => self.process_kill_event(&mut tokens),
            EventType::Unknown => Ok(()),
        }
    }
}

/// The kind of event on a line, if the line has an event token.
pub open spec fn line_kind(line: Seq<char>) -> Option<EventType> {
    if tokenize(line).len() < 2 {
        None
    } else {
        Some(classify(tokenize(line)[1]))
    }
}

/// The summaries after a whole log, or the error of its first refused line.
pub open spec fn run_log(lines: Seq<Seq<char>>) -> Result<Seq<SummaryView>, ParseError>
    decreases lines.len(),
{
    if lines.len() == 0 {
        Ok(Seq::empty())
    } else {
        match run_log(lines.drop_last()) {
            Err(e) => Err(e),
            Ok(games) => {
                let (next, r) = line_outcome(games, lines.last());
                match r {
                    Ok(_) => Ok(next),
                    Err(e) => Err(e),
                }
            },
        }
    }
}

/// The number of match-start lines.
pub open spec fn match_starts(lines: Seq<Seq<char>>) -> nat
    decreases lines.len(),
{
    if lines.len() == 0 {
        0
    } else {
        match_starts(lines.drop_last()) + if line_kind(lines.last()) == Some(EventType::InitGame) {
            1nat
        } else {
            0nat
        }
    }
}

/// The number of kill lines in the match at index `k` (`game_<k+1>`): those
/// after exactly `k + 1` match-start lines.
pub open spec fn kill_lines(lines: Seq<Seq<char>>, k: nat) -> nat
    decreases lines.len(),
{
    if lines.len() == 0 {
        0
    } else {
        kill_lines(lines.drop_last(), k) + if line_kind(lines.last()) == Some(EventType::Kill)
            && match_starts(lines.drop_last()) == k + 1 {
            1nat
        } else {
            0nat
        }
    }
}

/// A match-start line opens one more summary, empty, after the others and
/// changes no other; any other line touches only the summary of the match in
/// progress.
pub proof fn lemma_line_routing(games: Seq<SummaryView>, line: Seq<char>)
    ensures
        ({
            let (next, r) = line_outcome(games, line);
            &&& line_kind(line) == Some(EventType::InitGame) ==> next == games.push(empty_summary())
                && r is Ok
            &&& line_kind(line) != Some(EventType::InitGame) ==> next.len() == games.len()
                && forall|k: int| 0 <= k < games.len() - 1 ==> #[trigger] next[k] == games[k]
        }),
{
}

/// A kill line read without error adds one to the kill total of the match
/// in progress; no other line changes any kill total.
pub proof fn lemma_line_kill_total(games: Seq<SummaryView>, line: Seq<char>)
    ensures
        ({
            let (next, r) = line_outcome(games, line);
            &&& line_kind(line) == Some(EventType::Kill) && r is Ok ==> games.len() > 0
                && next.len() == games.len() && next.last().total_kills == games.last().total_kills
                + 1
            &&& line_kind(line) != Some(EventType::Kill) ==> next.len() >= games.len() && forall|
                k: int,
            | 0 <= k < games.len() ==> (#[trigger] next[k]).total_kills == games[k].total_kills
        }),
{
    let (next, r) = line_outcome(games, line);
    if line_kind(line) != Some(EventType::Kill) && line_kind(line) != Some(EventType::InitGame) {
        assert forall|k: int| 0 <= k < games.len() implies (#[trigger] next[k]).total_kills
            == games[k].total_kills by {
            if k == games.len() - 1 {
                assert(next[k] == next.last());
            }
        }
    }
}

/// A kill line whose victim is not on the roster of the match in progress
/// is refused with `UnknownPlayer` and changes nothing.
pub proof fn lemma_unknown_victim_line(games: Seq<SummaryView>, line: Seq<char>)
    requires
        games.len() > 0,
        line_kind(line) == Some(EventType::Kill),
        kill_fields(tokenize(line).skip(2)) is Some,
        !games.last().players.contains(kill_fields(tokenize(line).skip(2))->Some_0.1),
    ensures
        line_outcome(games, line) == (games, Err::<(), ParseError>(ParseError::UnknownPlayer)),
{
    assert(games.update(games.len() - 1, games.last()) =~= games);
}

proof fn lemma_no_kill_lines_ahead(lines: Seq<Seq<char>>, k: nat)
    requires
        k >= match_starts(lines),
    ensures
        kill_lines(lines, k) == 0,
    decreases lines.len(),
{
    if lines.len() > 0 {
        lemma_no_kill_lines_ahead(lines.drop_last(), k);
    }
}

/// In a log read without error, there is one summary per match-start line,
/// and the kill total of each match is the number of kill lines in it.
pub proof fn lemma_total_kills(lines: Seq<Seq<char>>)
    requires
        run_log(lines) is Ok,
    ensures
        run_log(lines)->Ok_0.len() == match_starts(lines),
        forall|k: int|
            0 <= k < run_log(lines)->Ok_0.len() ==> (#[trigger] run_log(lines)->Ok_0[k]).total_kills
                == kill_lines(lines, k as nat),
    decreases lines.len(),
{
    if lines.len() > 0 {
        let prev = lines.drop_last();
        let l = lines.last();
        lemma_total_kills(prev);
        let games = run_log(prev)->Ok_0;
        let next = run_log(lines)->Ok_0;
        lemma_line_routing(games, l);
        if line_kind(l) == Some(EventType::InitGame) {
            lemma_no_kill_lines_ahead(prev, games.len() as nat);
            assert forall|k: int| 0 <= k < next.len() implies (#[trigger] next[k]).total_kills
                == kill_lines(lines, k as nat) by {
                if k < games.len() {
                    assert(next[k] == games[k]);
                }
            }
        } else {
            assert forall|k: int| 0 <= k < next.len() implies (#[trigger] next[k]).total_kills
                == kill_lines(lines, k as nat) by {
                if k < games.len() - 1 {
                    assert(next[k] == games[k]);
                } else {
                    assert(next[k] == next.last());
                }
            }
        }
    }
}

/// Once a line is refused, the log is refused with that line's error,
/// whatever follows it.
pub proof fn lemma_refusal_is_final(lines: Seq<Seq<char>>, i: int)
    requires
        0 <= i < lines.len(),
        run_log(lines.take(i)) is Ok,
        line_outcome(run_log(lines.take(i))->Ok_0, lines[i]).1 is Err,
    ensures
        run_log(lines) == Err::<Seq<SummaryView>, ParseError>(
            line_outcome(run_log(lines.take(i))->Ok_0, lines[i]).1->Err_0,
        ),
    decreases lines.len(),
{
    if i == lines.len() - 1 {
        assert(lines.drop_last() =~= lines.take(i));
    } else {
        assert(lines.drop_last().take(i) =~= lines.take(i));
        lemma_refusal_is_final(lines.drop_last(), i);
    }
}

/// A kill line whose victim is not on the roster of the match in progress
/// refuses the whole log with `UnknownPlayer`.
pub proof fn lemma_unknown_victim_refuses_log(lines: Seq<Seq<char>>, i: int)
    requires
        0 <= i < lines.len(),
        run_log(lines.take(i)) is Ok,
        run_log(lines.take(i))->Ok_0.len() > 0,
        line_kind(lines[i]) == Some(EventType::Kill),
        kill_fields(tokenize(lines[i]).skip(2)) is Some,
        !run_log(lines.take(i))->Ok_0.last().players.contains(
            kill_fields(tokenize(lines[i]).skip(2))->Some_0.1,
        ),
    ensures
        run_log(lines) == Err::<Seq<SummaryView>, ParseError>(ParseError::UnknownPlayer),
{
    lemma_unknown_victim_line(run_log(lines.take(i))->Ok_0, lines[i]);
    lemma_refusal_is_final(lines, i);
}

} // verus!
