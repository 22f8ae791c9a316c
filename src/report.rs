//! The summary of one match: roster, kill counts and causes of death.
use vstd::prelude::*;
use crate::error::ParseError;
use crate::tokens::string_views;

verus! {

/// The attacker name that stands for the environment (falls, hazards).
pub const WORLD_NAME: &'static str = "<world>";

/// What a summary holds.
pub ghost struct SummaryView {
    pub total_kills: nat,
    /// Distinct names, in the order in which they joined.
    pub players: Seq<Seq<char>>,
    /// Kill count of each player on the roster.
    pub kills: Map<Seq<char>, nat>,
    /// How often each cause of death occurred.
    pub kills_by_means: Map<Seq<char>, nat>,
}

/// The map that pairs `keys[i]` with `vals[i]`.
pub open spec fn assoc(keys: Seq<Seq<char>>, vals: Seq<usize>) -> Map<Seq<char>, nat> {
    Map::new(|k: Seq<char>| keys.contains(k), |k: Seq<char>| vals[keys.index_of(k)] as nat)
}

/// The map with one more occurrence of `k`.
pub open spec fn bump(m: Map<Seq<char>, nat>, k: Seq<char>) -> Map<Seq<char>, nat> {
    m.insert(k, if m.contains_key(k) { m[k] + 1 } else { 1 })
}

/// A summary is consistent: the roster has no repeats, each player on it has
/// a kill count and no one else has, and no count exceeds the number of kills.
pub open spec fn view_wf(s: SummaryView) -> bool {
    &&& s.players.no_duplicates()
    &&& s.kills.dom() == s.players.to_set()
    &&& forall|k: Seq<char>| #[trigger] s.kills.contains_key(k) ==> s.kills[k] <= s.total_kills
    &&& forall|k: Seq<char>| #[trigger] s.kills_by_means.contains_key(k) ==> s.kills_by_means[k]
        <= s.total_kills
}

/// The empty summary of a match that just started.
pub open spec fn empty_summary() -> SummaryView {
    SummaryView {
        total_kills: 0,
        players: Seq::empty(),
        kills: Map::empty(),
        kills_by_means: Map::empty(),
    }
}

/// The summary after a player joins: a name already on the roster changes
/// nothing; a new one is appended with a kill count of 0.
pub open spec fn with_player(s: SummaryView, name: Seq<char>) -> SummaryView {
    if s.players.contains(name) {
        s
    } else {
        SummaryView { players: s.players.push(name), kills: s.kills.insert(name, 0), ..s }
    }
}

/// The summary and the result after a kill is recorded. An unknown victim
/// changes nothing. Otherwise the kill and its cause are counted; the
/// environment takes one kill from the victim (never below 0); an unknown
/// attacker is refused after the counting; a known attacker gains one kill.
pub open spec fn kill_outcome(
    s: SummaryView,
    attacker: Seq<char>,
    victim: Seq<char>,
    cause: Seq<char>,
) -> (SummaryView, Result<(), ParseError>) {
    if !s.players.contains(victim) {
        (s, Err(ParseError::UnknownPlayer))
    } else {
        let counted = SummaryView {
            total_kills: s.total_kills + 1,
            kills_by_means: bump(s.kills_by_means, cause),
            ..s
        };
        if attacker == WORLD_NAME@ {
            let k = s.kills[victim];
            (
                SummaryView {
                    kills: s.kills.insert(victim, if k > 0 { (k - 1) as nat } else { 0 }),
                    ..counted
                },
                Ok(()),
            )
        } else if !s.players.contains(attacker) {
            (counted, Err(ParseError::UnknownPlayer))
        } else {
            (SummaryView { kills: bump(s.kills, attacker), ..counted }, Ok(()))
        }
    }
}

proof fn lemma_assoc_index(keys: Seq<Seq<char>>, vals: Seq<usize>, i: int)
    requires
        keys.no_duplicates(),
        keys.len() == vals.len(),
        0 <= i < keys.len(),
    ensures
        assoc(keys, vals).contains_key(keys[i]),
        assoc(keys, vals)[keys[i]] == vals[i] as nat,
{
    assert(keys.contains(keys[i]));
    let j = keys.index_of(keys[i]);
    assert(keys[j] == keys[i]);
}

proof fn lemma_assoc_update(keys: Seq<Seq<char>>, vals: Seq<usize>, i: int, v: usize)
    requires
        keys.no_duplicates(),
        keys.len() == vals.len(),
        0 <= i < keys.len(),
    ensures
        assoc(keys, vals.update(i, v)) == assoc(keys, vals).insert(keys[i], v as nat),
{
    let a = assoc(keys, vals.update(i, v));
    let b = assoc(keys, vals).insert(keys[i], v as nat);
    assert(keys.contains(keys[i]));
    assert forall|k: Seq<char>| a.contains_key(k) implies a[k] == b[k] by {
        let j = keys.index_of(k);
        assert(keys[j] == k);
        if k == keys[i] {
            assert(j == i);
        } else {
            assert(j != i);
        }
    }
    assert(a =~= b);
}

proof fn lemma_assoc_push(keys: Seq<Seq<char>>, vals: Seq<usize>, k: Seq<char>, v: usize)
    requires
        keys.no_duplicates(),
        keys.len() == vals.len(),
        !keys.contains(k),
    ensures
        assoc(keys.push(k), vals.push(v)) == assoc(keys, vals).insert(k, v as nat),
        keys.push(k).no_duplicates(),
{
    let nk = keys.push(k);
    let a = assoc(nk, vals.push(v));
    let b = assoc(keys, vals).insert(k, v as nat);
    assert(nk[keys.len() as int] == k);
    assert forall|x: Seq<char>| a.contains_key(x) <==> b.contains_key(x) by {
        if keys.contains(x) {
            let j = keys.index_of(x);
            assert(nk[j] == x);
        }
        if nk.contains(x) && x != k {
            let j = nk.index_of(x);
            assert(keys[j] == x);
        }
    }
    assert forall|x: Seq<char>| a.contains_key(x) implies a[x] == b[x] by {
        let j = nk.index_of(x);
        assert(nk[j] == x);
        if x == k {
            assert(j == keys.len());
        } else {
            assert(j < keys.len());
            assert(keys[j] == x);
            assert(keys.contains(x));
            let j2 = keys.index_of(x);
            assert(keys[j2] == x);
            assert(nk[j2] == x);
        }
    }
    assert(a =~= b);
    assert forall|p: int, q: int| 0 <= p < nk.len() && 0 <= q < nk.len() && p != q implies nk[p]
        != nk[q] by {
        if p < keys.len() && q < keys.len() {
        } else if p < keys.len() {
            assert(keys[p] == nk[p]);
        } else {
            assert(keys[q] == nk[q]);
        }
    }
}

proof fn lemma_assoc_bounded(keys: Seq<Seq<char>>, vals: Seq<usize>, bound: nat)
    requires
        keys.len() == vals.len(),
        forall|i: int| 0 <= i < vals.len() ==> vals[i] <= bound,
    ensures
        forall|k: Seq<char>| #[trigger] assoc(keys, vals).contains_key(k) ==> assoc(keys, vals)[k]
            <= bound,
        assoc(keys, vals).dom() == keys.to_set(),
{
    assert forall|k: Seq<char>| #[trigger] assoc(keys, vals).contains_key(k) implies assoc(
        keys,
        vals,
    )[k] <= bound by {
        let j = keys.index_of(k);
        assert(keys[j] == k);
    }
    assert(assoc(keys, vals).dom() =~= keys.to_set());
}

/// The index at which `names` holds `name`, if it does.
fn find_name(names: &Vec<String>, name: &String) -> (r: Option<usize>)
    ensures
        match r {
            Some(i) => i < names@.len() && string_views(names@)[i as int] == name@,
            None => !string_views(names@).contains(name@),
        },
{
    let mut i: usize = 0;
    while i < names.len()
        invariant
            i <= names@.len(),
            forall|j: int| 0 <= j < i ==> string_views(names@)[j] != name@,
        decreases names@.len() - i,
    {
        if names[i] == *name {
            return Some(i);
        }
        i += 1;
    }
    None
}

/// The report of one match.
pub struct QuakeGameSummary {
    total_kills: usize,
    players: Vec<String>,
    kills: Vec<usize>,
    cause_names: Vec<String>,
    cause_counts: Vec<usize>,
}

impl View for QuakeGameSummary {
    type V = SummaryView;

    closed spec fn view(&self) -> SummaryView {
        SummaryView {
            total_kills: self.total_kills as nat,
            players: string_views(self.players@),
            kills: assoc(string_views(self.players@), self.kills@),
            kills_by_means: assoc(string_views(self.cause_names@), self.cause_counts@),
        }
    }
}

impl QuakeGameSummary {
    /// Names and counts line up, names are not repeated, and no count
    /// exceeds the kill total.
    pub closed spec fn wf(&self) -> bool {
        &&& self.players@.len() == self.kills@.len()
        &&& self.cause_names@.len() == self.cause_counts@.len()
        &&& string_views(self.players@).no_duplicates()
        &&& string_views(self.cause_names@).no_duplicates()
        &&& forall|i: int| 0 <= i < self.kills@.len() ==> self.kills@[i] <= self.total_kills
        &&& forall|i: int| 0 <= i < self.cause_counts@.len() ==> self.cause_counts@[i]
            <= self.total_kills
    }

    /// A well-formed summary is consistent.
    pub proof fn lemma_wf(&self)
        requires
            self.wf(),
        ensures
            view_wf(self@),
    {
        lemma_assoc_bounded(string_views(self.players@), self.kills@, self.total_kills as nat);
        lemma_assoc_bounded(
            string_views(self.cause_names@),
            self.cause_counts@,
            self.total_kills as nat,
        );
    }

    pub fn new() -> (r: QuakeGameSummary)
        ensures
            r.wf(),
            r@ == empty_summary(),
    {
        let r = QuakeGameSummary {
            total_kills: 0,
            players: Vec::new(),
            kills: Vec::new(),
            cause_names: Vec::new(),
            cause_counts: Vec::new(),
        };
        assert(r@.players =~= Seq::<Seq<char>>::empty());
        assert(r@.kills =~= Map::<Seq<char>, nat>::empty());
        assert(r@.kills_by_means =~= Map::<Seq<char>, nat>::empty());
        r
    }

    /// Adds a player to the roster unless the name is already on it.
    pub fn add_player(&mut self, player_name: String)
        requires
            old(self).wf(),
        ensures
            final(self).wf(),
            final(self)@ == with_player(old(self)@, player_name@),
    {
        match find_name(&self.players, &player_name) {
            Some(_) => {},
            None => {
                let ghost keys = string_views(self.players@);
                proof {
                    lemma_assoc_push(keys, self.kills@, player_name@, 0);
                }
                self.players.push(player_name);
                self.kills.push(0);
                assert(string_views(self.players@) =~= keys.push(player_name@));
            },
        }
    }

    /// Counts one more occurrence of a cause of death.
    fn count_cause(&mut self, death_cause: String)
        requires
            old(self).wf(),
            old(self).total_kills > 0,
            forall|i: int|
                0 <= i < old(self).cause_counts@.len() ==> old(self).cause_counts@[i] < old(
                    self,
                ).total_kills,
        ensures
            final(self).wf(),
            final(self)@ == (SummaryView {
                kills_by_means: bump(old(self)@.kills_by_means, death_cause@),
                ..old(self)@
            }),
    {
        let ghost keys = string_views(self.cause_names@);
        match find_name(&self.cause_names, &death_cause) {
            Some(i) => {
                let c = self.cause_counts[i];
                proof {
                    lemma_assoc_index(keys, self.cause_counts@, i as int);
                    lemma_assoc_update(keys, self.cause_counts@, i as int, (c + 1) as usize);
                }
                self.cause_counts.set(i, c + 1);
            },
            None => {
                proof {
                    lemma_assoc_push(keys, self.cause_counts@, death_cause@, 1);
                }
                self.cause_names.push(death_cause);
                self.cause_counts.push(1);
                assert(string_views(self.cause_names@) =~= keys.push(death_cause@));
            },
        }
    }

    /// Records a kill. The victim must be on the roster, and so must the
    /// attacker unless it is the environment.
    pub fn process_kill(&mut self, killer_name: String, killed_name: String, death_cause: String)
        -> (r: Result<(), ParseError>)
        requires
            old(self).wf(),
            old(self)@.total_kills < usize::MAX,
        ensures
            final(self).wf(),
            (final(self)@, r) == kill_outcome(old(self)@, killer_name@, killed_name@, death_cause@),
    {
        let ghost keys = string_views(self.players@);
        let vi = match find_name(&self.players, &killed_name) {
            Some(i) => i,
            None => return Err(ParseError::UnknownPlayer),
        };
        self.total_kills = self.total_kills + 1;
        self.count_cause(death_cause);
        proof {
            lemma_assoc_index(keys, self.kills@, vi as int);
        }
        if killer_name == WORLD_NAME.to_owned() {
            let k = self.kills[vi];
            if k > 0 {
                proof {
                    lemma_assoc_update(keys, self.kills@, vi as int, (k - 1) as usize);
                }
                self.kills.set(vi, k - 1);
            } else {
                assert(self@.kills.insert(killed_name@, 0) =~= self@.kills);
            }
            return Ok(());
        }
        let ai = match find_name(&self.players, &killer_name) {
            Some(i) => i,
            None => return Err(ParseError::UnknownPlayer),
        };
        let k = self.kills[ai];
        proof {
            lemma_assoc_index(keys, self.kills@, ai as int);
            lemma_assoc_update(keys, self.kills@, ai as int, (k + 1) as usize);
        }
        self.kills.set(ai, k + 1);
        Ok(())
    }

    pub fn total_kills(&self) -> (r: usize)
        ensures
            r == self@.total_kills,
    {
        self.total_kills
    }

    /// The roster, in the order in which players joined.
    pub fn players(&self) -> (r: &Vec<String>)
        ensures
            string_views(r@) == self@.players,
    {
        &self.players
    }

    /// The kill count of a player, if the player is on the roster.
    pub fn kill_count(&self, name: &str) -> (r: Option<usize>)
        requires
            self.wf(),
        ensures
            r is Some <==> self@.kills.contains_key(name@),
            r is Some ==> r->Some_0 == self@.kills[name@],
    {
        let key = name.to_owned();
        match find_name(&self.players, &key) {
            Some(i) => {
                proof {
                    lemma_assoc_index(string_views(self.players@), self.kills@, i as int);
                }
                Some(self.kills[i])
            },
            None => None,
        }
    }

    /// The causes of death seen so far, each once.
    pub fn causes(&self) -> (r: &Vec<String>)
        requires
            self.wf(),
        ensures
            string_views(r@).to_set() == self@.kills_by_means.dom(),
            string_views(r@).no_duplicates(),
    {
        proof {
            lemma_assoc_bounded(
                string_views(self.cause_names@),
                self.cause_counts@,
                self.total_kills as nat,
            );
        }
        &self.cause_names
    }

    /// How often a cause of death occurred, if it occurred at all.
    pub fn cause_count(&self, cause: &str) -> (r: Option<usize>)
        requires
            self.wf(),
        ensures
            r is Some <==> self@.kills_by_means.contains_key(cause@),
            r is Some ==> r->Some_0 == self@.kills_by_means[cause@],
    {
        let key = cause.to_owned();
        match find_name(&self.cause_names, &key) {
            Some(i) => {
                proof {
                    lemma_assoc_index(string_views(self.cause_names@), self.cause_counts@, i as int);
                }
                Some(self.cause_counts[i])
            },
            None => None,
        }
    }
}

/// Adding the same name twice is the same as adding it once: the roster
/// then holds the name exactly once, and its kill count is kept (0 for a
/// newcomer).
pub proof fn lemma_add_player_twice(s: SummaryView, name: Seq<char>)
    requires
        view_wf(s),
    ensures
        with_player(with_player(s, name), name) == with_player(s, name),
        exists|i: int|
            0 <= i < with_player(s, name).players.len() && with_player(s, name).players[i] == name
                && forall|j: int|
                0 <= j < with_player(s, name).players.len() && #[trigger] with_player(
                    s,
                    name,
                ).players[j] == name ==> j == i,
        with_player(s, name).kills[name] == (if s.players.contains(name) {
            s.kills[name]
        } else {
            0
        }),
{
    let t = with_player(s, name);
    if s.players.contains(name) {
        let i = s.players.index_of(name);
        assert(t.players[i] == name);
    } else {
        let i = s.players.len() as int;
        assert(t.players[i] == name);
        assert forall|j: int| 0 <= j < t.players.len() && #[trigger] t.players[j] == name implies j
            == i by {
            if j < i {
                assert(s.players[j] == name);
            }
        }
        assert(t.players.contains(name));
    }
}

/// A player killed by the environment loses one kill, never going below 0:
/// one with no kills stays at 0.
pub proof fn lemma_world_kill_floor(s: SummaryView, victim: Seq<char>, cause: Seq<char>)
    requires
        view_wf(s),
        s.players.contains(victim),
    ensures
        kill_outcome(s, WORLD_NAME@, victim, cause).1 == Ok::<(), ParseError>(()),
        kill_outcome(s, WORLD_NAME@, victim, cause).0.kills[victim] == (if s.kills[victim] > 0 {
            s.kills[victim] - 1
        } else {
            0
        }),
        s.kills[victim] == 0 ==> kill_outcome(s, WORLD_NAME@, victim, cause).0.kills[victim] == 0,
{
}

/// A player on the roster who kills themself gains exactly one kill, and
/// the cause is counted once more.
pub proof fn lemma_self_kill(s: SummaryView, name: Seq<char>, cause: Seq<char>)
    requires
        view_wf(s),
        name != WORLD_NAME@,
    ensures
        ({
            let joined = with_player(s, name);
            let (after, r) = kill_outcome(joined, name, name, cause);
            &&& r == Ok::<(), ParseError>(())
            &&& after.kills[name] == joined.kills[name] + 1
            &&& after.kills_by_means[cause] == (if joined.kills_by_means.contains_key(cause) {
                joined.kills_by_means[cause]
            } else {
                0
            }) + 1
            &&& after.total_kills == joined.total_kills + 1
        }),
{
    let joined = with_player(s, name);
    if !s.players.contains(name) {
        assert(joined.players[s.players.len() as int] == name);
    }
    assert(joined.players.contains(name));
    assert(joined.kills.contains_key(name)) by {
        if s.players.contains(name) {
            assert(s.players.to_set().contains(name));
        }
    }
}

/// A kill whose victim is not on the roster is refused and changes nothing.
pub proof fn lemma_unknown_victim(
    s: SummaryView,
    attacker: Seq<char>,
    victim: Seq<char>,
    cause: Seq<char>,
)
    requires
        !s.players.contains(victim),
    ensures
        kill_outcome(s, attacker, victim, cause) == (s, Err::<(), ParseError>(
            ParseError::UnknownPlayer,
        )),
{
}

} // verus!
