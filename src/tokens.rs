//! Splitting a line into space-separated tokens, and the cursor over them
//! from which event fields are read.
use vstd::prelude::*;
use crate::error::ParseError;

verus! {

/// The characters with the Unicode White_Space property, those that
/// `char::is_whitespace` and `str::trim` take as white space.
pub open spec fn white_space(c: char) -> bool {
    let u = c as u32;
    ||| 0x9 <= u <= 0xD
    ||| u == 0x20
    ||| u == 0x85
    ||| u == 0xA0
    ||| u == 0x1680
    ||| 0x2000 <= u <= 0x200A
    ||| u == 0x2028
    ||| u == 0x2029
    ||| u == 0x202F
    ||| u == 0x205F
    ||| u == 0x3000
}

/// Whether the character is white space.
pub fn is_white(c: char) -> (r: bool)
    ensures
        r == white_space(c),
{
    let u = c as u32;
    (0x9 <= u && u <= 0xD) || u == 0x20 || u == 0x85 || u == 0xA0 || u == 0x1680 || (0x2000 <= u
        && u <= 0x200A) || u == 0x2028 || u == 0x2029 || u == 0x202F || u == 0x205F || u == 0x3000
}

/// The text without its leading white space.
pub open spec fn trim_start(s: Seq<char>) -> Seq<char>
    decreases s.len(),
{
    if s.len() > 0 && white_space(s[0]) {
        trim_start(s.drop_first())
    } else {
        s
    }
}

/// The text without its trailing white space.
pub open spec fn trim_end(s: Seq<char>) -> Seq<char>
    decreases s.len(),
{
    if s.len() > 0 && white_space(s.last()) {
        trim_end(s.drop_last())
    } else {
        s
    }
}

/// The text without white space at either end.
pub open spec fn trim(s: Seq<char>) -> Seq<char> {
    trim_end(trim_start(s))
}

/// The pieces between single spaces: two spaces in a row give an empty
/// piece, and there is always at least one piece.
pub open spec fn split_spaces(s: Seq<char>) -> Seq<Seq<char>>
    decreases s.len(),
{
    if s.len() == 0 {
        seq![Seq::<char>::empty()]
    } else {
        let init = split_spaces(s.drop_last());
        if s.last() == ' ' {
            init.push(Seq::<char>::empty())
        } else {
            init.update(init.len() - 1, init.last().push(s.last()))
        }
    }
}

/// The tokens of a log line.
pub open spec fn tokenize(line: Seq<char>) -> Seq<Seq<char>> {
    split_spaces(trim(line))
}

/// Tokens put back together with one space between each two.
pub open spec fn join_spaces(ts: Seq<Seq<char>>) -> Seq<char>
    decreases ts.len(),
{
    if ts.len() == 0 {
        Seq::<char>::empty()
    } else if ts.len() == 1 {
        ts[0]
    } else {
        join_spaces(ts.drop_last()) + seq![' '] + ts.last()
    }
}

/// The text of each string.
pub open spec fn string_views(v: Seq<String>) -> Seq<Seq<char>> {
    v.map_values(|t: String| t@)
}

/// The text without white space at either end, as `str::trim` gives it.
pub fn trim_str(s: &str) -> (r: &str)
    ensures
        r@ == trim(s@),
{
    let n = s.unicode_len();
    let mut i: usize = 0;
    assert(s@.subrange(0, n as int) =~= s@);
    while i < n && is_white(s.get_char(i))
        invariant
            i <= n,
            n == s@.len(),
            trim_start(s@) == trim_start(s@.subrange(i as int, n as int)),
        decreases n - i,
    {
        assert(s@.subrange(i as int, n as int).drop_first() =~= s@.subrange(i + 1, n as int));
        i += 1;
    }
    assert(trim_start(s@.subrange(i as int, n as int)) == s@.subrange(i as int, n as int));
    let mut j: usize = n;
    while j > i && is_white(s.get_char(j - 1))
        invariant
            i <= j <= n,
            n == s@.len(),
            trim(s@) == trim_end(s@.subrange(i as int, j as int)),
        decreases j - i,
    {
        assert(s@.subrange(i as int, j as int).drop_last() =~= s@.subrange(i as int, j - 1));
        j -= 1;
    }
    s.substring_char(i, j)
}

/// The pieces of `s` between single spaces.
pub fn split_on_spaces(s: &str) -> (r: Vec<String>)
    ensures
        string_views(r@) == split_spaces(s@),
{
    let n = s.unicode_len();
    let mut out: Vec<String> = Vec::new();
    let mut start: usize = 0;
    let mut i: usize = 0;
    assert(s@.subrange(0, 0) =~= Seq::<char>::empty());
    assert(string_views(out@).push(s@.subrange(0, 0)) =~= split_spaces(s@.subrange(0, 0)));
    while i < n
        invariant
            start <= i <= n,
            n == s@.len(),
            string_views(out@).push(s@.subrange(start as int, i as int)) == split_spaces(
                s@.subrange(0, i as int),
            ),
        decreases n - i,
    {
        let c = s.get_char(i);
        let ghost pre = s@.subrange(0, i as int);
        let ghost cur = s@.subrange(0, i + 1);
        assert(cur.drop_last() =~= pre);
        assert(cur.last() == c);
        if c == ' ' {
            let piece = s.substring_char(start, i).to_owned();
            out.push(piece);
            assert(s@.subrange(i + 1, i + 1) =~= Seq::<char>::empty());
            assert(string_views(out@).push(s@.subrange(i + 1, i + 1)) =~= split_spaces(cur));
            start = i + 1;
        } else {
            assert(s@.subrange(start as int, i + 1) =~= s@.subrange(start as int, i as int).push(c));
            assert(string_views(out@).push(s@.subrange(start as int, i + 1)) =~= split_spaces(cur));
        }
        i += 1;
    }
    let piece = s.substring_char(start, n).to_owned();
    out.push(piece);
    assert(s@.subrange(0, n as int) =~= s@);
    assert(string_views(out@) =~= split_spaces(s@));
    out
}

/// A cursor over the tokens of one line.
pub struct Tokens {
    items: Vec<String>,
    pos: usize,
}

impl Tokens {
    /// The cursor stands within its tokens.
    pub closed spec fn wf(&self) -> bool {
        self.pos <= self.items@.len()
    }

    /// The tokens not yet taken.
    pub closed spec fn rest(&self) -> Seq<Seq<char>> {
        string_views(self.items@).skip(self.pos as int)
    }

    /// A cursor at the first of the pieces of `s` between single spaces.
    pub fn split(s: &str) -> (r: Tokens)
        ensures
            r.wf(),
            r.rest() == split_spaces(s@),
    {
        let items = split_on_spaces(s);
        let r = Tokens { items, pos: 0 };
        assert(r.rest() =~= split_spaces(s@));
        r
    }

    /// Takes the next token, if any is left.
    pub fn next(&mut self) -> (r: Option<String>)
        requires
            old(self).wf(),
        ensures
            final(self).wf(),
            old(self).rest().len() == 0 ==> r is None && final(self).rest() == old(self).rest(),
            old(self).rest().len() > 0 ==> r is Some && r->Some_0@ == old(self).rest()[0]
                && final(self).rest() == old(self).rest().drop_first(),
    {
        if self.pos < self.items.len() {
            let t = self.items[self.pos].clone();
            self.pos = self.pos + 1;
            assert(self.rest() =~= old(self).rest().drop_first());
            Some(t)
        } else {
            None
        }
    }
}

/// The first index from `j` on at which `ts` holds the stopword.
pub open spec fn stop_index(ts: Seq<Seq<char>>, stop: Seq<char>, j: int) -> Option<int>
    decreases ts.len() - j,
{
    if j < 0 || j >= ts.len() {
        None
    } else if ts[j] == stop {
        Some(j)
    } else {
        stop_index(ts, stop, j + 1)
    }
}

/// A name read up to a stopword: at least one token, then every token up to
/// the next one equal to the stopword, joined by spaces. Also gives how many
/// tokens that takes, the stopword included.
pub open spec fn read_until(ts: Seq<Seq<char>>, stop: Seq<char>) -> Option<(Seq<char>, int)> {
    if ts.len() == 0 {
        None
    } else {
        match stop_index(ts, stop, 1) {
            None => None,
            Some(k) => Some((join_spaces(ts.take(k)), k + 1)),
        }
    }
}

/// Where the first `\t\` at index `i` or later starts, or the length of `s`.
pub open spec fn first_marker(s: Seq<char>, i: int) -> int
    decreases s.len() - i,
{
    if i < 0 || i + 2 >= s.len() {
        s.len() as int
    } else if s[i] == '\\' && s[i + 1] == 't' && s[i + 2] == '\\' {
        i
    } else {
        first_marker(s, i + 1)
    }
}

/// The text before the first `\t\` in it (all of it if there is none).
pub open spec fn before_marker(s: Seq<char>) -> Seq<char> {
    s.take(first_marker(s, 0))
}

/// The player name of a user-info event, from the tokens after the event
/// name: a slot id, then a blob that starts with `n\`. The blob's tokens are
/// joined again by spaces and cut at the first `\t\`.
pub open spec fn userinfo_name(fields: Seq<Seq<char>>) -> Option<Seq<char>> {
    if fields.len() < 2 {
        None
    } else {
        let first = fields[1];
        if first.len() >= 2 && first[0] == 'n' && first[1] == '\\' {
            Some(before_marker(join_spaces(seq![first.skip(2)] + fields.skip(2))))
        } else {
            None
        }
    }
}

/// Attacker, victim and cause of a kill event, from the tokens after the
/// event name: three ignored ids, a name up to `killed`, a name up to `by`,
/// and the cause.
pub open spec fn kill_fields(fields: Seq<Seq<char>>) -> Option<(Seq<char>, Seq<char>, Seq<char>)> {
    let rest = fields.skip(if fields.len() < 3 { fields.len() as int } else { 3 });
    match read_until(rest, "killed"@) {
        None => None,
        Some((attacker, k)) => match read_until(rest.skip(k), "by"@) {
            None => None,
            Some((victim, k2)) => {
                let tail = rest.skip(k).skip(k2);
                if tail.len() == 0 {
                    None
                } else {
                    Some((attacker, victim, tail[0]))
                }
            },
        },
    }
}

proof fn lemma_join_push(ts: Seq<Seq<char>>, t: Seq<char>)
    requires
        ts.len() >= 1,
    ensures
        join_spaces(ts.push(t)) == join_spaces(ts) + seq![' '] + t,
{
    assert(ts.push(t).drop_last() =~= ts);
}

/// Reads a name made of one or more tokens, up to the stopword, and takes
/// the stopword too.
pub fn read_name(tokens: &mut Tokens, stopword: &str) -> (r: Result<String, ParseError>)
    requires
        old(tokens).wf(),
    ensures
        final(tokens).wf(),
        match read_until(old(tokens).rest(), stopword@) {
            Some((name, k)) => r is Ok && r->Ok_0@ == name
                && final(tokens).rest() == old(tokens).rest().skip(k),
            None => r == Err::<String, ParseError>(ParseError::MalformedEvent)
                && final(tokens).rest().len() == 0,
        },
{
    let ghost ts = tokens.rest();
    let mut name = match tokens.next() {
        Some(t) => t,
        None => return Err(ParseError::MalformedEvent),
    };
    let stop = stopword.to_owned();
    let ghost mut j: int = 1;
    proof {
        reveal_strlit(" ");
        assert(ts.take(1) =~= seq![ts[0]]);
    }
    loop
        invariant
            tokens.wf(),
            ts == old(tokens).rest(),
            1 <= j <= ts.len(),
            tokens.rest() == ts.skip(j),
            name@ == join_spaces(ts.take(j)),
            stop@ == stopword@,
            stop_index(ts, stopword@, 1) == stop_index(ts, stopword@, j),
        decreases tokens.rest().len(),
    {
        match tokens.next() {
            None => {
                return Err(ParseError::MalformedEvent);
            },
            Some(t) => {
                assert(t@ == ts[j]);
                if t == stop {
                    assert(tokens.rest() =~= ts.skip(j + 1));
                    return Ok(name);
                }
                proof {
                    reveal_strlit(" ");
                    lemma_join_push(ts.take(j), ts[j]);
                    assert(ts.take(j).push(ts[j]) =~= ts.take(j + 1));
                }
                name.append(" ");
                name.append(t.as_str());
                proof {
                    j = j + 1;
                    assert(tokens.rest() =~= ts.skip(j));
                }
            },
        }
    }
}

/// The text of `s` before its first `\t\`.
fn cut_at_marker(s: &str) -> (r: String)
    ensures
        r@ == before_marker(s@),
{
    let n = s.unicode_len();
    let mut i: usize = 0;
    while n > 1 && i < n - 2 && !(s.get_char(i) == '\\' && s.get_char(i + 1) == 't' && s.get_char(i + 2) == '\\')
        invariant
            i <= n,
            n == s@.len(),
            first_marker(s@, 0) == first_marker(s@, i as int),
        decreases n - i,
    {
        i += 1;
    }
    let end = if n > 1 && i < n - 2 { i } else { n };
    s.substring_char(0, end).to_owned()
}

/// Reads the player name of a user-info event from the tokens after the
/// event name.
pub fn read_player_name(tokens: &mut Tokens) -> (r: Result<String, ParseError>)
    requires
        old(tokens).wf(),
    ensures
        final(tokens).wf(),
        match userinfo_name(old(tokens).rest()) {
            Some(name) => r is Ok && r->Ok_0@ == name,
            None => r == Err::<String, ParseError>(ParseError::MalformedEvent),
        },
{
    let ghost ts = tokens.rest();
    if tokens.next().is_none() {
        return Err(ParseError::MalformedEvent);
    }
    let first = match tokens.next() {
        Some(t) => t,
        None => return Err(ParseError::MalformedEvent),
    };
    let flen = first.as_str().unicode_len();
    if !(flen >= 2 && first.as_str().get_char(0) == 'n' && first.as_str().get_char(1) == '\\') {
        return Err(ParseError::MalformedEvent);
    }
    let mut name = first.as_str().substring_char(2, flen).to_owned();
    let ghost head = seq![ts[1].skip(2)];
    let ghost mut j: int = 2;
    proof {
        reveal_strlit(" ");
        assert(head + ts.subrange(2, 2) =~= head);
    }
    loop
        invariant
            tokens.wf(),
            ts == old(tokens).rest(),
            head == seq![ts[1].skip(2)],
            ts[1].len() >= 2 && ts[1][0] == 'n' && ts[1][1] == '\\',
            2 <= j <= ts.len(),
            tokens.rest() == ts.skip(j),
            name@ == join_spaces(head + ts.subrange(2, j)),
        decreases tokens.rest().len(),
    {
        match tokens.next() {
            None => {
                assert(ts.subrange(2, j) =~= ts.skip(2));
                return Ok(cut_at_marker(name.as_str()));
            },
            Some(t) => {
                proof {
                    reveal_strlit(" ");
                    lemma_join_push(head + ts.subrange(2, j), ts[j]);
                    assert((head + ts.subrange(2, j)).push(ts[j]) =~= head + ts.subrange(2, j + 1));
                }
                name.append(" ");
                name.append(t.as_str());
                proof {
                    j = j + 1;
                    assert(tokens.rest() =~= ts.skip(j));
                }
            },
        }
    }
}

/// Takes one token if any is left, and says where the cursor then stands.
fn skip_one(tokens: &mut Tokens)
    requires
        old(tokens).wf(),
    ensures
        final(tokens).wf(),
        final(tokens).rest() == old(tokens).rest().skip(
            if old(tokens).rest().len() == 0 { 0int } else { 1int },
        ),
{
    let ghost ts = tokens.rest();
    tokens.next();
    assert(ts.skip(0) =~= ts);
    assert(ts.len() > 0 ==> ts.skip(1) =~= ts.drop_first());
}

/// Reads attacker, victim and cause of a kill event from the tokens after
/// the event name.
pub fn read_kill_fields(tokens: &mut Tokens) -> (r: Result<(String, String, String), ParseError>)
    requires
        old(tokens).wf(),
    ensures
        final(tokens).wf(),
        match kill_fields(old(tokens).rest()) {
            Some((attacker, victim, cause)) => r is Ok && r->Ok_0.0@ == attacker && r->Ok_0.1@
                == victim && r->Ok_0.2@ == cause,
            None => r == Err::<(String, String, String), ParseError>(ParseError::MalformedEvent),
        },
{
    let ghost ts = tokens.rest();
    skip_one(tokens);
    skip_one(tokens);
    skip_one(tokens);
    let ghost m: int = if ts.len() < 3 { ts.len() as int } else { 3 };
    assert(tokens.rest() =~= ts.skip(m));
    let attacker = match read_name(tokens, "killed") {
        Ok(a) => a,
        Err(e) => return Err(e),
    };
    let victim = match read_name(tokens, "by") {
        Ok(v) => v,
        Err(e) => return Err(e),
    };
    let cause = match tokens.next() {
        Some(c) => c,
        None => return Err(ParseError::MalformedEvent),
    };
    Ok((attacker, victim, cause))
}

} // verus!
