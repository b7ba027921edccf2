//! A total elapsed time in seconds: parsed from a string of space-separated
//! component tokens, combined by addition, and rendered back in canonical
//! form (zero components dropped, largest unit first).

use crate::digits::dec_rep;
use crate::digits::u32_to_string;
use crate::unit::ParseError;
use crate::unit::TimeUnit;
use crate::unit::is_token;
use crate::unit::token_seconds;
use crate::unit::token_unit;
use crate::unit::token_value;
use vstd::prelude::*;
use vstd::string::StrSliceExecFns;
use vstd::string::StringExecFns;

verus! {

/// A total elapsed time, held in seconds.
#[derive(Clone, Copy, Debug, PartialEq, Eq, Structural)]
pub struct TimeInterval {
    seconds: i32,
}

impl View for TimeInterval {
    type V = int;

    closed spec fn view(&self) -> int {
        self.seconds as int
    }
}

/// Why a whole duration string failed to parse.
#[derive(Debug, PartialEq, Eq)]
pub enum DurationError {
    /// The first failing component's error, with the full original input.
    InvalidDuration(String, ParseError),
    /// The total does not fit the supported integer width; carries the input.
    ArithmeticOverflow(String),
}

/// Split helper: `cur` holds the piece read since the last space.
pub open spec fn split_from(s: Seq<char>, cur: Seq<char>) -> Seq<Seq<char>>
    decreases s.len(),
{
    if s.len() == 0 {
        seq![cur]
    } else if s[0] == ' ' {
        seq![cur] + split_from(s.drop_first(), Seq::empty())
    } else {
        split_from(s.drop_first(), cur.push(s[0]))
    }
}

/// The pieces of `s` between single space characters, as `split(' ')` yields
/// them: consecutive, leading or trailing spaces yield empty pieces, and the
/// empty string yields one empty piece.
pub open spec fn split_on_space(s: Seq<char>) -> Seq<Seq<char>> {
    split_from(s, Seq::empty())
}

/// Total seconds denoted by a sequence of tokens.
pub open spec fn sum_seconds(ts: Seq<Seq<char>>) -> int
    decreases ts.len(),
{
    if ts.len() == 0 {
        0
    } else {
        sum_seconds(ts.drop_last()) + token_seconds(ts.last())
    }
}

/// A token that parses and whose magnitude fits the supported width.
pub open spec fn token_ok(t: Seq<char>) -> bool {
    is_token(t) && token_value(t) <= i32::MAX
}

/// The component error that `TimeUnit::parse` reports for the token `t`.
pub open spec fn error_for(e: ParseError, t: Seq<char>) -> bool {
    match e {
        ParseError::InvalidComponent(tok) => !is_token(t) && tok@ == t,
        ParseError::InvalidNumber(tok) => is_token(t) && token_value(t) > i32::MAX && tok@ == t,
    }
}

proof fn lemma_split_from_segment(s: Seq<char>, cur: Seq<char>, j: int)
    requires
        0 <= j <= s.len(),
        forall|i: int| 0 <= i < j ==> s[i] != ' ',
        j == s.len() || s[j] == ' ',
    ensures
        j == s.len() ==> split_from(s, cur) == seq![cur + s],
        j < s.len() ==> split_from(s, cur) == seq![cur + s.take(j)] + split_from(
            s.skip(j + 1),
            Seq::empty(),
        ),
    decreases j,
{
    if j == 0 {
        if s.len() == 0 {
            assert(cur + s =~= cur);
        } else {
            assert(s[0] == ' ');
            assert(cur + s.take(0) =~= cur);
            assert(s.skip(1) =~= s.drop_first());
        }
    } else {
        assert(s[0] != ' ');
        let d = s.drop_first();
        let cur2 = cur.push(s[0]);
        assert(forall|i: int| 0 <= i < j - 1 ==> d[i] != ' ') by {
            assert(forall|i: int| 0 <= i < j - 1 ==> d[i] == s[i + 1]);
        }
        assert(j - 1 == d.len() || d[j - 1] == s[j]);
        lemma_split_from_segment(d, cur2, j - 1);
        if j == s.len() {
            assert(cur2 + d =~= cur + s);
        } else {
            assert(cur2 + d.take(j - 1) =~= cur + s.take(j));
            assert(d.skip(j) =~= s.skip(j + 1));
        }
    }
}

/// When the characters before `j` hold no space and `j` is a space or the
/// end, the first split piece is exactly the segment before `j`.
proof fn lemma_split_segment(s: Seq<char>, j: int)
    requires
        0 <= j <= s.len(),
        forall|i: int| 0 <= i < j ==> s[i] != ' ',
        j == s.len() || s[j] == ' ',
    ensures
        j == s.len() ==> split_on_space(s) == seq![s],
        j < s.len() ==> split_on_space(s) == seq![s.take(j)] + split_on_space(s.skip(j + 1)),
{
    lemma_split_from_segment(s, Seq::empty(), j);
    assert(Seq::<char>::empty() + s =~= s);
    if j < s.len() {
        assert(Seq::<char>::empty() + s.take(j) =~= s.take(j));
    }
}

proof fn lemma_sum_take_step(ts: Seq<Seq<char>>, k: int)
    requires
        0 <= k < ts.len(),
    ensures
        sum_seconds(ts.take(k + 1)) == sum_seconds(ts.take(k)) + token_seconds(ts[k]),
{
    assert(ts.take(k + 1).drop_last() =~= ts.take(k));
    assert(ts.take(k + 1).last() == ts[k]);
}

impl TimeInterval {
    /// Wrap a raw total of seconds; no validation is performed.
    pub fn new(seconds: i32) -> (r: TimeInterval)
        ensures
            r@ == seconds as int,
    {
        TimeInterval { seconds }
    }

    /// The held total of seconds.
    pub fn total_seconds(&self) -> (r: i32)
        ensures
            r as int == self@,
    {
        self.seconds
    }

    /// Parse a duration string: the components between single spaces, each a
    /// token, summed into a total. The first failing component aborts the
    /// parse; a total beyond the supported width is reported as overflow.
    #[verifier::loop_isolation(false)]
    pub fn parse(time_string: &str) -> (r: Result<TimeInterval, DurationError>)
        ensures
            match r {
                Ok(d) => ({
                    let ts = split_on_space(time_string@);
                    &&& forall|j: int| 0 <= j < ts.len() ==> token_ok(#[trigger] ts[j])
                    &&& 0 <= sum_seconds(ts) <= i32::MAX
                    &&& d@ == sum_seconds(ts)
                }),
                Err(DurationError::InvalidDuration(txt, e)) => ({
                    let ts = split_on_space(time_string@);
                    &&& txt@ == time_string@
                    &&& exists|k: int|
                        {
                            &&& 0 <= k < ts.len()
                            &&& forall|j: int| 0 <= j < k ==> token_ok(#[trigger] ts[j])
                            &&& error_for(e, ts[k])
                            &&& sum_seconds(#[trigger] ts.take(k)) <= i32::MAX
                        }
                }),
                Err(DurationError::ArithmeticOverflow(txt)) => ({
                    let ts = split_on_space(time_string@);
                    &&& txt@ == time_string@
                    &&& exists|k: int|
                        {
                            &&& 0 <= k < ts.len()
                            &&& forall|j: int| 0 <= j <= k ==> token_ok(#[trigger] ts[j])
                            &&& sum_seconds(#[trigger] ts.take(k + 1)) > i32::MAX
                        }
                }),
            },
    {
        let ghost ts = split_on_space(time_string@);
        let len = time_string.unicode_len();
        let mut start: usize = 0;
        let mut total: i64 = 0;
        let ghost mut k: int = 0;
        proof {
            assert(time_string@.skip(0) =~= time_string@);
            assert(ts.skip(0) =~= ts);
            assert(ts.take(0) =~= Seq::<Seq<char>>::empty());
        }
        loop
            invariant
                start <= len,
                0 <= k <= ts.len(),
                split_on_space(time_string@.skip(start as int)) == ts.skip(k),
                forall|j: int| 0 <= j < k ==> token_ok(#[trigger] ts[j]),
                total == sum_seconds(ts.take(k)),
                0 <= total <= i32::MAX,
            decreases len - start,
        {
            let mut j: usize = start;
            while j < len && time_string.get_char(j) != ' '
                invariant
                    start <= j <= len,
                    forall|i: int| start <= i < j ==> time_string@[i] != ' ',
                decreases len - j,
            {
                j = j + 1;
            }
            let token = time_string.substring_char(start, j);
            proof {
                let s = time_string@;
                let suf = s.skip(start as int);
                assert(forall|i: int| 0 <= i < j - start ==> suf[i] != ' ') by {
                    assert(forall|i: int| 0 <= i < j - start ==> suf[i] == s[i + start]);
                }
                assert(j - start == suf.len() || suf[j - start] == s[j as int]);
                lemma_split_segment(suf, j - start);
                if j == len {
                    assert(token@ =~= suf);
                    assert(ts.skip(k) == seq![token@]);
                } else {
                    assert(token@ =~= suf.take(j - start));
                    assert(suf.skip(j - start + 1) =~= s.skip(j + 1));
                    assert(ts.skip(k) == seq![token@] + split_on_space(s.skip(j + 1)));
                }
                assert(ts.skip(k).len() >= 1);
                assert(ts[k] == ts.skip(k)[0]);
                assert(ts[k] == token@);
                if j < len {
                    assert(ts.skip(k + 1) =~= ts.skip(k).skip(1));
                    assert(ts.skip(k + 1) == split_on_space(s.skip(j + 1)));
                }
            }
            match TimeUnit::parse(token) {
                Err(e) => {
                    proof {
                        assert(error_for(e, ts[k]));
                        assert(sum_seconds(ts.take(k)) <= i32::MAX);
                    }
                    return Err(DurationError::InvalidDuration(time_string.to_owned(), e));
                },
                Ok(u) => {
                    let conv: i64 = match u {
                        TimeUnit::Seconds(v) => v as i64,
                        TimeUnit::Minutes(v) => (v as i64) * 60,
                        TimeUnit::Hours(v) => (v as i64) * 3600,
                    };
                    proof {
                        assert(conv == token_seconds(ts[k]));
                        assert(0 <= conv <= (i32::MAX as int) * 3600);
                    }
                    total = total + conv;
                    proof {
                        lemma_sum_take_step(ts, k);
                        k = k + 1;
                    }
                    if total > i32::MAX as i64 {
                        proof {
                            assert(0 <= k - 1 < ts.len());
                            assert(forall|j: int| 0 <= j <= k - 1 ==> token_ok(#[trigger] ts[j]));
                            assert(sum_seconds(ts.take(k - 1 + 1)) > i32::MAX);
                        }
                        return Err(DurationError::ArithmeticOverflow(time_string.to_owned()));
                    }
                    if j == len {
                        proof {
                            assert(k == ts.len());
                            assert(ts.take(k) =~= ts);
                        }
                        return Ok(TimeInterval::new(total as i32));
                    }
                    start = j + 1;
                },
            }
        }
    }

    /// The sum of the two totals, as a new interval.
    pub fn add(&self, other: &TimeInterval) -> (r: TimeInterval)
        requires
            i32::MIN <= self@ + other@ <= i32::MAX,
        ensures
            r@ == self@ + other@,
    {
        TimeInterval::new(self.seconds + other.seconds)
    }
}

/// The token for one rendered component: the magnitude in canonical decimal
/// form, then the unit letter.
pub open spec fn component_token(n: int, letter: char) -> Seq<char> {
    dec_rep(n as nat) + seq![letter]
}

/// The nonzero components of a total, largest unit first: whole hours, then
/// leftover minutes, then leftover seconds.
pub open spec fn components_of(total: int) -> Seq<Seq<char>> {
    let h = total / 3600;
    let m = (total / 60) % 60;
    let s = total % 60;
    (if h > 0 {
        seq![component_token(h, 'h')]
    } else {
        Seq::<Seq<char>>::empty()
    }) + (if m > 0 {
        seq![component_token(m, 'm')]
    } else {
        Seq::<Seq<char>>::empty()
    }) + (if s > 0 {
        seq![component_token(s, 's')]
    } else {
        Seq::<Seq<char>>::empty()
    })
}

/// Pieces joined with single spaces.
pub open spec fn join_spaces(parts: Seq<Seq<char>>) -> Seq<char>
    decreases parts.len(),
{
    if parts.len() == 0 {
        Seq::empty()
    } else if parts.len() == 1 {
        parts[0]
    } else {
        parts[0] + seq![' '] + join_spaces(parts.drop_first())
    }
}

/// Canonical rendering of a non-negative total: its nonzero components,
/// largest unit first, joined with single spaces; empty for a zero total.
pub open spec fn render_spec(total: int) -> Seq<char> {
    join_spaces(components_of(total))
}

proof fn lemma_join_two(a: Seq<char>, b: Seq<char>)
    ensures
        join_spaces(seq![a, b]) == a + seq![' '] + b,
{
    assert(seq![a, b].drop_first() =~= seq![b]);
    assert(join_spaces(seq![b]) == b);
}

proof fn lemma_join_three(a: Seq<char>, b: Seq<char>, c: Seq<char>)
    ensures
        join_spaces(seq![a, b, c]) == a + seq![' '] + (b + seq![' '] + c),
{
    assert(seq![a, b, c].drop_first() =~= seq![b, c]);
    lemma_join_two(b, c);
}

impl TimeInterval {
    /// Render the total in canonical form: zero components dropped, largest
    /// unit first, single spaces between tokens; a zero total renders empty.
    pub fn as_string(&self) -> (r: String)
        requires
            self@ >= 0,
        ensures
            r@ == render_spec(self@),
    {
        let total = self.seconds;
        let secs = total % 60;
        let minutes = total / 60;
        let mins = minutes % 60;
        let hours = minutes / 60;
        proof {
            vstd::arithmetic::div_mod::lemma_div_denominator(total as int, 60, 60);
            reveal_strlit("h");
            reveal_strlit("m");
            reveal_strlit("s");
            reveal_strlit(" ");
        }
        let mut out = String::new();
        if hours > 0 {
            let t = u32_to_string(hours as u32);
            out.append(t.as_str());
            out.append("h");
        }
        if mins > 0 {
            if hours > 0 {
                out.append(" ");
            }
            let t = u32_to_string(mins as u32);
            out.append(t.as_str());
            out.append("m");
        }
        if secs > 0 {
            if hours > 0 || mins > 0 {
                out.append(" ");
            }
            let t = u32_to_string(secs as u32);
            out.append(t.as_str());
            out.append("s");
        }
        proof {
            let h = self@ / 3600;
            let m = (self@ / 60) % 60;
            let s = self@ % 60;
            let th = component_token(h, 'h');
            let tm = component_token(m, 'm');
            let tsc = component_token(s, 's');
            let parts = components_of(self@);
            if h > 0 && m > 0 && s > 0 {
                assert(parts =~= seq![th, tm, tsc]);
                lemma_join_three(th, tm, tsc);
                assert(out@ =~= render_spec(self@));
            } else if h > 0 && m > 0 {
                assert(parts =~= seq![th, tm]);
                lemma_join_two(th, tm);
                assert(out@ =~= render_spec(self@));
            } else if h > 0 && s > 0 {
                assert(parts =~= seq![th, tsc]);
                lemma_join_two(th, tsc);
                assert(out@ =~= render_spec(self@));
            } else if h > 0 {
                assert(parts =~= seq![th]);
                assert(out@ =~= render_spec(self@));
            } else if m > 0 && s > 0 {
                assert(parts =~= seq![tm, tsc]);
                lemma_join_two(tm, tsc);
                assert(out@ =~= render_spec(self@));
            } else if m > 0 {
                assert(parts =~= seq![tm]);
                assert(out@ =~= render_spec(self@));
            } else if s > 0 {
                assert(parts =~= seq![tsc]);
                assert(out@ =~= render_spec(self@));
            } else {
                assert(parts =~= Seq::<Seq<char>>::empty());
                assert(out@ =~= render_spec(self@));
            }
        }
        out
    }
}

/// Addition of durations is commutative: the two sums hold the same total.
pub proof fn lemma_add_commutative(a: TimeInterval, b: TimeInterval)
    ensures
        a@ + b@ == b@ + a@,
{
}

/// Addition of durations is associative: adding in either grouping holds the
/// same total.
pub proof fn lemma_add_associative(a: TimeInterval, b: TimeInterval, c: TimeInterval)
    ensures
        (a@ + b@) + c@ == a@ + (b@ + c@),
{
}

/// A well-formed token holds no space character.
proof fn lemma_token_no_space(t: Seq<char>)
    requires
        is_token(t),
    ensures
        forall|i: int| 0 <= i < t.len() ==> t[i] != ' ',
{
    assert forall|i: int| 0 <= i < t.len() implies t[i] != ' ' by {
        if i < t.len() - 1 {
            assert(crate::digits::is_digit(t.take(t.len() - 1)[i]));
        }
    }
}

proof fn lemma_sum_two(a: Seq<char>, b: Seq<char>)
    ensures
        sum_seconds(seq![a, b]) == token_seconds(a) + token_seconds(b),
{
    assert(seq![a, b].drop_last() =~= seq![a]);
    assert(seq![a].drop_last() =~= Seq::<Seq<char>>::empty());
    assert(sum_seconds(Seq::<Seq<char>>::empty()) == 0);
    assert(sum_seconds(seq![a]) == token_seconds(a));
}

/// Splitting two tokens joined by a single space yields exactly the two
/// tokens.
proof fn lemma_split_two_tokens(t1: Seq<char>, t2: Seq<char>)
    requires
        is_token(t1),
        is_token(t2),
    ensures
        split_on_space(t1 + seq![' '] + t2) == seq![t1, t2],
{
    let s = t1 + seq![' '] + t2;
    lemma_token_no_space(t1);
    lemma_token_no_space(t2);
    assert(forall|i: int| 0 <= i < t1.len() ==> s[i] != ' ');
    assert(s[t1.len() as int] == ' ');
    lemma_split_segment(s, t1.len() as int);
    assert(s.take(t1.len() as int) =~= t1);
    assert(s.skip(t1.len() as int + 1) =~= t2);
    lemma_split_segment(t2, t2.len() as int);
    assert(split_on_space(s) == seq![t1] + seq![t2]);
    assert(seq![t1] + seq![t2] =~= seq![t1, t2]);
}

/// Token order does not affect the parsed total: two tokens joined by a
/// space in either order denote the same number of seconds.
pub proof fn lemma_parse_order_independent(t1: Seq<char>, t2: Seq<char>)
    requires
        is_token(t1),
        is_token(t2),
    ensures
        sum_seconds(split_on_space(t1 + seq![' '] + t2)) == sum_seconds(
            split_on_space(t2 + seq![' '] + t1),
        ),
{
    lemma_split_two_tokens(t1, t2);
    lemma_split_two_tokens(t2, t1);
    lemma_sum_two(t1, t2);
    lemma_sum_two(t2, t1);
}

} // verus!
