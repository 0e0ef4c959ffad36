use vstd::prelude::*;
use vstd::string::StringExecFns;
use vstd::string::StrSliceExecFns;
use chrono::Datelike;
use chrono::Timelike;
use crate::gtfs::Date;

verus! {

/// The character of decimal digit `d`.
pub open spec fn digit_char(d: int) -> char {
    if d == 0 {
        '0'
    } else if d == 1 {
        '1'
    } else if d == 2 {
        '2'
    } else if d == 3 {
        '3'
    } else if d == 4 {
        '4'
    } else if d == 5 {
        '5'
    } else if d == 6 {
        '6'
    } else if d == 7 {
        '7'
    } else if d == 8 {
        '8'
    } else {
        '9'
    }
}

/// The decimal representation of `n`, without leading zeros.
pub open spec fn decimal(n: nat) -> Seq<char>
    decreases n,
{
    if n < 10 {
        seq![digit_char(n as int)]
    } else {
        decimal(n / 10) + seq![digit_char((n % 10) as int)]
    }
}

/// The decimal representation of `n`, padded with a leading zero to two digits.
pub open spec fn two_digits(n: nat) -> Seq<char> {
    if n < 10 {
        seq!['0'] + decimal(n)
    } else {
        decimal(n)
    }
}

/// `HH:MM:SS` for a number of seconds; the hours may pass 23 and take more than two digits.
pub open spec fn time_string(t: nat) -> Seq<char> {
    two_digits(t / 3600) + seq![':'] + two_digits((t % 3600) / 60) + seq![':'] + two_digits(t % 60)
}

/// The one-character string of digit `d`.
fn digit_str(d: u32) -> (r: &'static str)
    requires
        d < 10,
    ensures
        r@ == seq![digit_char(d as int)],
{
    let r = if d == 0 {
        "0"
    } else if d == 1 {
        "1"
    } else if d == 2 {
        "2"
    } else if d == 3 {
        "3"
    } else if d == 4 {
        "4"
    } else if d == 5 {
        "5"
    } else if d == 6 {
        "6"
    } else if d == 7 {
        "7"
    } else if d == 8 {
        "8"
    } else {
        "9"
    };
    proof {
        reveal_strlit("0");
        reveal_strlit("1");
        reveal_strlit("2");
        reveal_strlit("3");
        reveal_strlit("4");
        reveal_strlit("5");
        reveal_strlit("6");
        reveal_strlit("7");
        reveal_strlit("8");
        reveal_strlit("9");
        assert(r@ =~= seq![digit_char(d as int)]);
    }
    r
}

/// Appends the decimal representation of `n` to `out`.
fn push_decimal(out: &mut String, n: u32)
    ensures
        final(out)@ == old(out)@ + decimal(n as nat),
    decreases n,
{
    if n >= 10 {
        push_decimal(out, n / 10);
        out.append(digit_str(n % 10));
        proof {
            assert(final(out)@ =~= old(out)@ + decimal(n as nat));
        }
    } else {
        out.append(digit_str(n));
        proof {
            assert(final(out)@ =~= old(out)@ + decimal(n as nat));
        }
    }
}

/// Appends `n` padded to two digits to `out`.
fn push_two_digits(out: &mut String, n: u32)
    ensures
        final(out)@ == old(out)@ + two_digits(n as nat),
{
    if n < 10 {
        out.append(digit_str(0));
        proof {
            assert(out@ == old(out)@ + seq!['0']);
        }
    }
    push_decimal(out, n);
    proof {
        assert(final(out)@ =~= old(out)@ + two_digits(n as nat));
    }
}

/// A number of seconds as `HH:MM:SS`.
pub fn get_time_string(time_in_seconds: u32) -> (r: String)
    ensures
        r@ == time_string(time_in_seconds as nat),
{
    let hours = time_in_seconds / 3600;
    let minutes = (time_in_seconds % 3600) / 60;
    let seconds = time_in_seconds % 60;
    let mut out = String::new();
    push_two_digits(&mut out, hours);
    out.append(":");
    proof {
        reveal_strlit(":");
    }
    push_two_digits(&mut out, minutes);
    out.append(":");
    push_two_digits(&mut out, seconds);
    proof {
        assert(out@ =~= time_string(time_in_seconds as nat));
    }
    out
}

/// Whether `c` has Unicode's `White_Space` property.
pub uninterp spec fn is_whitespace_char(c: char) -> bool;

/// Relies on `char::is_whitespace`: a property of the character alone.
#[verifier::external_body]
fn is_whitespace(c: char) -> (r: bool)
    ensures
        r == is_whitespace_char(c),
{
    c.is_whitespace()
}

/// What `usize::from_str` makes of a text: the number it spells, if any.
pub uninterp spec fn usize_parsed(s: Seq<char>) -> Option<usize>;

/// Relies on `usize::from_str`: the result depends on the text alone.
#[verifier::external_body]
fn parse_usize(s: &str) -> (r: Option<usize>)
    ensures
        r == usize_parsed(s@),
{
    s.parse::<usize>().ok()
}

/// What chrono reads from a text in the format `%Y-%m-%d %H:%M:%S`: year, month, day and the
/// seconds since midnight, if the text is such a date and time.
pub uninterp spec fn datetime_parsed(s: Seq<char>) -> Option<(i32, u32, u32, u32)>;

/// Relies on chrono's `NaiveDateTime::parse_from_str` with the format `%Y-%m-%d %H:%M:%S`: the
/// result depends on the text alone.
#[verifier::external_body]
fn parse_datetime(s: &str) -> (r: Option<(i32, u32, u32, u32)>)
    ensures
        r == datetime_parsed(s@),
{
    match chrono::NaiveDateTime::parse_from_str(s, "%Y-%m-%d %H:%M:%S") {
        Ok(dt) => Some((dt.date().year(), dt.date().month(), dt.date().day(), dt.time().num_seconds_from_midnight())),
        Err(_) => None,
    }
}

/// Position of the first `c` in `s` at or after `i`, or the length of `s`.
pub open spec fn find_from(s: Seq<char>, c: char, i: int) -> int
    decreases s.len() - i,
{
    if i >= s.len() {
        s.len() as int
    } else if s[i] == c {
        i
    } else {
        find_from(s, c, i + 1)
    }
}

/// Position of the first non-whitespace character of `s` at or after `i`, or the length.
pub open spec fn first_non_space(s: Seq<char>, i: int) -> int
    decreases s.len() - i,
{
    if i >= s.len() {
        s.len() as int
    } else if !is_whitespace_char(s[i]) {
        i
    } else {
        first_non_space(s, i + 1)
    }
}

/// End of the last non-whitespace character of `s` before `j`, or 0.
pub open spec fn last_non_space_end(s: Seq<char>, j: int) -> int
    decreases j,
{
    if j <= 0 {
        0
    } else if !is_whitespace_char(s[j - 1]) {
        j
    } else {
        last_non_space_end(s, j - 1)
    }
}

/// `s` without its leading and trailing whitespace.
pub open spec fn trimmed(s: Seq<char>) -> Seq<char> {
    let a = first_non_space(s, 0);
    let b = last_non_space_end(s, s.len() as int);
    if a < b {
        s.subrange(a, b)
    } else {
        Seq::empty()
    }
}

proof fn lemma_find_from(s: Seq<char>, c: char, i: int)
    requires
        0 <= i <= s.len(),
    ensures
        i <= find_from(s, c, i) <= s.len(),
        find_from(s, c, i) < s.len() ==> s[find_from(s, c, i)] == c,
    decreases s.len() - i,
{
    if i < s.len() && s[i] != c {
        lemma_find_from(s, c, i + 1);
    }
}

/// `s` without leading and trailing whitespace.
fn trim(s: &str) -> (r: String)
    ensures
        r@ == trimmed(s@),
{
    let n = s.unicode_len();
    let mut a: usize = 0;
    while a < n
        invariant
            n == s@.len(),
            a <= n,
            first_non_space(s@, a as int) == first_non_space(s@, 0),
        ensures
            a <= n,
            first_non_space(s@, a as int) == first_non_space(s@, 0),
            a < n ==> !is_whitespace_char(s@[a as int]),
        decreases n - a,
    {
        if !is_whitespace(s.get_char(a)) {
            break;
        }
        a += 1;
    }
    proof {
        if a >= n {
            assert(first_non_space(s@, a as int) == n);
        }
    }
    let mut b: usize = n;
    while b > 0
        invariant
            n == s@.len(),
            b <= n,
            last_non_space_end(s@, b as int) == last_non_space_end(s@, n as int),
        ensures
            b <= n,
            last_non_space_end(s@, b as int) == last_non_space_end(s@, n as int),
            b > 0 ==> !is_whitespace_char(s@[b - 1]),
        decreases b,
    {
        if !is_whitespace(s.get_char(b - 1)) {
            break;
        }
        b -= 1;
    }
    proof {
        assert(first_non_space(s@, 0) == a as int) by {
            if a < n {
                assert(!is_whitespace_char(s@[a as int]) ==> first_non_space(s@, a as int) == a);
            }
        }
        assert(last_non_space_end(s@, n as int) == b as int) by {
            if b > 0 {
                assert(!is_whitespace_char(s@[b - 1]) ==> last_non_space_end(s@, b as int) == b);
            }
        }
    }
    if a < b {
        String::from_str(s.substring_char(a, b))
    } else {
        String::new()
    }
}

/// Position of the first `c` in `s` at or after `i`, or the length of `s`.
fn find_char(s: &str, n: usize, c: char, i: usize) -> (r: usize)
    requires
        n == s@.len(),
        i <= n,
    ensures
        r == find_from(s@, c, i as int),
{
    let mut k: usize = i;
    while k < n
        invariant
            n == s@.len(),
            i <= k <= n,
            find_from(s@, c, k as int) == find_from(s@, c, i as int),
        decreases n - k,
    {
        if s.get_char(k) == c {
            return k;
        }
        k += 1;
    }
    k
}

/// A command of the terminal front-end.
#[derive(Debug)]
pub enum Command {
    Help,
    Invalid,
    /// A journey query: date, seconds since midnight, departure and destination names.
    GetConnection(Date, u32, String, String),
    PrintNode(usize),
    PrintStop(String),
    PrintTrip(String),
}

/// The first word of a trimmed line: up to its first space.
pub open spec fn first_word(t: Seq<char>) -> Seq<char> {
    t.subrange(0, find_from(t, ' ', 0))
}

/// What follows the first space of a trimmed line, if it has one.
pub open spec fn after_first_word(t: Seq<char>) -> Option<Seq<char>> {
    if find_from(t, ' ', 0) < t.len() {
        Some(t.subrange(find_from(t, ' ', 0) + 1, t.len() as int))
    } else {
        None
    }
}

/// The single argument of a command: what follows the first word, where that holds no space.
pub open spec fn single_argument(t: Seq<char>) -> Option<Seq<char>> {
    match after_first_word(t) {
        Some(rest) => if find_from(rest, ' ', 0) == rest.len() {
            Some(rest)
        } else {
            None
        },
        None => None,
    }
}

/// The three `|`-separated fields of `rest`, trimmed, where it has exactly two `|`.
pub open spec fn connection_fields(rest: Seq<char>) -> Option<(Seq<char>, Seq<char>, Seq<char>)> {
    let a = find_from(rest, '|', 0);
    let b = find_from(rest, '|', a + 1);
    if a < rest.len() && b < rest.len() && find_from(rest, '|', b + 1) == rest.len() {
        Some(
            (
                trimmed(rest.subrange(0, a)),
                trimmed(rest.subrange(a + 1, b)),
                trimmed(rest.subrange(b + 1, rest.len() as int)),
            ),
        )
    } else {
        None
    }
}

/// `r` is the command that `line` spells: `node ID`, `stop ID`, `trip ID`, `help`, or
/// `conn DATE TIME | FROM | TO`; anything else is invalid.
pub open spec fn is_command_of(r: Command, line: Seq<char>) -> bool {
    let t = trimmed(line);
    let word = first_word(t);
    if word == seq!['n', 'o', 'd', 'e'] {
        match single_argument(t) {
            Some(arg) => match usize_parsed(arg) {
                Some(id) => r == Command::PrintNode(id),
                None => r is Invalid,
            },
            None => r is Invalid,
        }
    } else if word == seq!['s', 't', 'o', 'p'] {
        match single_argument(t) {
            Some(arg) => r matches Command::PrintStop(id) && id@ == arg,
            None => r is Invalid,
        }
    } else if word == seq!['t', 'r', 'i', 'p'] {
        match single_argument(t) {
            Some(arg) => r matches Command::PrintTrip(id) && id@ == arg,
            None => r is Invalid,
        }
    } else if word == seq!['h', 'e', 'l', 'p'] {
        r is Help
    } else if word == seq!['c', 'o', 'n', 'n'] {
        let rest = match after_first_word(t) {
            Some(rest) => rest,
            None => Seq::empty(),
        };
        match connection_fields(rest) {
            Some((when, from, to)) => match datetime_parsed(when) {
                Some((y, m, d, secs)) => if (Date { year: y, month: m, day: d }).is_valid() {
                    r matches Command::GetConnection(date, time, dep, dest) && date == (Date {
                        year: y,
                        month: m,
                        day: d,
                    }) && time == secs && dep@ == from && dest@ == to
                } else {
                    r is Invalid
                },
                None => r is Invalid,
            },
            None => r is Invalid,
        }
    } else {
        r is Invalid
    }
}

/// The three fields of a `conn` command.
fn parse_connection(rest: &str) -> (r: Command)
    ensures
        match connection_fields(rest@) {
            Some((when, from, to)) => match datetime_parsed(when) {
                Some((y, m, d, secs)) => if (Date { year: y, month: m, day: d }).is_valid() {
                    r matches Command::GetConnection(date, time, dep, dest) && date == (Date {
                        year: y,
                        month: m,
                        day: d,
                    }) && time == secs && dep@ == from && dest@ == to
                } else {
                    r is Invalid
                },
                None => r is Invalid,
            },
            None => r is Invalid,
        },
{
    let n = rest.unicode_len();
    let a = find_char(rest, n, '|', 0);
    if a >= n {
        return Command::Invalid;
    }
    let b = find_char(rest, n, '|', a + 1);
    proof {
        lemma_find_from(rest@, '|', a + 1);
    }
    if b >= n {
        return Command::Invalid;
    }
    let c = find_char(rest, n, '|', b + 1);
    if c != n {
        return Command::Invalid;
    }
    let when = trim(rest.substring_char(0, a));
    let from = trim(rest.substring_char(a + 1, b));
    let to = trim(rest.substring_char(b + 1, n));
    match parse_datetime(when.as_str()) {
        Some((y, m, d, secs)) => match Date::new(y, m, d) {
            Some(date) => Command::GetConnection(date, secs, from, to),
            None => Command::Invalid,
        },
        None => Command::Invalid,
    }
}

/// The argument of a one-argument command, if the line has exactly one.
fn single_arg(t: &str, n: usize, sp: usize) -> (r: Option<String>)
    requires
        n == t@.len(),
        sp == find_from(t@, ' ', 0),
    ensures
        match single_argument(t@) {
            Some(arg) => r matches Some(a) && a@ == arg,
            None => r is None,
        },
{
    proof {
        lemma_find_from(t@, ' ', 0);
    }
    if sp >= n {
        return None;
    }
    let rest = t.substring_char(sp + 1, n);
    let m = rest.unicode_len();
    if find_char(rest, m, ' ', 0) == m {
        Some(String::from_str(rest))
    } else {
        None
    }
}

/// The command that a line typed at the prompt spells.
pub fn command_from_line(line: &str) -> (r: Command)
    ensures
        is_command_of(r, line@),
{
    let t = trim(line);
    let ts = t.as_str();
    let n = ts.unicode_len();
    let sp = find_char(ts, n, ' ', 0);
    proof {
        lemma_find_from(ts@, ' ', 0);
    }
    let word = String::from_str(ts.substring_char(0, sp));
    let node = String::from_str("node");
    let stop = String::from_str("stop");
    let trip = String::from_str("trip");
    let help = String::from_str("help");
    let conn = String::from_str("conn");
    proof {
        reveal_strlit("node");
        reveal_strlit("stop");
        reveal_strlit("trip");
        reveal_strlit("help");
        reveal_strlit("conn");
        assert(node@ =~= seq!['n', 'o', 'd', 'e']);
        assert(stop@ =~= seq!['s', 't', 'o', 'p']);
        assert(trip@ =~= seq!['t', 'r', 'i', 'p']);
        assert(help@ =~= seq!['h', 'e', 'l', 'p']);
        assert(conn@ =~= seq!['c', 'o', 'n', 'n']);
    }
    if word == node {
        match single_arg(ts, n, sp) {
            Some(arg) => match parse_usize(arg.as_str()) {
                Some(id) => Command::PrintNode(id),
                None => Command::Invalid,
            },
            None => Command::Invalid,
        }
    } else if word == stop {
        match single_arg(ts, n, sp) {
            Some(arg) => Command::PrintStop(arg),
            None => Command::Invalid,
        }
    } else if word == trip {
        match single_arg(ts, n, sp) {
            Some(arg) => Command::PrintTrip(arg),
            None => Command::Invalid,
        }
    } else if word == help {
        Command::Help
    } else if word == conn {
        if sp < n {
            parse_connection(ts.substring_char(sp + 1, n))
        } else {
            let empty = "";
            proof {
                reveal_strlit("");
                assert(empty@ =~= Seq::<char>::empty());
            }
            parse_connection(empty)
        }
    } else {
        Command::Invalid
    }
}

} // verus!
