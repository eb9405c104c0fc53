//! Reading what the operator types: one process per line, as a name, the
//! work it needs and its arrival tick, separated by whitespace; the word
//! `exit` to end the list; and a number to choose the algorithm.

use crate::policy::Algorithm;
use crate::process::Process;
use vstd::prelude::*;
use vstd::string::StrSliceExecFns;

verus! {

/// Why a line was refused.
#[derive(Clone, Copy, Debug, PartialEq, Eq, Structural)]
pub enum InputError {
    /// The line does not hold exactly three fields.
    TokenCount,
    /// The second field is not a number that fits.
    TotalTime,
    /// The third field is not a number that fits.
    EntryTime,
}

/// Whether `c` is white space.
pub open spec fn is_space(c: char) -> bool {
    let u = c as u32;
    ||| 0x09 <= u <= 0x0d
    ||| u == 0x20
    ||| u == 0x85
    ||| u == 0xa0
    ||| u == 0x1680
    ||| 0x2000 <= u <= 0x200a
    ||| u == 0x2028
    ||| u == 0x2029
    ||| u == 0x202f
    ||| u == 0x205f
    ||| u == 0x3000
}

/// Whether `c` is a decimal digit.
pub open spec fn is_digit(c: char) -> bool {
    0x30 <= c as u32 <= 0x39
}

/// Whether `s` holds decimal digits only.
pub open spec fn all_digits(s: Seq<char>) -> bool {
    forall|i: int| 0 <= i < s.len() ==> is_digit(#[trigger] s[i])
}

/// The number that the digits of `s` write in base ten.
pub open spec fn digits_value(s: Seq<char>) -> nat
    decreases s.len(),
{
    if s.len() == 0 {
        0
    } else {
        (digits_value(s.drop_last()) * 10 + (s.last() as u32 - 0x30)) as nat
    }
}

/// The number that `s` writes: one or more decimal digits, after an
/// optional plus sign, whose value fits in `usize`.
pub open spec fn decimal(s: Seq<char>) -> Option<usize> {
    let body = if s.len() > 0 && s[0] == '+' {
        s.drop_first()
    } else {
        s
    };
    if body.len() > 0 && all_digits(body) && digits_value(body) <= usize::MAX {
        Some(digits_value(body) as usize)
    } else {
        None
    }
}

/// The first position from `i` on that holds no white space.
pub open spec fn token_start(s: Seq<char>, i: int) -> int
    decreases s.len() - i,
{
    if 0 <= i < s.len() && is_space(s[i]) {
        token_start(s, i + 1)
    } else {
        i
    }
}

/// The first position from `i` on that holds white space, or the end.
pub open spec fn token_end(s: Seq<char>, i: int) -> int
    decreases s.len() - i,
{
    if 0 <= i < s.len() && !is_space(s[i]) {
        token_end(s, i + 1)
    } else {
        i
    }
}

/// The fields of `s` from position `i` on: the maximal runs of characters
/// that are not white space.
pub open spec fn tokens_from(s: Seq<char>, i: int) -> Seq<Seq<char>>
    decreases s.len() - i,
{
    let start = token_start(s, i);
    if 0 <= i && start < s.len() {
        proof {
            lemma_token_bounds(s, i);
            lemma_token_end(s, start);
        }
        seq![s.subrange(start, token_end(s, start))] + tokens_from(s, token_end(s, start))
    } else {
        Seq::empty()
    }
}

/// The fields of a line.
pub open spec fn tokens(s: Seq<char>) -> Seq<Seq<char>> {
    tokens_from(s, 0)
}

/// What a line says: the name, the work and the arrival tick of a process,
/// or why it is refused.
pub open spec fn parse_line(s: Seq<char>) -> Result<(Seq<char>, usize, usize), InputError> {
    let t = tokens(s);
    if t.len() != 3 {
        Err(InputError::TokenCount)
    } else {
        match decimal(t[1]) {
            None => Err(InputError::TotalTime),
            Some(total_time) => match decimal(t[2]) {
                None => Err(InputError::EntryTime),
                Some(entry_time) => Ok((t[0], total_time, entry_time)),
            },
        }
    }
}

/// Whether a line is the word `exit`, with or without white space around.
pub open spec fn is_exit(s: Seq<char>) -> bool {
    tokens(s) == seq![seq!['e', 'x', 'i', 't']]
}

/// The algorithm that a choice names: a line that holds the number 2 and
/// nothing else chooses First-Come-First-Served; the number 1 chooses
/// Round-Robin, and so does every line that names no algorithm.
pub open spec fn chosen_algorithm(s: Seq<char>) -> Algorithm {
    if tokens(s).len() == 1 && decimal(tokens(s)[0]) == Some(2usize) {
        Algorithm::Fcfs
    } else {
        Algorithm::RoundRobin
    }
}

/// The start of a field lies between `i` and the end, and holds no white
/// space.
pub proof fn lemma_token_bounds(s: Seq<char>, i: int)
    requires
        0 <= i,
    ensures
        i <= token_start(s, i),
        i <= s.len() ==> token_start(s, i) <= s.len(),
        token_start(s, i) < s.len() ==> !is_space(s[token_start(s, i)]),
    decreases s.len() - i,
{
    if i < s.len() && is_space(s[i]) {
        lemma_token_bounds(s, i + 1);
    }
}

/// A field that starts on a character that is no white space is not empty,
/// holds no white space, and ends on white space or at the end.
pub proof fn lemma_token_end(s: Seq<char>, i: int)
    requires
        0 <= i <= s.len(),
    ensures
        i <= token_end(s, i) <= s.len(),
        i < s.len() && !is_space(s[i]) ==> i < token_end(s, i),
        token_end(s, i) < s.len() ==> is_space(s[token_end(s, i)]),
        forall|k: int| i <= k < token_end(s, i) ==> !is_space(#[trigger] s[k]),
    decreases s.len() - i,
{
    if i < s.len() && !is_space(s[i]) {
        lemma_token_end(s, i + 1);
    }
}

/// More digits never write a smaller number.
pub proof fn lemma_digits_monotonic(s: Seq<char>, k: int)
    requires
        0 <= k <= s.len(),
        all_digits(s),
    ensures
        digits_value(s.take(k)) <= digits_value(s),
    decreases s.len(),
{
    if k < s.len() {
        let d = s.drop_last();
        assert(d.take(k) =~= s.take(k));
        assert(is_digit(s.last()));
        assert forall|i: int| 0 <= i < d.len() implies is_digit(#[trigger] d[i]) by {
            assert(d[i] == s[i]);
        }
        lemma_digits_monotonic(d, k);
    } else {
        assert(s.take(k) =~= s);
    }
}

/// Whether `c` is white space.
pub fn is_space_char(c: char) -> (b: bool)
    ensures
        b == is_space(c),
{
    let u: u32 = c as u32;
    (0x09 <= u && u <= 0x0d) || u == 0x20 || u == 0x85 || u == 0xa0 || u == 0x1680 || (0x2000
        <= u && u <= 0x200a) || u == 0x2028 || u == 0x2029 || u == 0x202f || u == 0x205f || u
        == 0x3000
}

/// The characters of a string, one by one.
pub fn chars_of(s: &str) -> (v: Vec<char>)
    ensures
        v@ == s@,
{
    let mut v: Vec<char> = Vec::new();
    for c in it: s.chars()
        invariant
            it.seq() == s@,
            v@ == it.seq().take(it.index() as int),
    {
        v.push(c);
        assert(it.seq().take(it.index() + 1).drop_last() =~= it.seq().take(it.index() as int));
    }
    assert(s@.take(s@.len() as int) =~= s@);
    v
}

/// The next field from position `from` on, as the positions where it
/// starts and ends. At the end of the line both are the length.
pub fn next_token(chars: &Vec<char>, from: usize) -> (r: (usize, usize))
    requires
        from <= chars@.len(),
    ensures
        r.0 == token_start(chars@, from as int),
        r.1 == token_end(chars@, r.0 as int),
        from <= r.0 <= r.1 <= chars@.len(),
        r.0 < chars@.len() ==> r.0 < r.1,
{
    let n = chars.len();
    let mut start = from;
    while start < n && is_space_char(chars[start])
        invariant
            n == chars@.len(),
            from <= start <= n,
            token_start(chars@, start as int) == token_start(chars@, from as int),
        decreases n - start,
    {
        start += 1;
    }
    let mut end = start;
    while end < n && !is_space_char(chars[end])
        invariant
            n == chars@.len(),
            start <= end <= n,
            token_end(chars@, end as int) == token_end(chars@, start as int),
        decreases n - end,
    {
        end += 1;
    }
    proof {
        lemma_token_end(chars@, start as int);
    }
    (start, end)
}

/// The fields that lie at the given positions.
pub open spec fn spans(s: Seq<char>, ranges: Seq<(usize, usize)>) -> Seq<Seq<char>> {
    Seq::new(ranges.len(), |k: int| s.subrange(ranges[k].0 as int, ranges[k].1 as int))
}

/// Splits a line into its fields, each given by the positions where it
/// starts and ends.
pub fn tokenize(chars: &Vec<char>) -> (ranges: Vec<(usize, usize)>)
    ensures
        spans(chars@, ranges@) == tokens(chars@),
        forall|k: int|
            0 <= k < ranges@.len() ==> (#[trigger] ranges@[k]).0 < ranges@[k].1 <= chars@.len(),
{
    let n = chars.len();
    let mut ranges: Vec<(usize, usize)> = Vec::new();
    let mut pos: usize = 0;
    assert(spans(chars@, ranges@) + tokens_from(chars@, 0) =~= tokens(chars@));
    loop
        invariant
            n == chars@.len(),
            pos <= n,
            spans(chars@, ranges@) + tokens_from(chars@, pos as int) == tokens(chars@),
            forall|k: int|
                0 <= k < ranges@.len() ==> (#[trigger] ranges@[k]).0 < ranges@[k].1
                    <= chars@.len(),
        ensures
            spans(chars@, ranges@) == tokens(chars@),
            forall|k: int|
                0 <= k < ranges@.len() ==> (#[trigger] ranges@[k]).0 < ranges@[k].1
                    <= chars@.len(),
        decreases n - pos,
    {
        let (start, end) = next_token(chars, pos);
        if start >= n {
            assert(tokens_from(chars@, pos as int) =~= Seq::empty());
            assert(spans(chars@, ranges@) + Seq::<Seq<char>>::empty() =~= spans(
                chars@,
                ranges@,
            ));
            break ;
        }
        let ghost before = ranges@;
        ranges.push((start, end));
        proof {
            let piece = chars@.subrange(start as int, end as int);
            assert(tokens_from(chars@, pos as int) == seq![piece] + tokens_from(
                chars@,
                end as int,
            ));
            assert(spans(chars@, ranges@) =~= spans(chars@, before) + seq![piece]);
            assert(spans(chars@, ranges@) + tokens_from(chars@, end as int) =~= spans(
                chars@,
                before,
            ) + (seq![piece] + tokens_from(chars@, end as int)));
        }
        pos = end;
    }
    ranges
}

/// Reads the number written between two positions of a line.
pub fn parse_decimal(chars: &Vec<char>, start: usize, end: usize) -> (r: Option<usize>)
    requires
        start <= end <= chars@.len(),
    ensures
        r == decimal(chars@.subrange(start as int, end as int)),
{
    let ghost whole = chars@.subrange(start as int, end as int);
    let mut i = start;
    if i < end && chars[i] == '+' {
        i += 1;
    }
    let begin = i;
    let ghost body = chars@.subrange(begin as int, end as int);
    proof {
        if begin > start {
            assert(whole[0] == '+');
            assert(whole.drop_first() =~= body);
        } else {
            assert(whole =~= body);
            if whole.len() > 0 {
                assert(whole[0] == chars@[start as int]);
            }
        }
    }
    if i == end {
        return None;
    }
    let mut value: usize = 0;
    assert(body.take(0) =~= Seq::empty());
    while i < end
        invariant
            begin <= i <= end <= chars@.len(),
            body == chars@.subrange(begin as int, end as int),
            whole == chars@.subrange(start as int, end as int),
            decimal(whole) == if all_digits(body) && digits_value(body) <= usize::MAX {
                Some(digits_value(body) as usize)
            } else {
                None
            },
            all_digits(body.take(i - begin)),
            value == digits_value(body.take(i - begin)),
        decreases end - i,
    {
        let u: u32 = chars[i] as u32;
        if u < 0x30 || u > 0x39 {
            assert(!is_digit(body[i - begin]));
            return None;
        }
        let digit: usize = (u - 0x30) as usize;
        proof {
            let longer = body.take(i - begin + 1);
            assert(longer.drop_last() =~= body.take(i - begin));
            assert(longer.last() == chars@[i as int]);
            assert forall|k: int| 0 <= k < longer.len() implies is_digit(#[trigger] longer[k]) by {
                if k < i - begin {
                    assert(longer[k] == body.take(i - begin)[k]);
                }
            }
            assert(digits_value(longer) == value * 10 + digit);
        }
        if value > (usize::MAX - digit) / 10 {
            proof {
                if all_digits(body) {
                    lemma_digits_monotonic(body, i - begin + 1);
                }
            }
            return None;
        }
        value = value * 10 + digit;
        i += 1;
    }
    assert(body.take(end - begin) =~= body);
    Some(value)
}

/// Reads one process from a line of three fields: its name, the work it
/// needs and its arrival tick. A line with another number of fields, or
/// with a field that is no number, is refused, and the reason says which.
pub fn get_process_from_user(line: String) -> (r: Result<Process, InputError>)
    ensures
        match r {
            Ok(p) => parse_line(line@) == Ok::<(Seq<char>, usize, usize), InputError>(
                (p.name@, p.total_time, p.entry_time),
            ) && p.is_fresh(),
            Err(e) => parse_line(line@) == Err::<(Seq<char>, usize, usize), InputError>(e),
        },
{
    let text = line.as_str();
    let chars = chars_of(text);
    let ranges = tokenize(&chars);
    if ranges.len() != 3 {
        return Err(InputError::TokenCount);
    }
    proof {
        let t = tokens(line@);
        assert(t[0] == chars@.subrange(ranges@[0].0 as int, ranges@[0].1 as int));
        assert(t[1] == chars@.subrange(ranges@[1].0 as int, ranges@[1].1 as int));
        assert(t[2] == chars@.subrange(ranges@[2].0 as int, ranges@[2].1 as int));
    }
    let total_time = match parse_decimal(&chars, ranges[1].0, ranges[1].1) {
        Some(v) => v,
        None => {
            return Err(InputError::TotalTime);
        },
    };
    let entry_time = match parse_decimal(&chars, ranges[2].0, ranges[2].1) {
        Some(v) => v,
        None => {
            return Err(InputError::EntryTime);
        },
    };
    let name = text.substring_char(ranges[0].0, ranges[0].1);
    Ok(Process::new(name, total_time, entry_time))
}

/// Whether the line ends the list of processes.
pub fn is_exit_line(line: &str) -> (b: bool)
    ensures
        b == is_exit(line@),
{
    let chars = chars_of(line);
    let ranges = tokenize(&chars);
    if ranges.len() != 1 {
        assert(tokens(line@).len() == ranges@.len());
        assert(seq![seq!['e', 'x', 'i', 't']].len() == 1);
        return false;
    }
    let (start, end) = ranges[0];
    proof {
        assert(tokens(line@)[0] == chars@.subrange(start as int, end as int));
    }
    if end - start != 4 {
        assert(tokens(line@)[0].len() != seq!['e', 'x', 'i', 't'].len());
        return false;
    }
    let same = chars[start] == 'e' && chars[start + 1] == 'x' && chars[start + 2] == 'i'
        && chars[start + 3] == 't';
    proof {
        let word = chars@.subrange(start as int, end as int);
        let exit = seq!['e', 'x', 'i', 't'];
        if same {
            assert(word =~= exit);
            assert(tokens(line@) =~= seq![exit]);
        } else {
            assert(word[0] == chars@[start as int]);
            assert(word[1] == chars@[start + 1]);
            assert(word[2] == chars@[start + 2]);
            assert(word[3] == chars@[start + 3]);
            assert(exit[0] == 'e' && exit[1] == 'x' && exit[2] == 'i' && exit[3] == 't');
            assert(word != exit);
            assert(seq![exit][0] == exit);
        }
    }
    same
}

/// Reads the choice of algorithm.
pub fn select_algorithm(choice: &str) -> (a: Algorithm)
    ensures
        a == chosen_algorithm(choice@),
{
    let chars = chars_of(choice);
    let ranges = tokenize(&chars);
    if ranges.len() != 1 {
        return Algorithm::RoundRobin;
    }
    proof {
        assert(tokens(choice@)[0] == chars@.subrange(ranges@[0].0 as int, ranges@[0].1 as int));
    }
    match parse_decimal(&chars, ranges[0].0, ranges[0].1) {
        Some(number) => if number == 2 {
            Algorithm::Fcfs
        } else {
            Algorithm::RoundRobin
        },
        None => Algorithm::RoundRobin,
    }
}

} // verus!
