//! The ticket file format: one ticket per line, fifteen whitespace-separated decimal numbers.
use vstd::prelude::*;

verus! {

/// The characters that separate numbers: those that Unicode calls White_Space.
pub open spec fn is_space(c: char) -> bool {
    ||| ('\t' <= c && c <= '\r')
    ||| c == ' '
    ||| c == '\u{85}'
    ||| c == '\u{a0}'
    ||| c == '\u{1680}'
    ||| ('\u{2000}' <= c && c <= '\u{200a}')
    ||| c == '\u{2028}'
    ||| c == '\u{2029}'
    ||| c == '\u{202f}'
    ||| c == '\u{205f}'
    ||| c == '\u{3000}'
}

/// The tokens completed, and the token under way, after the first `n` characters of `s`.
pub open spec fn scan(s: Seq<char>, n: nat) -> (Seq<Seq<char>>, Seq<char>)
    decreases n,
{
    if n == 0 {
        (Seq::empty(), Seq::empty())
    } else {
        let (done, cur) = scan(s, (n - 1) as nat);
        let c = s[n - 1];
        if is_space(c) {
            if cur.len() > 0 { (done.push(cur), Seq::empty()) } else { (done, Seq::empty()) }
        } else {
            (done, cur.push(c))
        }
    }
}

/// The maximal runs of non-space characters of `s`, in order.
pub open spec fn tokens(s: Seq<char>) -> Seq<Seq<char>> {
    let (done, cur) = scan(s, s.len());
    if cur.len() > 0 { done.push(cur) } else { done }
}

pub open spec fn is_digit(c: char) -> bool {
    '0' <= c && c <= '9'
}

pub open spec fn decimal(d: Seq<char>) -> int
    decreases d.len(),
{
    if d.len() == 0 { 0 } else { decimal(d.drop_last()) * 10 + (d.last() as int - '0' as int) }
}

pub open spec fn all_digits(d: Seq<char>) -> bool {
    forall|i: int| 0 <= i < d.len() ==> is_digit(#[trigger] d[i])
}

/// The digits of a token: all of it but a leading `+`.
pub open spec fn digits_of(t: Seq<char>) -> Seq<char> {
    if t.len() > 0 && t[0] == '+' { t.drop_first() } else { t }
}

/// The value of a token read as an unsigned 32-bit decimal: an optional `+`, then one or more
/// ASCII digits, with a value that fits.
pub open spec fn token_value(t: Seq<char>) -> Option<u32> {
    let d = digits_of(t);
    if d.len() > 0 && all_digits(d) && decimal(d) <= u32::MAX {
        Some(decimal(d) as u32)
    } else {
        None
    }
}

/// Every token reads as a number.
pub open spec fn all_numbers(toks: Seq<Seq<char>>) -> bool {
    forall|i: int| 0 <= i < toks.len() ==> (#[trigger] token_value(toks[i])) is Some
}

/// Why a line is not a ticket.
#[derive(Clone, Copy, Debug, PartialEq, Eq, Structural)]
pub enum LineError {
    /// The line holds other than fifteen tokens.
    TokenCount { found: usize },
    /// The token at this position (counting from 0) is not an unsigned 32-bit decimal.
    NotANumber { token: usize },
}

/// The ticket that a line holds: exactly fifteen tokens, each an unsigned 32-bit decimal.
pub open spec fn line_ticket(line: Seq<char>) -> Option<Seq<u32>> {
    let toks = tokens(line);
    if toks.len() == 15 && all_numbers(toks) {
        Some(Seq::new(15, |i: int| token_value(toks[i])->Some_0))
    } else {
        None
    }
}

/// The position of the first token from `i` on that is no number; the token count if none is.
pub open spec fn first_non_number(toks: Seq<Seq<char>>, i: nat) -> nat
    decreases toks.len() - i,
{
    if i >= toks.len() {
        toks.len()
    } else if token_value(toks[i as int]) is None {
        i
    } else {
        first_non_number(toks, i + 1)
    }
}

/// Why a line gives no ticket: a token count other than fifteen, else its first token that is
/// no number.
pub open spec fn line_error(line: Seq<char>) -> LineError {
    let toks = tokens(line);
    if toks.len() != 15 {
        LineError::TokenCount { found: toks.len() as usize }
    } else {
        LineError::NotANumber { token: first_non_number(toks, 0) as usize }
    }
}

pub fn is_space_char(c: char) -> (r: bool)
    ensures
        r == is_space(c),
{
    ('\t' <= c && c <= '\r') || c == ' ' || c == '\u{85}' || c == '\u{a0}' || c == '\u{1680}'
        || ('\u{2000}' <= c && c <= '\u{200a}') || c == '\u{2028}' || c == '\u{2029}'
        || c == '\u{202f}' || c == '\u{205f}' || c == '\u{3000}'
}

proof fn lemma_decimal_nonneg(d: Seq<char>)
    requires
        forall|j: int| 0 <= j < d.len() ==> is_digit(#[trigger] d[j]),
    ensures
        decimal(d) >= 0,
    decreases d.len(),
{
    if d.len() > 0 {
        lemma_decimal_nonneg(d.drop_last());
    }
}

proof fn lemma_decimal_grows(d: Seq<char>, i: int)
    requires
        0 <= i < d.len(),
        forall|j: int| 0 <= j < d.len() ==> is_digit(#[trigger] d[j]),
    ensures
        decimal(d.take(i)) <= decimal(d.take(i + 1)),
        decimal(d.take(i + 1)) == decimal(d.take(i)) * 10 + (d[i] as int - '0' as int),
{
    assert(d.take(i + 1).drop_last() == d.take(i));
    assert(d.take(i + 1).last() == d[i]);
    lemma_decimal_nonneg(d.take(i));
}

/// Reads a token as an unsigned 32-bit decimal, as `token_value` says.
pub fn parse_token(t: &Vec<char>) -> (r: Option<u32>)
    ensures
        r == token_value(t@),
{
    let start: usize = if t.len() > 0 && t[0] == '+' { 1 } else { 0 };
    let ghost d = digits_of(t@);
    assert(d == t@.skip(start as int));
    if start == t.len() {
        return None;
    }
    let mut value: u64 = 0;
    let mut overflow: bool = false;
    let mut i: usize = start;
    while i < t.len()
        invariant
            start <= i <= t@.len(),
            d == digits_of(t@),
            d == t@.skip(start as int),
            forall|j: int| 0 <= j < i - start ==> is_digit(#[trigger] d[j]),
            !overflow ==> value == decimal(d.take(i - start)) && value <= u32::MAX,
            overflow ==> decimal(d.take(i - start)) > u32::MAX,
        decreases t@.len() - i,
    {
        let c: char = t[i];
        if !('0' <= c && c <= '9') {
            assert(!is_digit(d[i - start]));
            assert(!all_digits(d));
            return None;
        }
        proof {
            assert(d.take(i - start + 1).drop_last() == d.take(i - start));
            assert(d.take(i - start + 1).last() == c);
        }
        if !overflow {
            let next: u64 = value * 10 + (c as u64 - '0' as u64);
            if next > 4294967295 {
                overflow = true;
            } else {
                value = next;
            }
        }
        i = i + 1;
    }
    assert(d.take(i - start) == d);
    if overflow {
        None
    } else {
        Some(value as u32)
    }
}

/// The whitespace-separated tokens of `line`, in order.
pub fn line_tokens(line: &Vec<char>) -> (r: Vec<Vec<char>>)
    ensures
        r@.map_values(|t: Vec<char>| t@) == tokens(line@),
{
    let mut done: Vec<Vec<char>> = Vec::new();
    let mut cur: Vec<char> = Vec::new();
    let mut i: usize = 0;
    while i < line.len()
        invariant
            i <= line@.len(),
            scan(line@, i as nat) == (done@.map_values(|t: Vec<char>| t@), cur@),
        decreases line@.len() - i,
    {
        let c: char = line[i];
        if is_space_char(c) {
            if cur.len() > 0 {
                let ghost before = done@;
                let token = cur;
                cur = Vec::new();
                done.push(token);
                assert(done@.map_values(|t: Vec<char>| t@) =~= before.map_values(|t: Vec<char>| t@).push(token@));
            } else {
                cur = Vec::new();
            }
        } else {
            cur.push(c);
        }
        i = i + 1;
    }
    if cur.len() > 0 {
        let ghost before = done@;
        done.push(cur);
        assert(done@.map_values(|t: Vec<char>| t@) =~= before.map_values(|t: Vec<char>| t@).push(cur@));
    }
    done
}

/// Reads a ticket from a line: exactly fifteen whitespace-separated tokens, each an unsigned
/// 32-bit decimal; any other line is refused with the reason.
pub fn parse_ticket_line(line: &Vec<char>) -> (r: Result<[u32; 15], LineError>)
    ensures
        line_ticket(line@) matches Some(t) ==> (r matches Ok(a) && a@ == t),
        line_ticket(line@) is None ==> r == Err::<[u32; 15], LineError>(line_error(line@)),
{
    let toks = line_tokens(line);
    let ghost tv = tokens(line@);
    assert(toks@.len() == tv.len());
    if toks.len() != 15 {
        return Err(LineError::TokenCount { found: toks.len() });
    }
    let mut t: [u32; 15] = [0; 15];
    let mut i: usize = 0;
    while i < 15
        invariant
            tv == tokens(line@),
            toks@.map_values(|t: Vec<char>| t@) == tv,
            tv.len() == 15,
            i <= 15,
            first_non_number(tv, 0) == first_non_number(tv, i as nat),
            forall|j: int| 0 <= j < i ==> (#[trigger] token_value(tv[j])) == Some(t@[j]),
        decreases 15 - i,
    {
        assert(toks@[i as int]@ == tv[i as int]);
        match parse_token(&toks[i]) {
            Some(v) => {
                t[i] = v;
            },
            None => {
                assert(first_non_number(tv, i as nat) == i);
                assert(!all_numbers(tv));
                return Err(LineError::NotANumber { token: i });
            },
        }
        i = i + 1;
    }
    assert(all_numbers(tv));
    assert(t@ =~= Seq::new(15, |j: int| token_value(tv[j])->Some_0));
    Ok(t)
}

/// The tickets of a file's lines: those lines that hold a ticket, in order.
pub open spec fn loaded_tickets(lines: Seq<Seq<char>>) -> Seq<Seq<u32>>
    decreases lines.len(),
{
    if lines.len() == 0 {
        Seq::empty()
    } else {
        match line_ticket(lines.last()) {
            Some(t) => loaded_tickets(lines.drop_last()).push(t),
            None => loaded_tickets(lines.drop_last()),
        }
    }
}

/// The lines passed over, each as its number (counting from 1) and why it was refused.
pub open spec fn rejected_lines(lines: Seq<Seq<char>>) -> Seq<(usize, LineError)>
    decreases lines.len(),
{
    if lines.len() == 0 {
        Seq::empty()
    } else {
        match line_ticket(lines.last()) {
            Some(t) => rejected_lines(lines.drop_last()),
            None => rejected_lines(lines.drop_last()).push((lines.len() as usize, line_error(lines.last()))),
        }
    }
}

/// What reading a ticket file gives: its tickets, and the lines that were passed over.
pub struct TicketLoad {
    pub tickets: Vec<[u32; 15]>,
    /// Each passed-over line as (its number counting from 1, why it was refused).
    pub rejected: Vec<(usize, LineError)>,
}

/// Reads the tickets of a file's lines. A line that holds no ticket is passed over and
/// recorded; it does not stop the reading.
pub fn parse_tickets(lines: &Vec<Vec<char>>) -> (r: TicketLoad)
    ensures
        r.tickets@.map_values(|t: [u32; 15]| t@) == loaded_tickets(lines@.map_values(|l: Vec<char>| l@)),
        r.rejected@ == rejected_lines(lines@.map_values(|l: Vec<char>| l@)),
{
    let ghost lv = lines@.map_values(|l: Vec<char>| l@);
    let mut tickets: Vec<[u32; 15]> = Vec::new();
    let mut rejected: Vec<(usize, LineError)> = Vec::new();
    let mut i: usize = 0;
    while i < lines.len()
        invariant
            lv == lines@.map_values(|l: Vec<char>| l@),
            i <= lines@.len(),
            tickets@.map_values(|t: [u32; 15]| t@) == loaded_tickets(lv.take(i as int)),
            rejected@ == rejected_lines(lv.take(i as int)),
        decreases lines@.len() - i,
    {
        assert(lv.take(i as int + 1).drop_last() == lv.take(i as int));
        assert(lv.take(i as int + 1).last() == lines@[i as int]@);
        match parse_ticket_line(&lines[i]) {
            Ok(t) => {
                tickets.push(t);
                assert(tickets@.map_values(|t: [u32; 15]| t@) =~= loaded_tickets(lv.take(i as int + 1)));
            },
            Err(e) => {
                rejected.push((i + 1, e));
            },
        }
        i = i + 1;
    }
    assert(lv.take(i as int) == lv);
    TicketLoad { tickets, rejected }
}

} // verus!
